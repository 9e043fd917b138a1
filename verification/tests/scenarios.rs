use random_unique::permute;
use random_unique::RandomSequenceOfUniqueU32;
use random_unique::PRIME;
use std::collections::HashSet;

#[test]
fn permute_maps_small_squares_exactly() {
    assert_eq!(permute(0), 0);
    assert_eq!(permute(1), 1);
    assert_eq!(permute(2), 4);
    assert_eq!(permute(3), 9);
    assert_eq!(permute(65535), 4294836225);
}

#[test]
fn permute_fixes_the_five_values_outside_the_prime() {
    assert_eq!(permute(4294967291), 4294967291);
    assert_eq!(permute(4294967292), 4294967292);
    assert_eq!(permute(4294967293), 4294967293);
    assert_eq!(permute(4294967294), 4294967294);
    assert_eq!(permute(4294967295), 4294967295);
    assert_eq!(PRIME, 4294967291);
}

#[test]
fn permute_has_no_duplicates_on_a_sample() {
    let mut seen = HashSet::new();
    for x in 0u32..100_000 {
        assert!(seen.insert(permute(x)));
    }
}

#[test]
fn next_yields_distinct_values_on_a_long_prefix() {
    // A scaled-down stand-in for the exhaustive full-cycle run: any repeat
    // within a prefix would already break the no-repeat guarantee.
    let mut r = RandomSequenceOfUniqueU32::new(1, 3);
    let mut seen = HashSet::new();
    for _ in 0..1_000_000u32 {
        assert!(seen.insert(r.next()));
    }
}

#[test]
fn scramble_number_scenario() {
    let mut g = RandomSequenceOfUniqueU32::new(42, 127);
    let a = g.scramble_number(0);
    let b = g.scramble_number(1);
    let c = g.scramble_number(2);
    let d = g.scramble_number(3);
    assert_ne!(a, b);
    assert_ne!(a, c);
    assert_ne!(a, d);
    assert_ne!(b, c);
    assert_ne!(b, d);
    assert_ne!(c, d);
    // Repeating the same calls on the same generator state returns the same
    // value each time.
    assert_eq!(g.scramble_number(0), a);
    assert_eq!(g.scramble_number(1), b);
    assert_eq!(g.scramble_number(2), c);
    assert_eq!(g.scramble_number(3), d);
}

#[test]
fn scramble_number_has_no_duplicates_on_a_sample() {
    let g = RandomSequenceOfUniqueU32::new(9, 1000);
    let mut seen = HashSet::new();
    for x in 0u32..100_000 {
        assert!(seen.insert(g.scramble_number(x)));
    }
}

#[test]
fn next_then_reseed_scenario() {
    let mut g = RandomSequenceOfUniqueU32::new(0, 0);
    let first: Vec<u32> = (0..4).map(|_| g.next()).collect();
    assert!(first[0] != first[1]);
    assert!(first[0] != first[2]);
    assert!(first[0] != first[3]);
    assert!(first[1] != first[2]);
    assert!(first[1] != first[3]);
    assert!(first[2] != first[3]);

    g.re_seed(0, 0);
    let second: Vec<u32> = (0..4).map(|_| g.next()).collect();
    assert_eq!(first, second);
}

#[test]
fn same_seed_pair_gives_identical_sequences() {
    let mut g1 = RandomSequenceOfUniqueU32::new(7, 9);
    let mut g2 = RandomSequenceOfUniqueU32::new(7, 9);
    assert_eq!(g1.current(), g2.current());
    for x in 0u32..100 {
        assert_eq!(g1.scramble_number(x), g2.scramble_number(x));
    }
    for _ in 0..1000 {
        assert_eq!(g1.next(), g2.next());
    }
}

#[test]
fn reseed_behaves_like_a_fresh_generator() {
    let mut reseeded = RandomSequenceOfUniqueU32::new(1, 2);
    for _ in 0..10 {
        reseeded.next();
    }
    reseeded.re_seed(5, 6);

    let mut fresh = RandomSequenceOfUniqueU32::new(5, 6);
    assert_eq!(reseeded.current(), fresh.current());
    for x in 0u32..100 {
        assert_eq!(reseeded.scramble_number(x), fresh.scramble_number(x));
    }
    for _ in 0..1000 {
        assert_eq!(reseeded.next(), fresh.next());
    }
}

// A scaled-down analogue of the construction: the same permute / add / xor /
// permute pipeline over 16-bit words, with the largest prime congruent to
// 3 mod 4 below 2^16.  At this size a full cycle is cheap to check
// exhaustively, which exercises the no-repeat guarantee end to end.
const SMALL_PRIME: u16 = 65519;

fn small_permute(x: u16) -> u16 {
    const HALF: u16 = SMALL_PRIME / 2;
    if x >= SMALL_PRIME {
        return x;
    }
    let x32 = x as u32;
    let r = ((x32 * x32) % (SMALL_PRIME as u32)) as u16;
    if x <= HALF {
        r
    } else {
        SMALL_PRIME - r
    }
}

#[test]
fn scaled_down_permute_is_bijective() {
    let mut seen = vec![false; 65536];
    for x in 0u32..65536 {
        let y = small_permute(x as u16) as usize;
        assert!(!seen[y]);
        seen[y] = true;
    }
}

#[test]
fn scaled_down_full_cycle_has_no_repeat() {
    let offset = small_permute(small_permute(12345).wrapping_add(0x0161));
    let mut seen = vec![false; 65536];
    for i in 0u32..65536 {
        let mixed = small_permute(i as u16).wrapping_add(offset) ^ 0x3635;
        let out = small_permute(mixed) as usize;
        assert!(!seen[out]);
        seen[out] = true;
    }
}

#[test]
fn current_is_a_pure_read() {
    let mut g = RandomSequenceOfUniqueU32::new(3, 4);
    let v = g.current();
    assert_eq!(g.current(), v);
    let n = g.next();
    assert_ne!(n, v);
    assert_eq!(g.current(), n);
}
