//! A generator of 32-bit numbers that look random but never repeat: over a
//! full cycle of 2^32 draws every `u32` value appears exactly once.
//!
//! The heart of the crate is a bijective permutation of the `u32` range built
//! on squaring modulo the largest prime below 2^32.  A small stateful
//! generator composes that permutation with a wrapped addition of a
//! seed-derived offset and an XOR with a fixed constant; each of those steps
//! is itself a bijection, so the composition visits every 32-bit value
//! exactly once as the internal index sweeps its range.

use vstd::prelude::*;
use vstd::arithmetic::div_mod::{
    lemma_add_mod_noop, lemma_fundamental_div_mod, lemma_mod_division_less_than_divisor,
    lemma_mod_multiples_basic, lemma_mod_multiples_vanish, lemma_small_mod, lemma_sub_mod_noop,
};

verus! {

/// The largest prime below 2^32; exactly 5 less than 2^32.
pub const PRIME: u32 = 4294967291;

/// `PRIME / 2`, rounded down: the boundary between the two branches of the
/// permutation.
pub const PRIME_HALF: u32 = PRIME / 2;

/// Decorrelates the index derived from the seed pair's first component.
pub const SHIFT_INDEX: u32 = 0x682f0161;

/// Decorrelates the offset derived from the seed pair's second component.
pub const SHIFT_OFFSET: u32 = 0x46790905;

/// Mixed into the output path between the two permutation applications.
pub const XOR_CONST: u32 = 0x5bf03635;

/// Addition on `u32` that wraps at 2^32.
pub open spec fn wrap_add32(a: u32, b: u32) -> u32 {
    ((a + b) % 0x1_0000_0000) as u32
}

/// The permutation of the full `u32` range: values at or above [`PRIME`] are
/// fixed points; below it, the square modulo [`PRIME`] is taken as is on the
/// lower half of the field and reflected to `PRIME - r` on the upper half.
pub open spec fn spec_permute(x: u32) -> u32 {
    if x >= PRIME {
        x
    } else {
        let r = ((x as int) * (x as int)) % (PRIME as int);
        if x <= PRIME_HALF {
            r as u32
        } else {
            (PRIME - r) as u32
        }
    }
}

/// The mixing step between the two permutation applications: wrapped addition
/// of the generator's offset, then XOR with [`XOR_CONST`].
pub open spec fn spec_mix(offset: u32, v: u32) -> u32 {
    wrap_add32(v, offset) ^ XOR_CONST
}

/// What the generator emits for a given offset and index: permute, mix,
/// permute again.
pub open spec fn spec_scramble(offset: u32, x: u32) -> u32 {
    spec_permute(spec_mix(offset, spec_permute(x)))
}

/// The index a freshly seeded generator starts from.
pub open spec fn index_from_seed(seed: u32) -> u32 {
    spec_permute(wrap_add32(spec_permute(seed), SHIFT_INDEX))
}

/// The offset a freshly seeded generator uses until the next re-seed.
pub open spec fn offset_from_seed(seed: u32) -> u32 {
    spec_permute(wrap_add32(spec_permute(seed), SHIFT_OFFSET))
}

/// Bijective permutation of the full `u32` range, based on quadratic residues
/// modulo [`PRIME`].
pub fn permute(x: u32) -> (r: u32)
    ensures
        r == spec_permute(x),
{
    if x >= PRIME {
        // The 5 integers outside the field map to themselves.
        return x;
    }
    let x64: u64 = x as u64;
    proof {
        assert(x64 * x64 <= 0xffff_ffff_ffff_ffff) by (nonlinear_arith)
            requires
                x64 <= 0xffff_ffff,
        ;
    }
    let remainder64: u64 = (x64 * x64) % (PRIME as u64);
    let remainder: u32 = remainder64 as u32;
    if x <= PRIME_HALF {
        remainder
    } else {
        PRIME - remainder
    }
}

/// A stateful source of non-repeating 32-bit values.
///
/// The state is two words: a wrapping `index`, advanced by one per draw, and a
/// fixed `offset` derived from the seed pair.  For a fixed offset the output
/// is a pure function of the index.
pub struct RandomSequenceOfUniqueU32 {
    index: u32,
    offset: u32,
}

impl RandomSequenceOfUniqueU32 {
    /// The current index, as contracts see it.
    pub closed spec fn idx(self) -> u32 {
        self.index
    }

    /// The seed-derived offset, as contracts see it.
    pub closed spec fn off(self) -> u32 {
        self.offset
    }

    /// Builds a generator from any seed pair; both state words are derived
    /// through the permutation so that nearby seeds land far apart.
    pub fn new(seed_base: u32, seed_offset: u32) -> (s: Self)
        ensures
            s.idx() == index_from_seed(seed_base),
            s.off() == offset_from_seed(seed_offset),
    {
        let index = permute(permute(seed_base).wrapping_add(SHIFT_INDEX));
        let offset = permute(permute(seed_offset).wrapping_add(SHIFT_OFFSET));
        Self { index, offset }
    }

    /// The value for the current index; a pure read that does not advance the
    /// generator.
    pub fn current(&self) -> (r: u32)
        ensures
            r == spec_scramble(self.off(), self.idx()),
    {
        permute((permute(self.index).wrapping_add(self.offset)) ^ XOR_CONST)
    }

    /// Advances the index by one (wrapping) and returns the value there.
    pub fn next(&mut self) -> (r: u32)
        ensures
            final(self).off() == old(self).off(),
            final(self).idx() == wrap_add32(old(self).idx(), 1),
            r == spec_scramble(old(self).off(), final(self).idx()),
    {
        self.index = self.index.wrapping_add(1);
        self.current()
    }

    /// Discards the state and derives it afresh from the new seed pair,
    /// exactly as [`Self::new`] does.
    pub fn re_seed(&mut self, seed_base: u32, seed_offset: u32)
        ensures
            final(self).idx() == index_from_seed(seed_base),
            final(self).off() == offset_from_seed(seed_offset),
    {
        self.index = permute(permute(seed_base).wrapping_add(SHIFT_INDEX));
        self.offset = permute(permute(seed_offset).wrapping_add(SHIFT_OFFSET));
    }

    /// Maps an arbitrary caller-supplied value through the same bijection the
    /// generator applies to its index, using the current offset; the index is
    /// neither read nor changed.
    pub fn scramble_number(&self, x: u32) -> (r: u32)
        ensures
            r == spec_scramble(self.off(), x),
    {
        permute((permute(x).wrapping_add(self.offset)) ^ XOR_CONST)
    }
}

/// Holds when `p` has no divisor strictly between 1 and itself.
pub open spec fn is_prime(p: int) -> bool {
    p >= 2 && forall|d: int| 2 <= d < p ==> #[trigger] (p % d) != 0
}

/// No integer in `[2, 65536)` divides [`PRIME`].  Together with
/// `65536 * 65536 > PRIME` this is exactly what primality of [`PRIME`]
/// reduces to by trial division.
#[verifier::rlimit(100)]
proof fn lemma_prime_has_no_small_factor()
    by (bit_vector)
    ensures
        forall|d: u32| 2 <= d < 65536 ==> #[trigger] (PRIME % d) != 0,
{
}

/// [`PRIME`] is prime: a composite below 2^32 would have a factor below
/// 65536, and trial division rules those out.
proof fn lemma_prime_is_prime()
    ensures
        is_prime(PRIME as int),
{
    lemma_prime_has_no_small_factor();
    let p = PRIME as int;
    assert forall|d: int| 2 <= d < p implies #[trigger] (p % d) != 0 by {
        if p % d == 0 {
            lemma_fundamental_div_mod(p, d);
            let q = p / d;
            assert(p == d * q);
            assert(q >= 2) by (nonlinear_arith)
                requires
                    p == d * q,
                    2 <= d < p,
                    p >= 2,
            ;
            if d < 65536 {
                assert(PRIME % (d as u32) != 0);
            } else {
                assert(q < 65536) by (nonlinear_arith)
                    requires
                        p == d * q,
                        d >= 65536,
                        q >= 2,
                        p < 0x1_0000_0000,
                ;
                lemma_mod_multiples_basic(d, q);
                assert(p % q == 0);
                assert(PRIME % (q as u32) != 0);
            }
        }
    }
}

/// Euclid's lemma in the form the collision argument needs: for a prime `p`,
/// a product of two factors strictly between 0 and `p` is never a multiple
/// of `p`.  Proved by descent on the smaller factor.
proof fn lemma_prime_no_factor_product(p: int, a: int, b: int)
    requires
        is_prime(p),
        0 < a < p,
        0 < b < p,
    ensures
        (a * b) % p != 0,
    decreases a,
{
    if (a * b) % p == 0 {
        if a == 1 {
            assert(a * b == b) by (nonlinear_arith)
                requires
                    a == 1,
            ;
            lemma_small_mod(b as nat, p as nat);
        } else {
            assert(p % a != 0);
            lemma_fundamental_div_mod(p, a);
            lemma_mod_division_less_than_divisor(p, a);
            let q = p / a;
            let r = p % a;
            let k = (a * b) / p;
            lemma_fundamental_div_mod(a * b, p);
            assert(r * b == p * (b - q * k)) by (nonlinear_arith)
                requires
                    p == a * q + r,
                    a * b == p * k,
            ;
            lemma_mod_multiples_basic(b - q * k, p);
            assert((b - q * k) * p == p * (b - q * k)) by (nonlinear_arith);
            lemma_prime_no_factor_product(p, r, b);
        }
    }
}

/// A nonzero element of the field has a nonzero square modulo [`PRIME`].
proof fn lemma_square_mod_nonzero(x: u32)
    requires
        0 < x < PRIME,
    ensures
        ((x as int) * (x as int)) % (PRIME as int) != 0,
{
    let p = PRIME as int;
    let xi = x as int;
    if (xi * xi) % p == 0 {
        lemma_prime_is_prime();
        lemma_prime_no_factor_product(p, xi, xi);
    }
}

/// Two distinct field elements on the same side of [`PRIME_HALF`] have
/// distinct squares modulo [`PRIME`]: their difference and their sum, the
/// latter reduced once if needed, are nonzero factors below the prime, and
/// Euclid's lemma keeps their product off the multiples of the prime.
proof fn lemma_square_mod_injective_same_side(x: u32, y: u32)
    requires
        x < y < PRIME,
        y <= PRIME_HALF || PRIME_HALF < x,
    ensures
        ((x as int) * (x as int)) % (PRIME as int) != ((y as int) * (y as int)) % (PRIME as int),
{
    let p = PRIME as int;
    let xi = x as int;
    let yi = y as int;
    if (xi * xi) % p == (yi * yi) % p {
        lemma_prime_is_prime();
        lemma_sub_mod_noop(yi * yi, xi * xi, p);
        let d = yi - xi;
        let s = yi + xi;
        assert(yi * yi - xi * xi == d * s) by (nonlinear_arith)
            requires
                d == yi - xi,
                s == yi + xi,
        ;
        assert((d * s) % p == 0);
        if s < p {
            lemma_prime_no_factor_product(p, d, s);
        } else {
            // Both inputs lie above PRIME_HALF, so p < s < 2p: reduce the sum
            // once and the same argument applies.
            lemma_mod_multiples_vanish(-d, d * s, p);
            assert(p * -d + d * s == d * (s - p)) by (nonlinear_arith);
            assert((d * (s - p)) % p == 0);
            lemma_prime_no_factor_product(p, d, s - p);
        }
    }
}

/// A square leaves remainder 0 or 1 modulo 4.
proof fn lemma_square_mod_four(x: int)
    ensures
        (x * x) % 4 == 0 || (x * x) % 4 == 1,
{
    let q = x / 2;
    let b = x % 2;
    lemma_fundamental_div_mod(x, 2);
    assert(x * x == 4 * (q * q + q * b) + b * b) by (nonlinear_arith)
        requires
            x == 2 * q + b,
    ;
    lemma_mod_multiples_vanish(q * q + q * b, b * b, 4);
    if b == 0 {
        assert(b * b == 0);
    } else {
        assert(b == 1);
        assert(b * b == 1);
    }
}

/// A sum of two squares is never 3 modulo 4.
proof fn lemma_sum_of_two_squares_mod_four(x: int, y: int, p: int)
    requires
        p == x * x + y * y,
    ensures
        p % 4 != 3,
{
    lemma_square_mod_four(x);
    lemma_square_mod_four(y);
    lemma_add_mod_noop(x * x, y * y, 4);
}

/// Splits `v` into a multiple of `m` plus a remainder of least absolute
/// value, at most `m / 2` in magnitude.
proof fn lemma_recenter(v: int, m: int) -> (r: (int, int))
    requires
        1 <= m,
    ensures
        v == m * r.0 + r.1,
        -m < 2 * r.1 <= m,
{
    lemma_fundamental_div_mod(v, m);
    lemma_mod_division_less_than_divisor(v, m);
    let q = v / m;
    let c0 = v % m;
    if 2 * c0 > m {
        assert(m * (q + 1) == m * q + m) by (nonlinear_arith);
        (q + 1, c0 - m)
    } else {
        (q, c0)
    }
}

/// Fermat's descent: a prime that is 3 modulo 4 never divides a sum of two
/// squares `m * p` with multiplier `1 <= m < p`.  A putative representation
/// yields one with a smaller multiplier, down to `m == 1`, where a sum of
/// two squares would have to be 3 modulo 4.
proof fn lemma_descent(p: int, m: int, x: int, y: int)
    requires
        is_prime(p),
        p % 4 == 3,
        1 <= m < p,
    ensures
        x * x + y * y != m * p,
    decreases m,
{
    if x * x + y * y == m * p {
        if m == 1 {
            assert(p == x * x + y * y);
            lemma_sum_of_two_squares_mod_four(x, y, p);
        } else {
            let re_x = lemma_recenter(x, m);
            let re_y = lemma_recenter(y, m);
            let ax = re_x.0;
            let c = re_x.1;
            let ay = re_y.0;
            let d = re_y.1;
            let a1 = x * ax + y * ay;
            let b1 = ax * ax + ay * ay;
            let r = p - 2 * a1 + m * b1;
            let u = m * ax;
            let v = m * ay;
            assert(c * c == x * x - 2 * (x * u) + u * u) by (nonlinear_arith)
                requires
                    c == x - u,
            ;
            assert(d * d == y * y - 2 * (y * v) + v * v) by (nonlinear_arith)
                requires
                    d == y - v,
            ;
            assert(x * u + y * v == m * a1) by (nonlinear_arith)
                requires
                    u == m * ax,
                    v == m * ay,
                    a1 == x * ax + y * ay,
            ;
            assert(u * u == m * (m * (ax * ax))) by (nonlinear_arith)
                requires
                    u == m * ax,
            ;
            assert(v * v == m * (m * (ay * ay))) by (nonlinear_arith)
                requires
                    v == m * ay,
            ;
            let w1 = ax * ax;
            let w2 = ay * ay;
            assert(m * (m * w1) + m * (m * w2) == m * (m * (w1 + w2))) by (nonlinear_arith);
            assert(c * c + d * d == x * x + y * y - 2 * (m * a1) + m * (m * b1));
            let s1 = m * b1;
            assert(m * p - 2 * (m * a1) + m * s1 == m * (p - 2 * a1 + s1)) by (nonlinear_arith);
            assert(c * c + d * d == m * r);
            assert(4 * (c * c) <= m * m) by (nonlinear_arith)
                requires
                    -m < 2 * c <= m,
            ;
            assert(4 * (d * d) <= m * m) by (nonlinear_arith)
                requires
                    -m < 2 * d <= m,
            ;
            assert(0 <= r && 2 * r <= m) by (nonlinear_arith)
                requires
                    c * c + d * d == m * r,
                    4 * (c * c) <= m * m,
                    4 * (d * d) <= m * m,
                    m >= 2,
            ;
            if c == 0 && d == 0 {
                // Both coordinates are multiples of m, so m itself divides
                // the prime: impossible for 2 <= m < p.
                assert(p == m * (ax * ax + ay * ay)) by (nonlinear_arith)
                    requires
                        x == m * ax,
                        y == m * ay,
                        x * x + y * y == m * p,
                        m >= 2,
                ;
                lemma_mod_multiples_basic(ax * ax + ay * ay, m);
                assert((ax * ax + ay * ay) * m == m * (ax * ax + ay * ay)) by (nonlinear_arith);
                assert(p % m == 0);
            } else {
                assert(1 <= r) by (nonlinear_arith)
                    requires
                        c * c + d * d == m * r,
                        m >= 2,
                        0 <= r,
                        !(c == 0 && d == 0),
                ;
                let xx = ax * c + ay * d + r;
                let yy = ax * d - ay * c;
                assert(x * c + y * d == m * xx) by (nonlinear_arith)
                    requires
                        x == m * ax + c,
                        y == m * ay + d,
                        c * c + d * d == m * r,
                        xx == ax * c + ay * d + r,
                ;
                assert(x * d - y * c == m * yy) by (nonlinear_arith)
                    requires
                        x == m * ax + c,
                        y == m * ay + d,
                        yy == ax * d - ay * c,
                ;
                // Brahmagupta's identity for products of sums of two squares,
                // assembled from small distributivity steps.
                let g = x * c;
                let h = y * d;
                let i2 = x * d;
                let j2 = y * c;
                let e = x * c + y * d;
                let f = x * d - y * c;
                assert(e * e == g * g + 2 * (g * h) + h * h) by (nonlinear_arith)
                    requires
                        e == g + h,
                ;
                assert(f * f == i2 * i2 - 2 * (i2 * j2) + j2 * j2) by (nonlinear_arith)
                    requires
                        f == i2 - j2,
                ;
                assert(g * h == i2 * j2) by (nonlinear_arith)
                    requires
                        g == x * c,
                        h == y * d,
                        i2 == x * d,
                        j2 == y * c,
                ;
                assert((x * x) * (c * c) == g * g) by (nonlinear_arith)
                    requires
                        g == x * c,
                ;
                assert((x * x) * (d * d) == i2 * i2) by (nonlinear_arith)
                    requires
                        i2 == x * d,
                ;
                assert((y * y) * (c * c) == j2 * j2) by (nonlinear_arith)
                    requires
                        j2 == y * c,
                ;
                assert((y * y) * (d * d) == h * h) by (nonlinear_arith)
                    requires
                        h == y * d,
                ;
                let pp = x * x;
                let qq = y * y;
                let rr = c * c;
                let ss = d * d;
                assert((pp + qq) * (rr + ss) == pp * rr + pp * ss + qq * rr + qq * ss)
                    by (nonlinear_arith);
                assert((x * x + y * y) * (c * c + d * d) == e * e + f * f);
                assert((m * p) * (m * r) == (m * xx) * (m * xx) + (m * yy) * (m * yy));
                assert(xx * xx + yy * yy == r * p) by (nonlinear_arith)
                    requires
                        (m * p) * (m * r) == (m * xx) * (m * xx) + (m * yy) * (m * yy),
                        m >= 2,
                ;
                lemma_descent(p, r, xx, yy);
            }
        }
    }
}

/// A sum of two squares of nonzero field elements is never a multiple of
/// [`PRIME`]: after recentring both elements into `(0, PRIME / 2]` the
/// multiplier is small enough for the descent to apply.  This is where the
/// primality and the residue 3 modulo 4 of [`PRIME`] both enter.
proof fn lemma_sum_of_squares_no_multiple(x: u32, y: u32)
    requires
        0 < x < PRIME,
        0 < y < PRIME,
    ensures
        ((x as int) * (x as int) + (y as int) * (y as int)) % (PRIME as int) != 0,
{
    let p = PRIME as int;
    let xi = x as int;
    let yi = y as int;
    if (xi * xi + yi * yi) % p == 0 {
        lemma_prime_is_prime();
        lemma_fundamental_div_mod(xi * xi + yi * yi, p);
        let k = (xi * xi + yi * yi) / p;
        let x1 = if 2 * xi > p { p - xi } else { xi };
        let k1 = if 2 * xi > p { k + p - 2 * xi } else { k };
        if 2 * xi > p {
            assert(x1 * x1 == xi * xi + p * (p - 2 * xi)) by (nonlinear_arith)
                requires
                    x1 == p - xi,
            ;
            assert(p * k + p * (p - 2 * xi) == p * (k + p - 2 * xi)) by (nonlinear_arith);
        }
        assert(x1 * x1 + yi * yi == p * k1);
        let y1 = if 2 * yi > p { p - yi } else { yi };
        let k2 = if 2 * yi > p { k1 + p - 2 * yi } else { k1 };
        if 2 * yi > p {
            assert(y1 * y1 == yi * yi + p * (p - 2 * yi)) by (nonlinear_arith)
                requires
                    y1 == p - yi,
            ;
            assert(p * k1 + p * (p - 2 * yi) == p * (k1 + p - 2 * yi)) by (nonlinear_arith);
        }
        assert(x1 * x1 + y1 * y1 == p * k2);
        assert(4 * (x1 * x1) <= p * p) by (nonlinear_arith)
            requires
                0 < 2 * x1 <= p,
        ;
        assert(4 * (y1 * y1) <= p * p) by (nonlinear_arith)
            requires
                0 < 2 * y1 <= p,
        ;
        assert(1 <= k2 && 2 * k2 <= p) by (nonlinear_arith)
            requires
                x1 * x1 + y1 * y1 == p * k2,
                4 * (x1 * x1) <= p * p,
                4 * (y1 * y1) <= p * p,
                p >= 2,
                1 <= x1,
                1 <= y1,
        ;
        assert(p * k2 == k2 * p) by (nonlinear_arith);
        lemma_descent(p, k2, x1, y1);
    }
}

/// Law (injectivity): the permutation never sends two distinct inputs to the
/// same output.  On a finite domain this makes it a bijection of the `u32`
/// range: iterating it over the whole domain repeats no output.
pub proof fn lemma_permute_injective(x: u32, y: u32)
    requires
        x != y,
    ensures
        spec_permute(x) != spec_permute(y),
{
    let p = PRIME as int;
    if spec_permute(x) == spec_permute(y) {
        if x >= PRIME && y >= PRIME {
            assert(false);
        } else if x >= PRIME || y >= PRIME {
            // One input is a fixed point, so the output is at least PRIME;
            // the other input's output lies inside the field.
            let inner: u32 = if x >= PRIME { y } else { x };
            lemma_mod_division_less_than_divisor((inner as int) * (inner as int), p);
            if inner > PRIME_HALF {
                lemma_square_mod_nonzero(inner);
            }
            assert(false);
        } else {
            let lo: u32 = if x < y { x } else { y };
            let hi: u32 = if x < y { y } else { x };
            if hi <= PRIME_HALF || PRIME_HALF < lo {
                // Both inputs on one side of PRIME_HALF: their squares, and
                // hence the outputs, differ.
                lemma_square_mod_injective_same_side(lo, hi);
            } else {
                // One input on each side: equal outputs would make the two
                // squares sum to exactly the prime's multiple.
                let li = lo as int;
                let hi_i = hi as int;
                lemma_mod_division_less_than_divisor(li * li, p);
                lemma_mod_division_less_than_divisor(hi_i * hi_i, p);
                let rl = (li * li) % p;
                let rh = (hi_i * hi_i) % p;
                assert(spec_permute(lo) == rl as u32);
                assert(spec_permute(hi) == (p - rh) as u32);
                assert(rl == p - rh);
                if lo == 0 {
                    assert(li * li == 0) by (nonlinear_arith)
                        requires
                            li == 0,
                    ;
                    assert(rl == 0);
                    assert(false);
                } else {
                    lemma_add_mod_noop(li * li, hi_i * hi_i, p);
                    lemma_mod_multiples_basic(1, p);
                    assert((li * li + hi_i * hi_i) % p == 0);
                    lemma_sum_of_squares_no_multiple(lo, hi);
                    assert(false);
                }
            }
            assert(false);
        }
    }
}

/// Law (range preservation): the permutation maps the field into the field.
/// With the five fixed points above it, the domain splits into two regions,
/// each mapped into itself.
pub proof fn lemma_permute_preserves_field(x: u32)
    requires
        x < PRIME,
    ensures
        spec_permute(x) < PRIME,
{
    lemma_mod_division_less_than_divisor((x as int) * (x as int), PRIME as int);
    if x > PRIME_HALF {
        lemma_square_mod_nonzero(x);
    }
}

/// Law (fixed points): every input at or above [`PRIME`] is returned
/// unchanged by the permutation.
pub proof fn lemma_permute_fixed_points(x: u32)
    requires
        x >= PRIME,
    ensures
        spec_permute(x) == x,
{
}

/// Law (the mixing step is injective): for a fixed offset, wrapped addition
/// of the offset followed by XOR with [`XOR_CONST`] never identifies two
/// distinct values.
pub proof fn lemma_mix_injective(offset: u32, v1: u32, v2: u32)
    requires
        v1 != v2,
    ensures
        spec_mix(offset, v1) != spec_mix(offset, v2),
{
    assert(spec_mix(offset, v1) != spec_mix(offset, v2)) by (bit_vector)
        requires
            v1 != v2,
    ;
}

/// Law (scramble injectivity): for a fixed offset the composed output map
/// of the generator is injective, so as the index sweeps all 2^32 values no
/// output repeats: the no-repeat guarantee over a full cycle.
pub proof fn lemma_scramble_injective(offset: u32, x1: u32, x2: u32)
    requires
        x1 != x2,
    ensures
        spec_scramble(offset, x1) != spec_scramble(offset, x2),
{
    lemma_permute_injective(x1, x2);
    lemma_mix_injective(offset, spec_permute(x1), spec_permute(x2));
    lemma_permute_injective(
        spec_mix(offset, spec_permute(x1)),
        spec_mix(offset, spec_permute(x2)),
    );
}

/// Law (determinism): what a generator emits and how its state advances are
/// functions of the two state words alone.  Two generators in the same state
/// return the same current value, scramble any input identically, and step
/// to the same successor state; with [`RandomSequenceOfUniqueU32::new`]'s
/// contract this makes whole output sequences equal for equal seed pairs.
pub proof fn lemma_deterministic_outputs(
    g1: RandomSequenceOfUniqueU32,
    g2: RandomSequenceOfUniqueU32,
    x: u32,
)
    requires
        g1.idx() == g2.idx(),
        g1.off() == g2.off(),
    ensures
        spec_scramble(g1.off(), g1.idx()) == spec_scramble(g2.off(), g2.idx()),
        spec_scramble(g1.off(), x) == spec_scramble(g2.off(), x),
        wrap_add32(g1.idx(), 1) == wrap_add32(g2.idx(), 1),
{
}

/// Law (re-seed equivalence): a generator freshly constructed from a seed
/// pair and one re-seeded with the same pair are in identical states, so by
/// [`lemma_deterministic_outputs`] every later call returns the same values
/// on both.
pub proof fn lemma_reseed_matches_fresh(
    reseeded: RandomSequenceOfUniqueU32,
    fresh: RandomSequenceOfUniqueU32,
    seed_base: u32,
    seed_offset: u32,
)
    requires
        reseeded.idx() == index_from_seed(seed_base),
        reseeded.off() == offset_from_seed(seed_offset),
        fresh.idx() == index_from_seed(seed_base),
        fresh.off() == offset_from_seed(seed_offset),
    ensures
        reseeded.idx() == fresh.idx(),
        reseeded.off() == fresh.off(),
{
}

} // verus!


