// A flat bit array with one bit per u32 value, for marking values already
// seen; the tests below exercise its indexing and idempotence.
const BIT_ARRAY_SIZE: usize = 0x20000000;

struct BitArray {
    data: Vec<u8>,
}

impl Default for BitArray {
    fn default() -> Self {
        Self { data: vec![0u8; BIT_ARRAY_SIZE] }
    }
}

impl BitArray {
    fn set_bit_if_not_already_set(&mut self, n: u32) -> bool {
        const BITS_PER_BYTE: u32 = 8;
        let array_index: usize = (n / BITS_PER_BYTE).try_into().unwrap();
        let array_sub_index = n % BITS_PER_BYTE;

        let already_set: bool = ((self.data[array_index] >> array_sub_index) & 1) == 1;
        if already_set {
            return false;
        } else {
            self.data[array_index] |= 1 << array_sub_index;
            return true;
        }
    }

    fn get_element(&self, n: usize) -> u8 {
        return self.data[n];
    }
}

#[test]
fn test_set_bit() {
    let mut a = Box::new(BitArray::default());
    a.set_bit_if_not_already_set(0); // 0 bit in first byte
    a.set_bit_if_not_already_set(3); // 3 bit in first byte
    a.set_bit_if_not_already_set(8); // 0 bit in second byte
    a.set_bit_if_not_already_set(23); // 7 bit in third byte
    a.set_bit_if_not_already_set(0xFFFFFFFF); // last bit in array
    assert_eq!(a.get_element(0), 9); // 1 + 8 == 9
    assert_eq!(a.get_element(1), 1);
    assert_eq!(a.get_element(2), 128);
    assert_eq!(a.get_element(0x1FFFFFFF), 128);
}

#[test]
fn test_set_bit_if_not_set() {
    let mut a = Box::new(BitArray::default());
    assert_eq!(a.set_bit_if_not_already_set(3), true);
    assert_eq!(a.set_bit_if_not_already_set(3), false);
    assert_eq!(a.get_element(0), 8);
}
