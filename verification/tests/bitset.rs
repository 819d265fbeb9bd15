use algolib::bitset::BitSet;

#[test]
fn bitset_test() {
    let mut a: Vec<u8> = vec![0b00010001u8, 0b00010011u8];
    assert_eq!(a.count_ones(), 5);
    let pos: Vec<usize> = a.one_positions();
    assert_eq!(pos, [0, 4, 8, 9, 12]);
    assert_eq!(a.display_bits(), "1000100011001000");
    assert_eq!(a.set_bit(0, true), true);
    assert_eq!(a.set_bit(1, true), false);
    assert_eq!(a.set_bit(10, true), false);
    assert_eq!(a.set_bit(0, false), true);
    assert_eq!(a.flip_bit(2), false);
    assert_eq!(a.display_bits(), "0110100011101000");
}

#[test]
fn bitset_bulk_ops() {
    let mut a: Vec<u8> = vec![0b1100u8];
    let b: Vec<u8> = vec![0b1010u8];
    a.and(&b);
    assert_eq!(a, vec![0b1000u8]);
    a.or(&b);
    assert_eq!(a, vec![0b1010u8]);
    a.xor(&b);
    assert_eq!(a, vec![0u8]);
    a.not();
    assert_eq!(a, vec![0xffu8]);
    a.difference(&b);
    assert_eq!(a, vec![0xf5u8]);
    assert_eq!(a.len_bits(), 8);
    assert_eq!(a.bit(1), false);
    assert_eq!(a.bit(2), true);
    let mut c: Vec<u8> = vec![0b0000_0001u8, 0b1000_0000u8];
    c.reverse_bits();
    assert_eq!(c, vec![0b0000_0001u8, 0b1000_0000u8]);
}
