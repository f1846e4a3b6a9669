use plexcryptool::binary::pbox6::pbox6;
use plexcryptool::binary::{rotl32, rotr32, xor};

#[test]
fn test_pbox6() {
    assert_eq!(pbox6(0b11110000), 0b10110100);
}

#[test]
fn pbox6_moves_the_lowest_bit_to_the_top() {
    assert_eq!(pbox6(0b0000_0001), 0b1000_0000);
    assert_eq!(pbox6(0b0000_0100), 0b0000_0001);
    assert_eq!(pbox6(0b1010_1010), 0b1010_1010);
    assert_eq!(pbox6(0), 0);
}

#[test]
fn rotations_agree_with_the_machine() {
    for value in [0u32, 1, 0x8000_0000, 0x1234_5678, 0xffff_ffff, 0xdead_beef] {
        for count in [0u32, 1, 4, 31, 32, 33, 64, 100, u32::MAX] {
            assert_eq!(rotl32(value, count), value.rotate_left(count));
            assert_eq!(rotr32(value, count), value.rotate_right(count));
            assert_eq!(rotr32(rotl32(value, count), count), value);
        }
    }
    assert_eq!(rotl32(0x8000_0001, 1), 0x0000_0003);
    assert_eq!(rotr32(0x0000_0003, 1), 0x8000_0001);
}

#[test]
fn xor_is_bitwise() {
    assert_eq!(xor(0b1100, 0b1010), 0b0110);
    assert_eq!(xor(u128::MAX, u128::MAX), 0);
    assert_eq!(xor(u128::MAX, 0), u128::MAX);
}
