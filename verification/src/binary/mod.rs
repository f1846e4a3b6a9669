//! Operations on the bits of machine words.

use vstd::prelude::*;

pub mod pbox6;

verus! {

/// `value` rotated left by `count` places, taken modulo 32.
pub open spec fn rotl32_spec(value: u32, count: u32) -> u32 {
    let k = count % 32;
    if k == 0 {
        value
    } else {
        (value << k) | (value >> ((32 - k) as u32))
    }
}

/// `value` rotated right by `count` places, taken modulo 32.
pub open spec fn rotr32_spec(value: u32, count: u32) -> u32 {
    let k = count % 32;
    if k == 0 {
        value
    } else {
        (value >> k) | (value << ((32 - k) as u32))
    }
}

/// Rotates the 32 bits of `value` to the left: the bits that leave at the
/// top come back in at the bottom.
pub fn rotl32(value: u32, count: u32) -> (res: u32)
    ensures
        res == rotl32_spec(value, count),
{
    let k = count % 32;
    if k == 0 {
        value
    } else {
        (value << k) | (value >> (32 - k))
    }
}

/// Rotates the 32 bits of `value` to the right: the bits that leave at the
/// bottom come back in at the top.
pub fn rotr32(value: u32, count: u32) -> (res: u32)
    ensures
        res == rotr32_spec(value, count),
{
    let k = count % 32;
    if k == 0 {
        value
    } else {
        (value >> k) | (value << (32 - k))
    }
}

/// Rotating left and then right by the same count gives the value back.
pub proof fn lemma_rotate_round_trip(value: u32, count: u32)
    ensures
        rotr32_spec(rotl32_spec(value, count), count) == value,
        rotl32_spec(rotr32_spec(value, count), count) == value,
{
    let k = count % 32;
    if k != 0 {
        let j = (32 - k) as u32;
        assert(((((value << k) | (value >> j)) >> k) | (((value << k) | (value >> j)) << j))
            == value) by (bit_vector)
            requires
                0 < k < 32,
                j == 32 - k,
        ;
        assert(((((value >> k) | (value << j)) << k) | (((value >> k) | (value << j)) >> j))
            == value) by (bit_vector)
            requires
                0 < k < 32,
                j == 32 - k,
        ;
    }
}

/// Bitwise exclusive or.
pub fn xor(a: u128, b: u128) -> (res: u128)
    ensures
        res == a ^ b,
{
    a ^ b
}

} // verus!
