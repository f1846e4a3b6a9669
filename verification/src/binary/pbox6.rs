//! A permutation box on 8 bits.

use vstd::prelude::*;

verus! {

/// The permuted byte: the bits 1, 3, 5 and 7 stay, the bits 2, 4 and 6 move
/// two places down, and bit 0 moves to the top.
pub open spec fn pbox6_spec(n: u8) -> u8 {
    (n & 0b10101010) | ((n & 0b01010100) >> 2) | ((n & 1) << 7)
}

/// Permutes the bits of a byte.
pub fn pbox6(n: u8) -> (res: u8)
    ensures
        res == pbox6_spec(n),
{
    (n & 0b10101010) | ((n & 0b01010100) >> 2) | ((n & 1) << 7)
}

} // verus!
