//! A Feistel network of three rounds on 32-bit blocks, with a round
//! function that substitutes the inner nibbles and mirrors the outer ones.

use vstd::prelude::*;

verus! {

/// Number of rounds.
pub const ROUNDS: u8 = 3;

/// The substitution box: sixteen nibbles.
pub open spec fn sbox_table() -> Seq<u8> {
    seq![0x4u8, 3, 9, 0xa, 0xb, 2, 0xe, 1, 0xd, 0xc, 8, 6, 7, 5, 0, 0xf]
}

/// A nibble with its four bits in reverse order.
pub open spec fn mirror_nibble(x: u8) -> u8 {
    ((x & 0b1000) >> 3) | ((x & 0b0100) >> 1) | ((x & 0b0010) << 1) | ((x & 0b0001) << 3)
}

/// The round function: of the four nibbles of `input`, the inner two go
/// through the substitution box, the outer two are mirrored and change
/// places, and the key is added by exclusive or.
pub open spec fn inner_spec(input: u16, key: u16) -> u16 {
    let b0 = ((input & 0xf000) >> 12) as u8;
    let b1 = ((input & 0x0f00) >> 8) as u8;
    let b2 = ((input & 0x00f0) >> 4) as u8;
    let b3 = (input & 0x000f) as u8;
    (((mirror_nibble(b3) as u16) << 12) | ((sbox_table()[b1 as int] as u16) << 8) | ((
    sbox_table()[b2 as int] as u16) << 4) | (mirror_nibble(b0) as u16)) ^ key
}

/// One round of the network on the halves `(left, right)`.
pub open spec fn round_spec(halves: (u16, u16), key: u16) -> (u16, u16) {
    (halves.1, inner_spec(halves.1, key) ^ halves.0)
}

/// The upper half of a block.
pub open spec fn upper_half(block: u32) -> u16 {
    ((block & 0xffff0000) >> 16) as u16
}

/// The lower half of a block.
pub open spec fn lower_half(block: u32) -> u16 {
    (block & 0x0000ffff) as u16
}

/// The block made of two halves.
pub open spec fn join_halves(halves: (u16, u16)) -> u32 {
    ((halves.0 as u32) << 16) | (halves.1 as u32)
}

/// The encryption of a block under three round keys.
pub open spec fn encrypt_spec(plaintext: u32, keys: Seq<u16>) -> u32 {
    let start = (upper_half(plaintext), lower_half(plaintext));
    join_halves(round_spec(round_spec(round_spec(start, keys[0]), keys[1]), keys[2]))
}

/// The block with its halves exchanged.
pub open spec fn swap_halves(block: u32) -> u32 {
    join_halves((lower_half(block), upper_half(block)))
}

/// The decryption of a block: the encryption under the reversed keys,
/// between two exchanges of the halves.
pub open spec fn decrypt_spec(ciphertext: u32, keys: Seq<u16>) -> u32 {
    swap_halves(encrypt_spec(swap_halves(ciphertext), seq![keys[2], keys[1], keys[0]]))
}

/// Looks a nibble up in the substitution box.
fn sbox_lookup(index: u8) -> (res: u8)
    requires
        index <= 0xf,
    ensures
        res == sbox_table()[index as int],
        res <= 0xf,
{
    if index == 0 {
        0x4
    } else if index == 1 {
        3
    } else if index == 2 {
        9
    } else if index == 3 {
        0xa
    } else if index == 4 {
        0xb
    } else if index == 5 {
        2
    } else if index == 6 {
        0xe
    } else if index == 7 {
        1
    } else if index == 8 {
        0xd
    } else if index == 9 {
        0xc
    } else if index == 10 {
        8
    } else if index == 11 {
        6
    } else if index == 12 {
        7
    } else if index == 13 {
        5
    } else if index == 14 {
        0
    } else {
        0xf
    }
}

/// The round function of the network. `verbose` changes nothing.
pub fn inner(input: u16, key: u16, verbose: bool) -> (res: u16)
    ensures
        res == inner_spec(input, key),
{
    let b0: u8 = ((input & 0xf000) >> 12) as u8;
    let b1: u8 = ((input & 0x0f00) >> 8) as u8;
    let b2: u8 = ((input & 0x00f0) >> 4) as u8;
    let b3: u8 = (input & 0x000f) as u8;
    assert(((input & 0x0f00) >> 8) <= 0xf) by (bit_vector);
    assert(((input & 0x00f0) >> 4) <= 0xf) by (bit_vector);
    assert(((input & 0xf000) >> 12) <= 0xf) by (bit_vector);
    assert((input & 0x000f) <= 0xf) by (bit_vector);
    let s1 = sbox_lookup(b1);
    let s2 = sbox_lookup(b2);
    let m0: u8 = ((b0 & 0b1000) >> 3) | ((b0 & 0b0100) >> 1) | ((b0 & 0b0010) << 1) | ((b0
        & 0b0001) << 3);
    let m3: u8 = ((b3 & 0b1000) >> 3) | ((b3 & 0b0100) >> 1) | ((b3 & 0b0010) << 1) | ((b3
        & 0b0001) << 3);
    let result: u16 = ((m3 as u16) << 12) | ((s1 as u16) << 8) | ((s2 as u16) << 4) | (m0 as u16);
    result ^ key
}

/// The key schedule: the same three round keys, whatever the key.
pub fn key_scheduler(_key: u32) -> (res: Vec<u16>)
    ensures
        res@ == seq![0xdeadu16, 0xc0ff, 0xee5a],
{
    let mut keys: Vec<u16> = Vec::new();
    keys.push(0xdead);
    keys.push(0xc0ff);
    keys.push(0xee5a);
    assert(keys@ =~= seq![0xdeadu16, 0xc0ff, 0xee5a]);
    keys
}

/// Encrypts a block under exactly three round keys. `verbose` changes
/// nothing.
pub fn encrypt(plaintext: u32, keys: Vec<u16>, verbose: bool) -> (res: u32)
    requires
        keys@.len() == ROUNDS,
    ensures
        res == encrypt_spec(plaintext, keys@),
{
    let mut lef: u16 = ((plaintext & 0xffff0000) >> 16) as u16;
    let mut rig: u16 = (plaintext & 0x0000ffff) as u16;
    let ghost start = (lef, rig);
    let mut i: usize = 0;
    while i < 3
        invariant
            i <= 3,
            keys@.len() == 3,
            i == 0 ==> (lef, rig) == start,
            i == 1 ==> (lef, rig) == round_spec(start, keys@[0]),
            i == 2 ==> (lef, rig) == round_spec(round_spec(start, keys@[0]), keys@[1]),
            i == 3 ==> (lef, rig) == round_spec(
                round_spec(round_spec(start, keys@[0]), keys@[1]),
                keys@[2],
            ),
        decreases 3 - i,
    {
        let tmp = rig;
        rig = inner(rig, keys[i], false) ^ lef;
        lef = tmp;
        i = i + 1;
    }
    ((lef as u32) << 16) | (rig as u32)
}

/// Decrypts a block under the three round keys that encrypted it.
/// `verbose` changes nothing.
pub fn decrypt(ciphertext: u32, keys: Vec<u16>, verbose: bool) -> (res: u32)
    requires
        keys@.len() == ROUNDS,
    ensures
        res == decrypt_spec(ciphertext, keys@),
{
    let lef: u16 = ((ciphertext & 0xffff0000) >> 16) as u16;
    let rig: u16 = (ciphertext & 0x0000ffff) as u16;
    let swapped: u32 = ((rig as u32) << 16) | (lef as u32);
    let mut reversed: Vec<u16> = Vec::new();
    reversed.push(keys[2]);
    reversed.push(keys[1]);
    reversed.push(keys[0]);
    assert(reversed@ =~= seq![keys@[2], keys@[1], keys@[0]]);
    let block = encrypt(swapped, reversed, verbose);
    let lef: u16 = ((block & 0xffff0000) >> 16) as u16;
    let rig: u16 = (block & 0x0000ffff) as u16;
    ((rig as u32) << 16) | (lef as u32)
}

/// The value of the substitution box at `index`, for an index below 0xf.
pub fn sbox(index: u8) -> (res: u8)
    requires
        index < 0xf,
    ensures
        res == sbox_table()[index as int],
{
    sbox_lookup(index)
}

/// Splitting a block made of two halves gives the halves back.
pub proof fn lemma_split_join(left: u16, right: u16)
    ensures
        upper_half(join_halves((left, right))) == left,
        lower_half(join_halves((left, right))) == right,
{
    assert((((((left as u32) << 16) | (right as u32)) & 0xffff0000) >> 16) as u16 == left)
        by (bit_vector);
    assert(((((left as u32) << 16) | (right as u32)) & 0x0000ffff) as u16 == right)
        by (bit_vector);
}

/// Joining the halves of a block gives the block back.
pub proof fn lemma_join_split(block: u32)
    ensures
        join_halves((upper_half(block), lower_half(block))) == block,
{
    assert((((((block & 0xffff0000) >> 16) as u16) as u32) << 16) | (((block & 0x0000ffff) as u16)
        as u32) == block) by (bit_vector);
}

/// A round is undone by the same round on the exchanged halves.
pub proof fn lemma_round_undone(left: u16, right: u16, key: u16)
    ensures
        ({
            let after = round_spec((left, right), key);
            round_spec((after.1, after.0), key) == (right, left)
        }),
{
    let f = inner_spec(right, key);
    assert((f ^ (f ^ left)) == left) by (bit_vector);
}

/// Decryption undoes encryption under the same keys.
pub proof fn lemma_decrypt_encrypt(plaintext: u32, keys: Seq<u16>)
    requires
        keys.len() == 3,
    ensures
        decrypt_spec(encrypt_spec(plaintext, keys), keys) == plaintext,
{
    let start = (upper_half(plaintext), lower_half(plaintext));
    let s1 = round_spec(start, keys[0]);
    let s2 = round_spec(s1, keys[1]);
    let s3 = round_spec(s2, keys[2]);
    let reversed = seq![keys[2], keys[1], keys[0]];
    lemma_split_join(s3.0, s3.1);
    lemma_split_join(s3.1, s3.0);
    lemma_round_undone(s2.0, s2.1, keys[2]);
    lemma_round_undone(s1.0, s1.1, keys[1]);
    lemma_round_undone(start.0, start.1, keys[0]);
    let back = round_spec(round_spec(round_spec((s3.1, s3.0), keys[2]), keys[1]), keys[0]);
    assert(back == (start.1, start.0));
    lemma_split_join(start.1, start.0);
    lemma_split_join(start.0, start.1);
    lemma_join_split(plaintext);
}

} // verus!
