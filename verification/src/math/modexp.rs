//! Modular exponentiation by square-and-multiply.

use vstd::prelude::*;
use vstd::arithmetic::power::{pow, lemma_pow0, lemma_pow1, lemma_pow_adds};
use vstd::arithmetic::div_mod::{lemma_mul_mod_noop_general, lemma_mod_twice, lemma_mod_bound};
use num_bigint::BigInt;
use crate::math::bigint::{
    big_value, trunc_rem, floor_mod, big_from_u128, big_to_u128, big_clone, big_eq,
    big_lt, big_mul, big_rem, big_div, big_pow,
};

verus! {

/// One step of square-and-multiply: square the accumulator, multiply by the
/// base where the exponent's bit is set, and reduce.
pub open spec fn square_multiply_step(acc: int, base: int, bit: bool, modulus: int) -> int {
    if bit {
        trunc_rem(acc * acc * base, modulus)
    } else {
        trunc_rem(acc * acc, modulus)
    }
}

/// What square-and-multiply computes for an exponent of at least 1: the
/// accumulator starts as the base, which stands for the exponent's leading
/// bit, and takes one step for each bit below it, the most significant first.
pub open spec fn square_multiply(base: int, exp: int, modulus: int) -> int
    decreases exp,
{
    if exp < 2 {
        base
    } else {
        square_multiply_step(square_multiply(base, exp / 2, modulus), base, exp % 2 == 1, modulus)
    }
}

/// Result of `modular_exponentiation`: 1 for the exponent 0, and the outcome
/// of square-and-multiply for any other.
pub open spec fn pow_mod(base: int, exp: int, modulus: int) -> int {
    if exp == 0 {
        1
    } else {
        square_multiply(base, exp, modulus)
    }
}

/// The binary digits of `n` below its leading digit, the least significant
/// first. Numbers below 2 have none.
pub open spec fn bits_below_top(n: int) -> Seq<bool>
    decreases n,
{
    if n < 2 {
        Seq::empty()
    } else {
        seq![n % 2 == 1] + bits_below_top(n / 2)
    }
}

/// Square-and-multiply over a given digit sequence, whose last digit is taken
/// first.
pub open spec fn run_instructions(base: int, modulus: int, bits: Seq<bool>) -> int
    decreases bits.len(),
{
    if bits.len() == 0 {
        base
    } else {
        square_multiply_step(
            run_instructions(base, modulus, bits.drop_first()),
            base,
            bits[0],
            modulus,
        )
    }
}

/// Running the digits of `exp` is square-and-multiply on `exp`.
pub proof fn lemma_run_is_square_multiply(base: int, exp: int, modulus: int)
    ensures
        run_instructions(base, modulus, bits_below_top(exp)) == square_multiply(base, exp, modulus),
    decreases exp,
{
    if exp >= 2 {
        lemma_run_is_square_multiply(base, exp / 2, modulus);
        let bits = bits_below_top(exp);
        assert(bits.drop_first() =~= bits_below_top(exp / 2));
    }
}

/// For a non-negative base and a positive modulus, square-and-multiply yields
/// a value congruent to the power, and from the exponent 2 on the reduced
/// power itself.
pub proof fn lemma_square_multiply_is_power(base: int, exp: int, modulus: int)
    requires
        base >= 0,
        exp >= 1,
        modulus > 0,
    ensures
        square_multiply(base, exp, modulus) >= 0,
        square_multiply(base, exp, modulus) % modulus == pow(base, exp as nat) % modulus,
        exp >= 2 ==> square_multiply(base, exp, modulus) == pow(base, exp as nat) % modulus,
    decreases exp,
{
    if exp < 2 {
        lemma_pow1(base);
    } else {
        let h = exp / 2;
        lemma_square_multiply_is_power(base, h, modulus);
        let r = square_multiply(base, h, modulus);
        let ph = pow(base, h as nat);
        lemma_pow_adds(base, h as nat, h as nat);
        assert(pow(base, (h + h) as nat) == ph * ph);
        lemma_mul_mod_noop_general(r, r, modulus);
        lemma_mul_mod_noop_general(ph, ph, modulus);
        assert((r * r) % modulus == (ph * ph) % modulus);
        assert(r * r >= 0) by (nonlinear_arith)
            requires
                r >= 0,
        ;
        if exp % 2 == 1 {
            assert(exp == h + h + 1);
            lemma_pow_adds(base, (h + h) as nat, 1);
            lemma_pow1(base);
            assert(pow(base, exp as nat) == ph * ph * base);
            lemma_mul_mod_noop_general(r * r, base, modulus);
            lemma_mul_mod_noop_general(ph * ph, base, modulus);
            assert(r * r * base >= 0) by (nonlinear_arith)
                requires
                    r * r >= 0,
                    base >= 0,
            ;
            lemma_mod_twice(r * r * base, modulus);
        } else {
            assert(exp == h + h);
            lemma_mod_twice(r * r, modulus);
        }
    }
}

/// The instruction list of square-and-multiply: the binary digits of `item`
/// below the leading one, the least significant first.
pub fn bigint_to_bools(item: BigInt) -> (result: Vec<bool>)
    ensures
        result@ == bits_below_top(big_value(item)),
{
    let ghost start = big_value(item);
    let mut result: Vec<bool> = Vec::new();
    let two = big_from_u128(2);
    let one = big_from_u128(1);
    let mut smaller = item;
    loop
        invariant
            big_value(two) == 2,
            big_value(one) == 1,
            result@ + bits_below_top(big_value(smaller)) == bits_below_top(start),
            big_value(smaller) >= 2 ==> start >= 2,
        ensures
            result@ == bits_below_top(start),
        decreases
            big_value(smaller),
    {
        if big_lt(&smaller, &two) {
            assert(bits_below_top(big_value(smaller)) =~= Seq::<bool>::empty());
            assert(result@ + Seq::<bool>::empty() =~= result@);
            break;
        }
        let ghost before = big_value(smaller);
        let ghost bits = result@;
        let modul = big_rem(&smaller, &two);
        smaller = big_div(&smaller, &two);
        let bit = big_eq(&modul, &one);
        result.push(bit);
        proof {
            assert(big_value(modul) == before % 2);
            assert(big_value(smaller) == before / 2);
            assert(bit == (before % 2 == 1));
            assert(bits_below_top(before) == seq![before % 2 == 1] + bits_below_top(before / 2));
            assert(result@ =~= bits + seq![bit]);
            assert(result@ + bits_below_top(before / 2) =~= bits + bits_below_top(before));
        }
    }
    result
}

/// Square and multiply: `base` to the power `exp` modulo `field`.
///
/// The exponent is read bit by bit from its leading digit down. The
/// accumulator starts as `base`, so an exponent below 2 other than 0 returns
/// `base` as it came, and the exponent 0 returns 1. From the exponent 2 on,
/// with a non-negative base and a positive modulus, the result is the power
/// reduced into `[0, field)`. `verbose` changes nothing.
pub fn modular_exponentiation(base: BigInt, exp: BigInt, field: BigInt, verbose: bool) -> (res:
    BigInt)
    requires
        big_value(exp) >= 2 ==> big_value(field) != 0,
    ensures
        big_value(res) == pow_mod(big_value(base), big_value(exp), big_value(field)),
        big_value(base) >= 0 && big_value(exp) >= 2 && big_value(field) > 0 ==> big_value(res)
            == pow(big_value(base), big_value(exp) as nat) % big_value(field),
{
    let zero = big_from_u128(0);
    if big_eq(&exp, &zero) {
        return big_from_u128(1);
    }
    let ghost b = big_value(base);
    let ghost e = big_value(exp);
    let ghost m = big_value(field);
    let instructions: Vec<bool> = bigint_to_bools(exp);
    let mut res = big_clone(&base);
    let mut index: usize = instructions.len();
    proof {
        assert(instructions@.subrange(index as int, instructions@.len() as int) =~= Seq::<
            bool,
        >::empty());
        if e < 2 {
            assert(instructions@.len() == 0);
        }
    }
    while index > 0
        invariant
            index <= instructions.len(),
            big_value(base) == b,
            big_value(field) == m,
            instructions.len() > 0 ==> m != 0,
            big_value(res) == run_instructions(
                b,
                m,
                instructions@.subrange(index as int, instructions@.len() as int),
            ),
        decreases index,
    {
        index = index - 1;
        let instr = instructions[index];
        let ghost acc = big_value(res);
        let ghost rest = instructions@.subrange(index as int, instructions@.len() as int);
        proof {
            assert(rest.drop_first() =~= instructions@.subrange(
                index as int + 1,
                instructions@.len() as int,
            ));
            assert(rest[0] == instr);
        }
        let square = big_pow(&res, 2);
        proof {
            lemma_pow_adds(acc, 1, 1);
            lemma_pow1(acc);
            assert(big_value(square) == acc * acc);
        }
        if !instr {
            res = big_rem(&square, &field);
        } else {
            let product = big_mul(&square, &base);
            res = big_rem(&product, &field);
        }
    }
    proof {
        assert(instructions@.subrange(0, instructions@.len() as int) =~= instructions@);
        lemma_run_is_square_multiply(b, e, m);
        if b >= 0 && e >= 2 && m > 0 {
            lemma_square_multiply_is_power(b, e, m);
        }
    }
    res
}

/// What `modular_exponentiation_wrapper` returns on machine integers: 1 for
/// the exponent 0, the base as it came for the exponent 1, and the power
/// reduced by the modulus from the exponent 2 on.
pub open spec fn reduced_power(base: nat, exp: nat, modulus: nat) -> nat {
    if exp == 0 {
        1
    } else if exp == 1 {
        base
    } else {
        (pow(base as int, exp) % (modulus as int)) as nat
    }
}

/// The power `base^exp`, reduced by the modulus.
pub open spec fn power_mod(base: nat, exp: nat, modulus: nat) -> nat {
    (pow(base as int, exp) % (modulus as int)) as nat
}

/// Reducing what `modular_exponentiation_wrapper` returns gives the reduced
/// power, for every exponent.
pub proof fn lemma_reduced_power(base: nat, exp: nat, modulus: nat)
    requires
        modulus >= 2,
    ensures
        reduced_power(base, exp, modulus) % modulus == power_mod(base, exp, modulus),
        power_mod(base, exp, modulus) < modulus,
{
    lemma_mod_bound(pow(base as int, exp), modulus as int);
    if exp == 0 {
        lemma_pow0(base as int);
    } else if exp == 1 {
        lemma_pow1(base as int);
    } else {
        lemma_mod_twice(pow(base as int, exp), modulus as int);
    }
}

/// `modular_exponentiation` on machine integers: the arguments are widened,
/// the power is computed without bound, and the result, which is 1, the base
/// or a residue of the modulus, fits again.
pub fn modular_exponentiation_wrapper(base: u128, exp: u128, field: u128, verbose: bool) -> (res:
    u128)
    requires
        exp >= 2 ==> field > 0,
    ensures
        res == reduced_power(base as nat, exp as nat, field as nat),
        exp >= 2 ==> res < field,
{
    let big_base = big_from_u128(base);
    let big_exp = big_from_u128(exp);
    let big_field = big_from_u128(field);
    let big_res = modular_exponentiation(big_base, big_exp, big_field, verbose);
    proof {
        if exp >= 2 {
            lemma_mod_bound(pow(base as int, exp as nat), field as int);
        }
    }
    let small = big_to_u128(&big_res);
    small.unwrap()
}

/// `BigInt::modpow`, which panics on a negative exponent and on a zero
/// modulus. Trusted: the power, reduced by the division that rounds toward
/// negative infinity, so that the result has the sign of the modulus.
#[verifier::external_body]
fn big_modpow(base: &BigInt, exp: &BigInt, modulus: &BigInt) -> (res: BigInt)
    requires
        big_value(*exp) >= 0,
        big_value(*modulus) != 0,
    ensures
        big_value(res) == floor_mod(
            pow(big_value(*base), big_value(*exp) as nat),
            big_value(*modulus),
        ),
{
    base.modpow(exp, modulus)
}

/// Modular exponentiation as `num_bigint` computes it: the reference that
/// `modular_exponentiation` is compared with.
pub fn calc_exp_in_field_lib(base: BigInt, exp: BigInt, field: BigInt) -> (res: BigInt)
    requires
        big_value(exp) >= 0,
        big_value(field) != 0,
    ensures
        big_value(res) == floor_mod(pow(big_value(base), big_value(exp) as nat), big_value(field)),
{
    big_modpow(&base, &exp, &field)
}

/// The binary digits of a byte, the most significant first, without
/// leading zeros; the byte 0 has the one digit 0.
pub open spec fn byte_digits(byte: nat) -> Seq<bool>
    decreases byte,
{
    if byte < 2 {
        seq![byte == 1]
    } else {
        byte_digits(byte / 2).push(byte % 2 == 1)
    }
}

/// The digits of all the bytes of a sequence, one byte after the other.
pub open spec fn bytes_digits(bytes: Seq<u8>) -> Seq<bool>
    decreases bytes.len(),
{
    if bytes.len() == 0 {
        Seq::empty()
    } else {
        bytes_digits(bytes.drop_last()) + byte_digits(bytes.last() as nat)
    }
}

/// Halving a divisor that is a power of two doubles the quotient, up to the
/// digit that comes in.
proof fn lemma_halve_divisor(byte: u8, divisor: u8)
    requires
        divisor == 128 || divisor == 64 || divisor == 32 || divisor == 16 || divisor == 8
            || divisor == 4 || divisor == 2,
    ensures
        (byte / ((divisor / 2) as u8)) / 2 == byte / divisor,
{
    if divisor == 128 {
        assert((byte / 64) / 2 == byte / 128);
    } else if divisor == 64 {
        assert((byte / 32) / 2 == byte / 64);
    } else if divisor == 32 {
        assert((byte / 16) / 2 == byte / 32);
    } else if divisor == 16 {
        assert((byte / 8) / 2 == byte / 16);
    } else if divisor == 8 {
        assert((byte / 4) / 2 == byte / 8);
    } else if divisor == 4 {
        assert((byte / 2) / 2 == byte / 4);
    } else {
        assert((byte / 1) / 2 == byte / 2);
    }
}

/// The binary digits of each byte, without leading zeros, one byte after
/// the other.
pub fn bytes_to_bools(bytes: &Vec<u8>) -> (result: Vec<bool>)
    ensures
        result@ == bytes_digits(bytes@),
{
    let mut result: Vec<bool> = Vec::new();
    let mut i: usize = 0;
    while i < bytes.len()
        invariant
            i <= bytes.len(),
            result@ == bytes_digits(bytes@.subrange(0, i as int)),
        decreases bytes.len() - i,
    {
        let byte = bytes[i];
        let ghost before = result@;
        // the place of the leading digit
        let mut divisor: u8 = 128;
        while divisor > 1 && byte / divisor == 0
            invariant
                divisor == 128 || divisor == 64 || divisor == 32 || divisor == 16 || divisor == 8
                    || divisor == 4 || divisor == 2 || divisor == 1,
                byte / divisor <= 1,
            decreases divisor,
        {
            proof {
                lemma_halve_divisor(byte, divisor);
            }
            divisor = divisor / 2;
        }
        result.push(byte / divisor == 1);
        assert(result@ =~= before + byte_digits((byte / divisor) as nat));
        while divisor > 1
            invariant
                divisor == 128 || divisor == 64 || divisor == 32 || divisor == 16 || divisor == 8
                    || divisor == 4 || divisor == 2 || divisor == 1,
                result@ == before + byte_digits((byte / divisor) as nat),
                divisor > 1 ==> byte / divisor >= 1,
            decreases divisor,
        {
            proof {
                lemma_halve_divisor(byte, divisor);
            }
            let ghost digits = byte_digits((byte / divisor) as nat);
            let ghost prefix = (byte / divisor) as nat;
            divisor = divisor / 2;
            let quotient = byte / divisor;
            result.push(quotient % 2 == 1);
            proof {
                assert(quotient / 2 == prefix);
                assert(quotient >= 2);
                assert(result@ =~= before + byte_digits(quotient as nat));
            }
        }
        proof {
            let upto = bytes@.subrange(0, i as int + 1);
            assert(upto.drop_last() =~= bytes@.subrange(0, i as int));
            assert(upto.last() == byte);
        }
        i = i + 1;
    }
    proof {
        assert(bytes@.subrange(0, bytes@.len() as int) =~= bytes@);
    }
    result
}

} // verus!
