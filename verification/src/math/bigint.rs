//! Arbitrary-precision integers of `num_bigint`, as far as this crate uses them.
//!
//! Verus cannot look into a `BigInt`. The contracts speak of the integer that
//! it holds, `big_value`, and every function below is trusted to do to that
//! integer what the documentation of `num_bigint` says.

use vstd::prelude::*;
use vstd::arithmetic::power::pow;
use num_bigint::BigInt;
use num_traits::ToPrimitive;
use std::str::FromStr;

verus! {

/// `num_bigint::BigInt`, made known so that it can stand in signatures.
/// Nothing is said of what is inside.
#[verifier::external_type_specification]
#[verifier::external_body]
pub struct ExBigInt(BigInt);

/// The mathematical integer that a `BigInt` holds.
pub uninterp spec fn big_value(b: BigInt) -> int;

/// Absolute value of an integer.
pub open spec fn magnitude(a: int) -> int {
    if a < 0 { -a } else { a }
}

/// Remainder of the division that rounds toward zero: it has the sign of the
/// dividend. Rust's `%` on signed integers computes it.
pub open spec fn trunc_rem(a: int, b: int) -> int
    recommends
        b != 0,
{
    if a >= 0 {
        a % magnitude(b)
    } else {
        -((-a) % magnitude(b))
    }
}

/// Quotient of the division that rounds toward zero. Rust's `/` on signed
/// integers computes it.
pub open spec fn trunc_div(a: int, b: int) -> int
    recommends
        b != 0,
{
    if (a >= 0) == (b > 0) {
        magnitude(a) / magnitude(b)
    } else {
        -(magnitude(a) / magnitude(b))
    }
}

/// Remainder of the division that rounds toward negative infinity: it has the
/// sign of the divisor.
pub open spec fn floor_mod(a: int, m: int) -> int
    recommends
        m != 0,
{
    if m > 0 {
        a % m
    } else if a % m == 0 {
        0
    } else {
        a % m + m
    }
}

/// `BigInt::from` on a `u128`. Trusted: the conversion keeps the value.
#[verifier::external_body]
pub(crate) fn big_from_u128(x: u128) -> (res: BigInt)
    ensures
        big_value(res) == x as int,
{
    BigInt::from(x)
}

/// `ToPrimitive::to_u128` on a `BigInt`. Trusted: the value comes back where
/// it lies in the range of `u128`, and nothing comes back otherwise.
#[verifier::external_body]
pub(crate) fn big_to_u128(b: &BigInt) -> (res: Option<u128>)
    ensures
        res == (if 0 <= big_value(*b) <= u128::MAX as int {
            Some(big_value(*b) as u128)
        } else {
            None
        }),
{
    b.to_u128()
}

/// `Clone::clone` on a `BigInt`. Trusted: the copy holds the same integer.
#[verifier::external_body]
pub(crate) fn big_clone(b: &BigInt) -> (res: BigInt)
    ensures
        big_value(res) == big_value(*b),
{
    b.clone()
}

/// `==` on two `BigInt`s. Trusted: it compares the integers.
#[verifier::external_body]
pub(crate) fn big_eq(a: &BigInt, b: &BigInt) -> (res: bool)
    ensures
        res == (big_value(*a) == big_value(*b)),
{
    a == b
}

/// `<` on two `BigInt`s. Trusted: it compares the integers.
#[verifier::external_body]
pub(crate) fn big_lt(a: &BigInt, b: &BigInt) -> (res: bool)
    ensures
        res == (big_value(*a) < big_value(*b)),
{
    a < b
}

/// `*` on two `BigInt`s. Trusted: the product, without bound.
#[verifier::external_body]
pub(crate) fn big_mul(a: &BigInt, b: &BigInt) -> (res: BigInt)
    ensures
        big_value(res) == big_value(*a) * big_value(*b),
{
    a * b
}

/// `%` on two `BigInt`s, which panics on a zero divisor. Trusted: the
/// remainder of the division that rounds toward zero.
#[verifier::external_body]
pub(crate) fn big_rem(a: &BigInt, b: &BigInt) -> (res: BigInt)
    requires
        big_value(*b) != 0,
    ensures
        big_value(res) == trunc_rem(big_value(*a), big_value(*b)),
{
    a % b
}

/// `/` on two `BigInt`s, which panics on a zero divisor. Trusted: the
/// quotient of the division that rounds toward zero.
#[verifier::external_body]
pub(crate) fn big_div(a: &BigInt, b: &BigInt) -> (res: BigInt)
    requires
        big_value(*b) != 0,
    ensures
        big_value(res) == trunc_div(big_value(*a), big_value(*b)),
{
    a / b
}

/// `BigInt::pow`. Trusted: the power, without bound.
#[verifier::external_body]
pub(crate) fn big_pow(a: &BigInt, exponent: u32) -> (res: BigInt)
    ensures
        big_value(res) == pow(big_value(*a), exponent as nat),
{
    a.pow(exponent)
}

/// The integer that `num_bigint` reads from a text in base 10, if it reads
/// one: digits behind an optional sign, as `BigInt::from_str` takes them.
pub uninterp spec fn parsed_decimal(text: Seq<char>) -> Option<int>;

/// `BigInt::from_str`. Trusted: whether a number comes back, and which,
/// depends on the text alone.
#[verifier::external_body]
pub(crate) fn big_from_decimal(text: &str) -> (res: Option<BigInt>)
    ensures
        res is Some <==> parsed_decimal(text@) is Some,
        res matches Some(b) ==> Some(big_value(b)) == parsed_decimal(text@),
{
    BigInt::from_str(text).ok()
}

} // verus!
