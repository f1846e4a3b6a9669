//! Euclid's algorithm and its extension to Bézout coefficients.

use vstd::prelude::*;
use num::Integer;
use vstd::arithmetic::div_mod::{lemma_fundamental_div_mod, lemma_small_mod, lemma_mod_bound};
use crate::math::number::gcd as gcd_spec;

verus! {

/// The Bézout coefficients `(x, y)` that `num`'s `Integer::extended_gcd`
/// returns for `a` and `b`. Which of the many pairs it picks is left to `num`;
/// that they satisfy Bézout's identity is stated where the call is made.
pub uninterp spec fn library_bezout(a: int, b: int) -> (int, int);

/// `Integer::extended_gcd` of `num` on two non-negative `i128`.
///
/// Trusted: the first component is the greatest common divisor, the other two
/// are coefficients `x` and `y` with `a * x + b * y == gcd`, and the same
/// arguments always give the same coefficients.
#[verifier::external_body]
pub(crate) fn library_extended_gcd(a: i128, b: i128) -> (res: (i128, i128, i128))
    requires
        a >= 0,
        b >= 0,
    ensures
        res.0 as int == gcd_spec(a as nat, b as nat) as int,
        (res.1 as int, res.2 as int) == library_bezout(a as int, b as int),
        a * res.1 + b * res.2 == res.0,
{
    let e = a.extended_gcd(&b);
    (e.gcd, e.x, e.y)
}

/// `Integer::gcd` of `num` on two `u128`. Trusted: the result is the
/// greatest common divisor, and 0 for two zeros.
#[verifier::external_body]
fn library_gcd(a: u128, b: u128) -> (res: u128)
    ensures
        res == gcd_spec(a as nat, b as nat),
{
    a.gcd(&b)
}

/// The greatest common divisor with its Bézout coefficients, by the
/// recursion `(b, 0, 1)` for `a == 0`, and otherwise
/// `(g, y' - (b / a) * x', x')` where `(g, x', y')` belongs to `b % a` and
/// `a`.
pub open spec fn euclid_coefficients(a: nat, b: nat) -> (int, int, int)
    decreases a,
{
    if a == 0 {
        (b as int, 0, 1)
    } else {
        let (g, x, y) = euclid_coefficients(b % a, a);
        (g, y - (b / a) * x, x)
    }
}

/// The arguments of the recursion, in the order in which `alt_egcd` takes
/// them up: exchanged where `recursion` is set and the first is the greater.
pub open spec fn ordered_arguments(a: int, b: int, recursion: bool) -> (int, int) {
    if recursion && a > b {
        (b, a)
    } else {
        (a, b)
    }
}

/// The greatest common divisor does not depend on the order.
pub proof fn lemma_gcd_symmetric(a: nat, b: nat)
    ensures
        gcd_spec(a, b) == gcd_spec(b, a),
{
    if a == 0 || b == 0 {
        if a == 0 && b > 0 {
            lemma_small_mod(0, b);
        }
        if b == 0 && a > 0 {
            lemma_small_mod(0, a);
        }
    } else if a < b {
        lemma_small_mod(a, b);
    } else if b < a {
        lemma_small_mod(b, a);
    }
}

/// The coefficients of the recursion satisfy Bézout's identity for the
/// greatest common divisor, and are no greater than the arguments.
pub proof fn lemma_euclid_coefficients(a: nat, b: nat)
    ensures
        euclid_coefficients(a, b).0 == gcd_spec(a, b),
        a * euclid_coefficients(a, b).1 + b * euclid_coefficients(a, b).2 == euclid_coefficients(
            a,
            b,
        ).0,
        -b <= euclid_coefficients(a, b).1 <= b || -1 <= euclid_coefficients(a, b).1 <= 1,
        -a <= euclid_coefficients(a, b).2 <= a || -1 <= euclid_coefficients(a, b).2 <= 1,
        a > 0 && b % a == 0 ==> euclid_coefficients(a, b).1 == 1 && euclid_coefficients(a, b).2
            == 0,
    decreases a,
{
    let ai = a as int;
    let bi = b as int;
    if a == 0 {
        lemma_gcd_symmetric(a, b);
        assert(ai * 0 + bi * 1 == bi) by (nonlinear_arith);
    } else {
        let r = b % a;
        let q = (b / a) as int;
        lemma_euclid_coefficients(r, a);
        let inner = euclid_coefficients(r, a);
        let x = inner.1;
        let y = inner.2;
        lemma_gcd_symmetric(a, b);
        lemma_gcd_symmetric(r, a);
        lemma_fundamental_div_mod(bi, ai);
        lemma_mod_bound(bi, ai);
        assert(euclid_coefficients(a, b) == (inner.0, y - q * x, x));
        assert(ai * (y - q * x) + bi * x == (r as int) * x + ai * y) by (nonlinear_arith)
            requires
                bi == ai * q + r,
        ;
        if r == 0 {
            assert(euclid_coefficients(0, a) == (ai, 0int, 1int));
            assert(q * 0 == 0);
        } else {
            // |y| <= r and |x| <= a, so |y - q * x| <= r + q * a == b
            assert(-r <= y <= r);
            assert(-ai <= x <= ai);
            assert(-(q * ai) <= q * x <= q * ai) by (nonlinear_arith)
                requires
                    -ai <= x <= ai,
                    q >= 0,
            ;
            assert(q * ai == ai * q) by (nonlinear_arith);
        }
    }
}

/// What `egcd` returns for `a` and `b`: the greatest common divisor, and
/// the coefficients that `num` picks for the two numbers in ascending
/// order, which satisfy Bézout's identity.
pub open spec fn egcd_outcome(a: u128, b: u128, res: Seq<i128>) -> bool {
    let small = if a > b { b } else { a };
    let large = if a > b { a } else { b };
    &&& res.len() == 3
    &&& res[0] == gcd_spec(a as nat, b as nat)
    &&& (res[1] as int, res[2] as int) == library_bezout(small as int, large as int)
    &&& small * res[1] + large * res[2] == res[0]
}

/// Euclid's algorithm extended to Bézout coefficients, as `num` computes
/// them, on the two numbers in ascending order: the result holds the
/// greatest common divisor `g` and two coefficients `x` and `y` with
/// `small * x + large * y == g`. The computation runs on signed 128-bit
/// integers, which bounds the arguments.
pub fn egcd(a: u128, b: u128) -> (res: Vec<i128>)
    requires
        a <= i128::MAX,
        b <= i128::MAX,
    ensures
        egcd_outcome(a, b, res@),
{
    let mut a = a;
    let mut b = b;
    proof {
        lemma_gcd_symmetric(a as nat, b as nat);
    }
    if a > b {
        let tmp = a;
        a = b;
        b = tmp;
    }
    let egcd = library_extended_gcd(a as i128, b as i128);
    let mut res: Vec<i128> = Vec::new();
    res.push(egcd.0);
    res.push(egcd.1);
    res.push(egcd.2);
    res
}

/// Euclid's algorithm extended to Bézout coefficients, written out: the
/// result holds the greatest common divisor `g` and the coefficients `x` and
/// `y` of `euclid_coefficients`, for which `a * x + b * y == g`. With
/// `recursion` set the arguments are first brought into ascending order, and
/// the coefficients belong to them in that order.
pub fn alt_egcd(a: i128, b: i128, recursion: bool) -> (res: Vec<i128>)
    requires
        a >= 0,
        b >= 0,
    ensures
        res@.len() == 3,
        ({
            let (first, second) = ordered_arguments(a as int, b as int, recursion);
            &&& (res@[0] as int, res@[1] as int, res@[2] as int) == euclid_coefficients(
                first as nat,
                second as nat,
            )
            &&& res@[0] == gcd_spec(a as nat, b as nat)
            &&& first * res@[1] + second * res@[2] == res@[0]
        }),
    decreases
            (if recursion && a > b {
                b as int
            } else {
                a as int
            }),
{
    let mut a = a;
    let mut b = b;
    proof {
        lemma_gcd_symmetric(a as nat, b as nat);
    }
    if recursion && a > b {
        let tmp = a;
        a = b;
        b = tmp;
    }
    proof {
        lemma_euclid_coefficients(a as nat, b as nat);
    }
    if a == 0 {
        let mut res: Vec<i128> = Vec::new();
        res.push(b);
        res.push(0);
        res.push(1);
        return res;
    }
    proof {
        lemma_mod_bound(b as int, a as int);
        lemma_euclid_coefficients((b % a) as nat, a as nat);
    }
    let v = alt_egcd(b % a, a, true);
    let q = b / a;
    let ghost x = v@[1] as int;
    proof {
        lemma_fundamental_div_mod(b as int, a as int);
        if b % a == 0 {
            assert(euclid_coefficients(0, a as nat) == (a as int, 0int, 1int));
            assert(q * x == 0) by (nonlinear_arith)
                requires
                    x == 0,
            ;
        } else {
            assert(-(q * a) <= q * x <= q * a) by (nonlinear_arith)
                requires
                    -a <= x <= a,
                    q >= 0,
            ;
            assert(q * a == a * q) by (nonlinear_arith);
        }
    }
    let mut res: Vec<i128> = Vec::new();
    res.push(v[0]);
    res.push(v[2] - q * v[1]);
    res.push(v[1]);
    res
}

/// The greatest common divisor, as `num` computes it.
pub fn gcd(a: u128, b: u128) -> (res: u128)
    ensures
        res == gcd_spec(a as nat, b as nat),
{
    library_gcd(a, b)
}

/// The greatest common divisor, by Euclid's algorithm written out.
pub fn alt_gcd(a: u128, b: u128) -> (res: u128)
    ensures
        res == gcd_spec(a as nat, b as nat),
{
    let mut a = a;
    let mut b = b;
    let ghost start = (a, b);
    while b > 0
        invariant
            gcd_spec(a as nat, b as nat) == gcd_spec(start.0 as nat, start.1 as nat),
        decreases b,
    {
        let tmp = b;
        b = a % b;
        a = tmp;
    }
    a
}

} // verus!
