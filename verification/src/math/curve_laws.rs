//! Why the sum of two points of a curve is a point of the curve, and the
//! laws of the group that follow.

use vstd::prelude::*;
use vstd::arithmetic::div_mod::{
    lemma_small_mod, lemma_mod_bound, lemma_mod_equivalence,
    lemma_mod_multiples_vanish, lemma_fundamental_div_mod,
};
use crate::math::ecc::{ElipticCurve, ElipticCurvePoint, curve_rhs, infinity_point};
use crate::math::number::{
    is_prime, congruent, lemma_congruent_residue, lemma_congruent_add, lemma_congruent_sub,
    lemma_congruent_mul, mod_inverse, lemma_mod_inverse, lemma_euclid, lemma_multiple_mod,
};

verus! {

/// The line of slope `m` through `(x1, y1)`, at `x`.
pub open spec fn line(m: int, x1: int, y1: int, x: int) -> int {
    m * (x - x1) + y1
}

/// How far the curve's right-hand side at `x` is from the square of the
/// line: zero, in the field, exactly where line and curve meet.
pub open spec fn gap(a: int, b: int, m: int, x1: int, y1: int, x: int) -> int {
    curve_rhs(a, b, x) - line(m, x1, y1, x) * line(m, x1, y1, x)
}

/// The quotient of `gap` by `x - x1`, a quadratic polynomial in `x`.
pub open spec fn cofactor(a: int, m: int, x1: int, y1: int, x: int) -> int {
    x * x + x * x1 + x1 * x1 + a - m * m * (x - x1) - 2 * m * y1
}

/// `gap` splits off the factor `x - x1`, up to its value at `x1`.
pub proof fn lemma_gap_factor(a: int, b: int, m: int, x1: int, y1: int, x: int)
    ensures
        gap(a, b, m, x1, y1, x) - (curve_rhs(a, b, x1) - y1 * y1) == (x - x1) * cofactor(
            a,
            m,
            x1,
            y1,
            x,
        ),
{
    let d = x - x1;
    let cube = x * x + x * x1 + x1 * x1;
    let lin = m * m * d + 2 * m * y1;
    assert(x * x * x - x1 * x1 * x1 == d * cube) by (nonlinear_arith)
        requires
            d == x - x1,
            cube == x * x + x * x1 + x1 * x1,
    ;
    assert(a * x - a * x1 == d * a) by (nonlinear_arith)
        requires
            d == x - x1,
    ;
    assert((m * d + y1) * (m * d + y1) - y1 * y1 == d * lin) by (nonlinear_arith)
        requires
            lin == m * m * d + 2 * m * y1,
    ;
    assert(d * cube + d * a - d * lin == d * (cube + a - lin)) by (nonlinear_arith);
}

/// `cofactor` splits off the factor `x - x2`, up to its value at `x2`.
pub proof fn lemma_cofactor_factor(a: int, m: int, x1: int, y1: int, x2: int, x: int)
    ensures
        cofactor(a, m, x1, y1, x) - cofactor(a, m, x1, y1, x2) == (x - x2) * (x + x2 + x1 - m * m),
{
    assert((x * x + x * x1 + x1 * x1 + a - m * m * (x - x1) - 2 * m * y1) - (x2 * x2 + x2 * x1 + x1
        * x1 + a - m * m * (x2 - x1) - 2 * m * y1) == (x - x2) * (x + x2 + x1 - m * m))
        by (nonlinear_arith);
}

/// The curve's right-hand side takes congruent values at congruent places.
pub proof fn lemma_rhs_congruent(a: int, b: int, x: int, x2: int, p: int)
    requires
        p > 0,
        congruent(x, x2, p),
    ensures
        congruent(curve_rhs(a, b, x), curve_rhs(a, b, x2), p),
{
    lemma_congruent_mul(x, x2, x, x2, p);
    lemma_congruent_mul(x * x, x2 * x2, x, x2, p);
    lemma_congruent_mul(a, a, x, x2, p);
    lemma_congruent_add(x * x * x, x2 * x2 * x2, a * x, a * x2, p);
    lemma_congruent_add(x * x * x + a * x, x2 * x2 * x2 + a * x2, b, b, p);
}

/// Where `(x1, y1)` is on the curve and the cofactor vanishes at `x2`, the
/// line meets the curve a third time at `x3 = m^2 - x1 - x2`, with the
/// height `m^3 - 2*m*x1 - m*x2 + y1`.
pub proof fn lemma_third_intersection(p: int, a: int, b: int, m: int, x1: int, y1: int, x2: int)
    requires
        p > 0,
        congruent(y1 * y1, curve_rhs(a, b, x1), p),
        congruent(cofactor(a, m, x1, y1, x2), 0, p),
    ensures
        congruent(
            (m * m * m - 2 * m * x1 - m * x2 + y1) * (m * m * m - 2 * m * x1 - m * x2 + y1),
            curve_rhs(a, b, m * m - x1 - x2),
            p,
        ),
{
    let x3 = m * m - x1 - x2;
    let s3 = m * m * m - 2 * m * x1 - m * x2 + y1;
    let g3 = cofactor(a, m, x1, y1, x3);
    let g2 = cofactor(a, m, x1, y1, x2);
    lemma_cofactor_factor(a, m, x1, y1, x2, x3);
    assert((x3 - x2) * (x3 + x2 + x1 - m * m) == 0) by (nonlinear_arith)
        requires
            x3 + x2 + x1 - m * m == 0,
    ;
    assert(g3 == g2);
    lemma_gap_factor(a, b, m, x1, y1, x3);
    let f1 = curve_rhs(a, b, x1) - y1 * y1;
    let f3 = gap(a, b, m, x1, y1, x3);
    lemma_congruent_sub(curve_rhs(a, b, x1), y1 * y1, y1 * y1, y1 * y1, p);
    assert(congruent(f1, 0, p));
    lemma_congruent_mul(x3 - x1, x3 - x1, g3, 0, p);
    assert((x3 - x1) * 0 == 0);
    lemma_congruent_add(f1, 0, (x3 - x1) * g3, 0, p);
    assert(f3 == f1 + (x3 - x1) * g3);
    assert(congruent(f3, 0, p));
    let l3 = line(m, x1, y1, x3);
    lemma_small_mod(0, p as nat);
    lemma_mod_equivalence(curve_rhs(a, b, x3), l3 * l3, p);
    assert(l3 == s3) by (nonlinear_arith)
        requires
            l3 == m * (x3 - x1) + y1,
            x3 == m * m - x1 - x2,
            s3 == m * m * m - 2 * m * x1 - m * x2 + y1,
    ;
}

/// The cofactor vanishes at `x2` where the line is the chord through two
/// points of the curve with different `x`.
pub proof fn lemma_chord_cofactor(
    p: nat,
    a: int,
    b: int,
    m: int,
    x1: int,
    y1: int,
    x2: int,
    y2: int,
)
    requires
        is_prime(p),
        congruent(y1 * y1, curve_rhs(a, b, x1), p as int),
        congruent(y2 * y2, curve_rhs(a, b, x2), p as int),
        (x2 - x1) % (p as int) != 0,
        congruent(m * (x2 - x1), y2 - y1, p as int),
    ensures
        congruent(cofactor(a, m, x1, y1, x2), 0, p as int),
{
    let pi = p as int;
    let l2 = line(m, x1, y1, x2);
    lemma_congruent_add(m * (x2 - x1), y2 - y1, y1, y1, pi);
    assert(congruent(l2, y2, pi));
    lemma_congruent_mul(l2, y2, l2, y2, pi);
    lemma_congruent_sub(curve_rhs(a, b, x2), curve_rhs(a, b, x2), l2 * l2, curve_rhs(a, b, x2), pi);
    let f2 = gap(a, b, m, x1, y1, x2);
    assert(congruent(f2, 0, pi));
    let f1 = curve_rhs(a, b, x1) - y1 * y1;
    lemma_congruent_sub(curve_rhs(a, b, x1), y1 * y1, y1 * y1, y1 * y1, pi);
    assert(congruent(f1, 0, pi));
    lemma_gap_factor(a, b, m, x1, y1, x2);
    lemma_congruent_sub(f2, 0, f1, 0, pi);
    lemma_small_mod(0, p);
    let g2 = cofactor(a, m, x1, y1, x2);
    assert(((x2 - x1) * g2) % pi == 0);
    lemma_euclid(x2 - x1, g2, p);
}

/// The cofactor vanishes at `x2` where the line is the tangent in
/// `(x1, y1)` and `x2` is congruent to `x1`.
pub proof fn lemma_tangent_cofactor(p: int, a: int, m: int, x1: int, y1: int, x2: int)
    requires
        p > 0,
        congruent(x2, x1, p),
        congruent(m * (2 * y1), 3 * (x1 * x1) + a, p),
    ensures
        congruent(cofactor(a, m, x1, y1, x2), 0, p),
{
    let g1 = cofactor(a, m, x1, y1, x1);
    let g2 = cofactor(a, m, x1, y1, x2);
    assert(g1 == 3 * (x1 * x1) + a - m * (2 * y1)) by (nonlinear_arith)
        requires
            g1 == x1 * x1 + x1 * x1 + x1 * x1 + a - m * m * (x1 - x1) - 2 * m * y1,
    ;
    lemma_congruent_sub(3 * (x1 * x1) + a, m * (2 * y1), m * (2 * y1), m * (2 * y1), p);
    assert(congruent(g1, 0, p));
    lemma_cofactor_factor(a, m, x1, y1, x2, x1);
    lemma_congruent_sub(x1, x2, x2, x2, p);
    let k = x1 + x2 + x1 - m * m;
    lemma_congruent_mul(x1 - x2, 0, k, k, p);
    assert(0 * k == 0);
    assert(congruent(g1 - g2, 0, p));
    lemma_congruent_sub(g1, 0, g1 - g2, 0, p);
}

/// A quotient in the field, times its divisor, gives back the dividend.
pub proof fn lemma_slope_product(p: nat, num: int, den: int, m: int)
    requires
        is_prime(p),
        den % (p as int) != 0,
        m == ((num % (p as int)) * mod_inverse(den, p)) % (p as int),
    ensures
        congruent(m * den, num, p as int),
{
    let pi = p as int;
    let inv = mod_inverse(den, p);
    lemma_mod_inverse(den, p);
    lemma_congruent_residue(num, pi);
    lemma_congruent_residue((num % pi) * inv, pi);
    lemma_congruent_mul(num % pi, num, inv, inv, pi);
    assert(congruent(m, num * inv, pi));
    lemma_congruent_mul(m, num * inv, den, den, pi);
    assert((num * inv) * den == num * (den * inv)) by (nonlinear_arith);
    lemma_small_mod(1, p);
    lemma_congruent_mul(num, num, den * inv, 1, pi);
    assert(num * 1 == num);
}

/// The reflected third point on a line that meets the curve a third time
/// lies on the curve.
pub proof fn lemma_third_point_on_curve(
    curve: ElipticCurve,
    m: int,
    p1: ElipticCurvePoint,
    p2: ElipticCurvePoint,
)
    requires
        curve.wf(),
        curve.field.prime_base,
        curve.on_curve(p1),
        !p1.is_infinity_point,
        congruent(
            cofactor(curve.a as int, m, p1.r as int, p1.s as int, p2.r as int),
            0,
            curve.field.base as int,
        ),
    ensures
        curve.on_curve(curve.third_point_spec(m, p1, p2)),
        curve.third_point_spec(m, p1, p2).r < curve.field.base,
        curve.third_point_spec(m, p1, p2).s < curve.field.base,
{
    let p = curve.field.base as int;
    let a = curve.a as int;
    let b = curve.b as int;
    let x1 = p1.r as int;
    let y1 = p1.s as int;
    let x2 = p2.r as int;
    let x3 = m * m - x1 - x2;
    let s3 = m * m * m - 2 * m * x1 - m * x2 + y1;
    lemma_third_intersection(p, a, b, m, x1, y1, x2);
    let q = curve.third_point_spec(m, p1, p2);
    lemma_congruent_residue(x3, p);
    lemma_congruent_residue(s3, p);
    lemma_congruent_residue(-(s3 % p), p);
    assert(q.r as int == x3 % p);
    assert(q.s as int == (-(s3 % p)) % p);
    lemma_rhs_congruent(a, b, q.r as int, x3, p);
    let t = s3 % p;
    lemma_congruent_mul(q.s as int, -t, q.s as int, -t, p);
    assert((-t) * (-t) == t * t) by (nonlinear_arith);
    lemma_congruent_mul(t, s3, t, s3, p);
}

/// The sum of two points of a curve over a prime field is a point of the
/// curve.
pub proof fn lemma_add_closed(curve: ElipticCurve, p1: ElipticCurvePoint, p2: ElipticCurvePoint)
    requires
        curve.wf(),
        curve.field.prime_base,
        curve.on_curve(p1),
        curve.on_curve(p2),
    ensures
        curve.on_curve(curve.add_spec(p1, p2)),
{
    let p = curve.field.base as int;
    let pn = curve.field.base as nat;
    let a = curve.a as int;
    let b = curve.b as int;
    let x1 = p1.r as int;
    let y1 = p1.s as int;
    let x2 = p2.r as int;
    let y2 = p2.s as int;
    if p1.is_infinity_point || p2.is_infinity_point {
    } else if p1.r % curve.field.base != p2.r % curve.field.base {
        let m = curve.chord_slope(p1, p2);
        lemma_mod_equivalence(x2, x1, p);
        lemma_slope_product(pn, y2 - y1, x2 - x1, m);
        lemma_chord_cofactor(pn, a, b, m, x1, y1, x2, y2);
        lemma_third_point_on_curve(curve, m, p1, p2);
    } else if (p1.s + p2.s) % p == 0 {
    } else if curve.same_point(p1, p2) && p1.s % curve.field.base == 0 {
    } else {
        let m = curve.tangent_slope(p1);
        curve.lemma_same_r(p1, p2);
        curve.lemma_double_nonzero(p1, p2);
        lemma_slope_product(pn, 3 * (x1 * x1) + a, 2 * y1, m);
        lemma_tangent_cofactor(p, a, m, x1, y1, x2);
        lemma_third_point_on_curve(curve, m, p1, p2);
    }
}

/// A point and its negative add up to the point at infinity: the negative
/// of a point of the curve is on the curve, and `add(p, neg(p))` is the
/// identity of the group.
pub proof fn lemma_add_negative(curve: ElipticCurve, p: ElipticCurvePoint)
    requires
        curve.wf(),
        curve.field.prime_base,
        curve.on_curve(p),
    ensures
        curve.on_curve(curve.neg_spec(p)),
        curve.add_spec(p, curve.neg_spec(p)) == infinity_point(),
        curve.add_spec(p, curve.neg_spec(p)).is_infinity_point,
{
    if !p.is_infinity_point {
        let m = curve.field.base as int;
        let s = p.s as int;
        let w = s % m;
        let q = curve.neg_spec(p);
        lemma_mod_bound(s, m);
        assert(q.s as int == m - w);
        // the negative is on the curve
        assert((m - w) * (m - w) == m * (m - 2 * w) + w * w) by (nonlinear_arith);
        lemma_mod_multiples_vanish(m - 2 * w, w * w, m);
        lemma_congruent_residue(s, m);
        lemma_congruent_mul(w, s, w, s, m);
        assert(congruent(q.s * q.s, s * s, m));
        // the two heights are opposite
        lemma_fundamental_div_mod(s, m);
        assert(s + (m - w) == m * (s / m + 1)) by (nonlinear_arith)
            requires
                s == m * (s / m) + w,
        ;
        lemma_multiple_mod(s / m + 1, m);
    }
}

/// Doubling by multiplication is doubling by addition, and the fourfold of
/// a point is the double of its double.
pub proof fn lemma_mul_doubles(curve: ElipticCurve, p: ElipticCurvePoint)
    ensures
        curve.mul_spec(p, 2) == curve.add_spec(p, p),
        curve.mul_spec(p, 4) == curve.mul_spec(curve.mul_spec(p, 2), 2),
{
    reveal_with_fuel(ElipticCurve::mul_spec, 4);
    assert(curve.mul_spec(p, 1) == p);
    assert(curve.mul_spec(p, 2) == curve.add_spec(p, p));
    let d = curve.mul_spec(p, 2);
    assert(curve.mul_spec(d, 1) == d);
    assert(curve.mul_spec(d, 2) == curve.add_spec(d, d));
    assert(curve.mul_spec(p, 4) == curve.add_spec(d, d));
}

} // verus!
