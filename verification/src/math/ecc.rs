//! Elliptic curves `y^2 = x^3 + a*x + b` over a Galois field, and the group
//! of their points.

use vstd::prelude::*;
use vstd::std_specs::cmp::PartialEqSpecImpl;
use vstd::arithmetic::div_mod::{
    lemma_small_mod, lemma_mod_twice, lemma_mod_multiples_vanish,
    lemma_mod_equivalence,
};
use vstd::arithmetic::div_mod::{lemma_div_denominator, lemma_basic_div, lemma_div_nonincreasing};
use vstd::arithmetic::power2::{pow2, lemma_pow2_pos, lemma_pow2_unfold, lemma2_to64};
use vstd::pervasive::unreached;
use bitvec::prelude::{BitVec, Msb0};
use vstd::string::StringExecFns;
use crate::math::gallois::GalloisField;
use crate::text::{decimal_digits, append_number};
use crate::math::curve_laws::lemma_add_closed;
use crate::math::number::{
    congruent, lemma_congruent_residue, lemma_congruent_add, lemma_congruent_sub,
    lemma_congruent_mul, mod_inverse, lemma_euclid,
};

verus! {

/// A point of an elliptic curve: the point at infinity, or a pair of affine
/// coordinates. The coordinates of the point at infinity mean nothing.
#[derive(Debug, Clone, Copy, Eq)]
pub struct ElipticCurvePoint {
    pub r: u128,
    pub s: u128,
    pub is_infinity_point: bool,
}

impl PartialEq for ElipticCurvePoint {
    /// Two points are equal where both are the point at infinity, or neither
    /// is and the coordinates are the same.
    fn eq(&self, other: &Self) -> (res: bool) {
        if self.is_infinity_point || other.is_infinity_point {
            self.is_infinity_point && other.is_infinity_point
        } else {
            self.r == other.r && self.s == other.s
        }
    }
}

impl PartialEqSpecImpl for ElipticCurvePoint {
    /// `==` means what `eq_spec` says.
    open spec fn obeys_eq_spec() -> bool {
        true
    }

    /// Both are the point at infinity, or neither is and the coordinates
    /// are the same.
    open spec fn eq_spec(&self, other: &Self) -> bool {
        if self.is_infinity_point || other.is_infinity_point {
            self.is_infinity_point && other.is_infinity_point
        } else {
            self.r == other.r && self.s == other.s
        }
    }
}

impl ElipticCurvePoint {
    /// The point with the given coordinates. Nothing is checked: whether the
    /// point lies on a curve is for `ElipticCurve::check_point` to say.
    pub fn new(r: u128, s: u128) -> (res: ElipticCurvePoint)
        ensures
            res == (ElipticCurvePoint { r, s, is_infinity_point: false }),
    {
        ElipticCurvePoint { r, s, is_infinity_point: false }
    }
}

/// The point at infinity as every curve holds it.
pub open spec fn infinity_point() -> ElipticCurvePoint {
    ElipticCurvePoint { r: 0, s: 0, is_infinity_point: true }
}

/// The discriminant `4a^3 + 27b^2`. A curve needs it to be non-zero in the
/// field.
pub open spec fn discriminant(a: int, b: int) -> int {
    4 * (a * a * a) + 27 * (b * b)
}

/// The right-hand side `r^3 + a*r + b` of the curve's equation.
pub open spec fn curve_rhs(a: int, b: int, r: int) -> int {
    r * r * r + a * r + b
}

/// An elliptic curve over a Galois field.
#[derive(Debug, Clone, Copy, Eq, PartialEq)]
#[allow(non_snake_case)]
pub struct ElipticCurve {
    /// The field of the coordinates.
    pub field: GalloisField,
    /// Coefficient of `x`, reduced into the field.
    pub a: u128,
    /// Constant coefficient, reduced into the field.
    pub b: u128,
    /// Diagnostic flag. It never changes a result.
    pub verbose: bool,
    /// The identity of the group.
    pub INFINITY_POINT: ElipticCurvePoint,
}

impl ElipticCurve {
    /// The curve is what `new` makes: over a well-formed field, with reduced
    /// coefficients, a discriminant that does not vanish, and the point at
    /// infinity in its place.
    pub open spec fn wf(self) -> bool {
        &&& self.field.wf()
        &&& self.INFINITY_POINT == infinity_point()
        &&& self.field.prime_base ==> self.a < self.field.base && self.b < self.field.base
        &&& self.field.reduce_spec(discriminant(self.a as int, self.b as int)) != 0
    }

    /// The point satisfies the curve's equation in the field, or is the
    /// point at infinity.
    pub open spec fn on_curve(self, p: ElipticCurvePoint) -> bool {
        p.is_infinity_point || self.field.reduce_spec(p.s * p.s) == self.field.reduce_spec(
            curve_rhs(self.a as int, self.b as int, p.r as int),
        )
    }

    /// Over a field of polynomials both sides of the equation are computed
    /// as plain integers and then reduced: they have to fit into the 64 bits
    /// that the reduction takes. A prime field knows no such limit.
    pub open spec fn within_reach(self, p: ElipticCurvePoint) -> bool {
        self.field.prime_base || p.is_infinity_point || (p.s * p.s <= u64::MAX && curve_rhs(
            self.a as int,
            self.b as int,
            p.r as int,
        ) <= u64::MAX)
    }

    /// The value of `F(r, s) = s^2 - r^3 - a*r - b` in the field.
    pub open spec fn poly_spec(self, r: int, s: int) -> int {
        self.field.reduce_spec(s * s - curve_rhs(self.a as int, self.b as int, r))
    }

    /// The curve `y^2 = x^3 + a*x + b` over the field, with both
    /// coefficients reduced into the field. It fails where the discriminant
    /// `4a^3 + 27b^2` is zero in the field. Over a field of polynomials the
    /// coefficients must not be negative, and must fit into 64 bits as the
    /// discriminant of their reductions must.
    pub fn new(field: GalloisField, a: i128, b: i128, verbose: bool) -> (res: Result<
        ElipticCurve,
        String,
    >)
        requires
            field.wf(),
            field.prime_base || (0 <= a <= u64::MAX && 0 <= b <= u64::MAX && discriminant(
                field.reduce_spec(a as int),
                field.reduce_spec(b as int),
            ) <= u64::MAX),
        ensures
            res is Err <==> field.reduce_spec(
                discriminant(field.reduce_spec(a as int), field.reduce_spec(b as int)),
            ) == 0,
            res matches Err(msg) ==> msg@ == "discriminant is zero"@,
            res matches Ok(curve) ==> {
                &&& curve.wf()
                &&& curve.field == field
                &&& curve.a == field.reduce_spec(a as int)
                &&& curve.b == field.reduce_spec(b as int)
                &&& curve.verbose == verbose
            },
    {
        let a = field.reduce(a);
        let b = field.reduce(b);
        let d: u128;
        if field.prime_base {
            let a2 = field.mul_mod(a, a);
            let a3 = field.mul_mod(a2, a);
            let b2 = field.mul_mod(b, b);
            d = field.add_mod(field.mul_mod(4, a3), field.mul_mod(27, b2));
            proof {
                let p = field.base as int;
                lemma_congruent_residue(a * a, p);
                lemma_congruent_mul(a2 as int, a * a, a as int, a as int, p);
                lemma_congruent_residue(a2 * a, p);
                lemma_congruent_mul(4, 4, a3 as int, a * a * a, p);
                lemma_congruent_residue(4 * a3, p);
                lemma_congruent_residue(b * b, p);
                lemma_congruent_mul(27, 27, b2 as int, b * b, p);
                lemma_congruent_residue(27 * b2, p);
                lemma_congruent_add(
                    (4 * a3) % p,
                    4 * (a * a * a),
                    (27 * b2) % p,
                    27 * (b * b),
                    p,
                );
            }
        } else {
            assert(a * a <= (a * a) * a || a == 0) by (nonlinear_arith);
            assert(a * a <= u64::MAX * u64::MAX) by (nonlinear_arith)
                requires
                    a <= u64::MAX,
            ;
            assert(b * b <= u64::MAX * u64::MAX) by (nonlinear_arith)
                requires
                    b <= u64::MAX,
            ;
            d = field.reduce_unsigned(4 * (a * a * a) + 27 * (b * b));
        }
        if d == 0 {
            return Err("discriminant is zero".to_owned());
        }
        let infty = ElipticCurvePoint { r: 0, s: 0, is_infinity_point: true };
        Ok(ElipticCurve { field, a, b, verbose, INFINITY_POINT: infty })
    }

    /// Whether the point lies on the curve. The point at infinity does.
    /// `verbose` changes nothing.
    pub fn check_point(&self, p: ElipticCurvePoint, verbose: bool) -> (res: bool)
        requires
            self.wf(),
            self.within_reach(p),
        ensures
            res == self.on_curve(p),
    {
        if p.is_infinity_point {
            return true;
        }
        let left: u128;
        let right: u128;
        if self.field.prime_base {
            left = self.field.mul_mod(p.s, p.s);
            right = self.rhs_mod(p.r);
        } else {
            let r = p.r;
            let a = self.a;
            assert(a * r >= 0 && r * r * r >= 0) by (nonlinear_arith)
                requires
                    a >= 0,
                    r >= 0,
            ;
            assert(r * r <= (r * r) * r) by (nonlinear_arith)
                requires
                    r >= 0,
            ;
            assert(curve_rhs(a as int, self.b as int, r as int) == r * r * r + a * r + self.b);
            assert(r * r * r <= u64::MAX);
            assert(r * r <= u64::MAX);
            left = self.field.reduce_unsigned(p.s * p.s);
            right = self.field.reduce_unsigned(r * r * r + a * r + self.b);
        }
        left == right
    }

    /// The right-hand side of the curve's equation at `r`, in a prime field.
    fn rhs_mod(&self, r: u128) -> (res: u128)
        requires
            self.wf(),
            self.field.prime_base,
        ensures
            res == curve_rhs(self.a as int, self.b as int, r as int) % (self.field.base as int),
            res < self.field.base,
    {
        let r2 = self.field.mul_mod(r, r);
        let r3 = self.field.mul_mod(r2, r);
        let ar = self.field.mul_mod(self.a, r);
        let res = self.field.add_mod(self.field.add_mod(r3, ar), self.b);
        proof {
            let m = self.field.base as int;
            let ri = r as int;
            lemma_congruent_residue(ri * ri, m);
            lemma_congruent_mul(r2 as int, ri * ri, ri, ri, m);
            lemma_congruent_residue(r2 * ri, m);
            lemma_congruent_residue(self.a * ri, m);
            lemma_congruent_add(r3 as int, ri * ri * ri, ar as int, self.a * ri, m);
            lemma_congruent_residue(r3 + ar, m);
            lemma_congruent_add(
                (r3 + ar) % m,
                ri * ri * ri + self.a * ri,
                self.b as int,
                self.b as int,
                m,
            );
        }
        res
    }

    /// The point with the given coordinates, if it lies on the curve.
    pub fn new_point(&self, r: u128, s: u128) -> (res: Result<ElipticCurvePoint, String>)
        requires
            self.wf(),
            self.within_reach(ElipticCurvePoint { r, s, is_infinity_point: false }),
        ensures
            res is Ok <==> self.on_curve(ElipticCurvePoint { r, s, is_infinity_point: false }),
            res matches Ok(p) ==> p == (ElipticCurvePoint { r, s, is_infinity_point: false }),
            res matches Err(msg) ==> msg@ == "the point you want to create is not on the EC"@,
    {
        let p = ElipticCurvePoint::new(r, s);
        if self.check_point(p, self.verbose) {
            Ok(p)
        } else {
            Err("the point you want to create is not on the EC".to_owned())
        }
    }

    /// The value of `F(r, s) = s^2 - r^3 - a*r - b`, reduced into the field.
    /// In a prime field it is zero exactly for the coordinates of a point of
    /// the curve. Over a field of polynomials the difference is computed as
    /// a plain integer: it must not be negative, and `s^2` must fit into 64
    /// bits.
    pub fn poly(&self, r: u128, s: u128) -> (res: i128)
        requires
            self.wf(),
            self.field.prime_base || curve_rhs(self.a as int, self.b as int, r as int) <= s * s
                <= u64::MAX,
        ensures
            res == self.poly_spec(r as int, s as int),
            self.field.prime_base ==> (res == 0 <==> self.on_curve(
                ElipticCurvePoint { r, s, is_infinity_point: false },
            )),
    {
        if !self.field.prime_base {
            let a = self.a;
            assert(a * r >= 0 && r * r * r >= 0) by (nonlinear_arith)
                requires
                    a >= 0,
                    r >= 0,
            ;
            assert(r * r <= (r * r) * r) by (nonlinear_arith)
                requires
                    r >= 0,
            ;
            assert(curve_rhs(a as int, self.b as int, r as int) == r * r * r + a * r + self.b);
            let difference = s * s - (r * r * r + a * r + self.b);
            return self.field.reduce_unsigned(difference) as i128;
        }
        let left = self.field.mul_mod(s, s);
        let right = self.rhs_mod(r);
        let res = self.field.sub_mod(left, right);
        proof {
            let m = self.field.base as int;
            lemma_congruent_residue(s * s, m);
            lemma_mod_twice(curve_rhs(self.a as int, self.b as int, r as int), m);
            lemma_congruent_sub(
                left as int,
                s * s,
                right as int,
                curve_rhs(self.a as int, self.b as int, r as int),
                m,
            );
            lemma_small_mod(left as nat, m as nat);
            lemma_small_mod(right as nat, m as nat);
            if left >= right {
                lemma_small_mod((left - right) as nat, m as nat);
            } else {
                lemma_mod_multiples_vanish(1, left - right, m);
                lemma_small_mod((m + left - right) as nat, m as nat);
            }
        }
        res as i128
    }

    /// The negative of a point: the same `r`, and the additive inverse of
    /// `s`, which is the base minus the reduced `s`. The point at infinity is
    /// its own negative. Over a field of polynomials the reduced `s` must not
    /// exceed the base.
    pub fn neg(&self, p: ElipticCurvePoint) -> (res: ElipticCurvePoint)
        requires
            self.wf(),
            p.is_infinity_point || self.field.prime_base || (p.s <= u64::MAX
                && self.field.reduce_spec(p.s as int) <= self.field.base),
        ensures
            res == self.neg_spec(p),
    {
        if p.is_infinity_point {
            p
        } else {
            ElipticCurvePoint::new(p.r, self.field.a_inverse(p.s))
        }
    }

    /// The negative of a point.
    pub open spec fn neg_spec(self, p: ElipticCurvePoint) -> ElipticCurvePoint {
        if p.is_infinity_point {
            p
        } else {
            ElipticCurvePoint {
                r: p.r,
                s: (self.field.base - self.field.reduce_spec(p.s as int)) as u128,
                is_infinity_point: false,
            }
        }
    }
}

impl ElipticCurve {
    /// The slope of the line through two points with different `r`:
    /// `(s2 - s1) / (r2 - r1)` in the field.
    pub open spec fn chord_slope(self, p1: ElipticCurvePoint, p2: ElipticCurvePoint) -> int {
        let p = self.field.base as int;
        (((p2.s - p1.s) % p) * mod_inverse(p2.r - p1.r, self.field.base as nat)) % p
    }

    /// The slope of the tangent in a point: `(3 r^2 + a) / (2 s)` in the
    /// field.
    pub open spec fn tangent_slope(self, p1: ElipticCurvePoint) -> int {
        let p = self.field.base as int;
        (((3 * (p1.r * p1.r) + self.a) % p) * mod_inverse(2 * p1.s, self.field.base as nat)) % p
    }

    /// The third point of the curve on the line of slope `m` through `p1`
    /// and `p2`, reflected: `r3 = m^2 - r1 - r2`,
    /// `s3 = m^3 - 2*m*r1 - m*r2 + s1`, and the point is `(r3, -s3)`.
    pub open spec fn third_point_spec(
        self,
        m: int,
        p1: ElipticCurvePoint,
        p2: ElipticCurvePoint,
    ) -> ElipticCurvePoint {
        let p = self.field.base as int;
        let r3 = (m * m - p1.r - p2.r) % p;
        let s3 = (m * m * m - 2 * m * p1.r - m * p2.r + p1.s) % p;
        ElipticCurvePoint { r: r3 as u128, s: ((-s3) % p) as u128, is_infinity_point: false }
    }

    /// The two points have the same coordinates in the field.
    pub open spec fn same_point(self, p1: ElipticCurvePoint, p2: ElipticCurvePoint) -> bool {
        p1.r % self.field.base == p2.r % self.field.base && p1.s % self.field.base == p2.s
            % self.field.base
    }

    /// The sum of two points of a curve over a prime field. The cases, in
    /// this order: both points at infinity; one of them; different `r`, the
    /// chord; the same `r` and opposite `s`; a point with `s == 0` added to
    /// itself; any other point added to itself, the tangent.
    pub open spec fn add_spec(self, p1: ElipticCurvePoint, p2: ElipticCurvePoint) -> ElipticCurvePoint {
        let p = self.field.base as int;
        if p1.is_infinity_point && p2.is_infinity_point {
            infinity_point()
        } else if p1.is_infinity_point {
            p2
        } else if p2.is_infinity_point {
            p1
        } else if p1.r % self.field.base != p2.r % self.field.base {
            self.third_point_spec(self.chord_slope(p1, p2), p1, p2)
        } else if (p1.s + p2.s) % p == 0 {
            infinity_point()
        } else if self.same_point(p1, p2) && p1.s % self.field.base == 0 {
            infinity_point()
        } else {
            self.third_point_spec(self.tangent_slope(p1), p1, p2)
        }
    }

    /// Two points of the curve with the same `r` have the same `s` or
    /// opposite ones.
    pub proof fn lemma_same_r(self, p1: ElipticCurvePoint, p2: ElipticCurvePoint)
        requires
            self.wf(),
            self.field.prime_base,
            self.on_curve(p1),
            self.on_curve(p2),
            !p1.is_infinity_point,
            !p2.is_infinity_point,
            p1.r % self.field.base == p2.r % self.field.base,
        ensures
            (p1.s - p2.s) % (self.field.base as int) == 0 || (p1.s + p2.s) % (
            self.field.base as int) == 0,
            (p1.s + p2.s) % (self.field.base as int) != 0 ==> self.same_point(p1, p2),
    {
        let p = self.field.base as int;
        let a = self.a as int;
        let b = self.b as int;
        let r1 = p1.r as int;
        let r2 = p2.r as int;
        let s1 = p1.s as int;
        let s2 = p2.s as int;
        lemma_congruent_mul(r1, r2, r1, r2, p);
        lemma_congruent_mul(r1 * r1, r2 * r2, r1, r2, p);
        lemma_congruent_mul(a, a, r1, r2, p);
        lemma_congruent_add(r1 * r1 * r1, r2 * r2 * r2, a * r1, a * r2, p);
        lemma_congruent_add(r1 * r1 * r1 + a * r1, r2 * r2 * r2 + a * r2, b, b, p);
        assert(congruent(s1 * s1, s2 * s2, p));
        lemma_mod_equivalence(s1 * s1, s2 * s2, p);
        assert((s1 - s2) * (s1 + s2) == s1 * s1 - s2 * s2) by (nonlinear_arith);
        lemma_euclid(s1 - s2, s1 + s2, self.field.base as nat);
        if (s1 - s2) % p == 0 {
            lemma_mod_equivalence(s1, s2, p);
        }
    }

    /// The reflected third point on the line of slope `m`.
    fn third_point(&self, m: u128, p1: ElipticCurvePoint, p2: ElipticCurvePoint) -> (res:
        ElipticCurvePoint)
        requires
            self.wf(),
            self.field.prime_base,
        ensures
            res == self.third_point_spec(m as int, p1, p2),
            res.r < self.field.base,
            res.s < self.field.base,
    {
        let f = self.field;
        let mm = f.mul_mod(m, m);
        let t1 = f.sub_mod(mm, p1.r);
        let r3 = f.sub_mod(t1, p2.r);
        let m3 = f.mul_mod(mm, m);
        let mr1 = f.mul_mod(m, p1.r);
        let two_mr1 = f.mul_mod(2, mr1);
        let mr2 = f.mul_mod(m, p2.r);
        let u1 = f.sub_mod(m3, two_mr1);
        let u2 = f.sub_mod(u1, mr2);
        let s3 = f.add_mod(u2, p1.s);
        let neg_s3 = f.sub_mod(0, s3);
        proof {
            let p = f.base as int;
            let mi = m as int;
            let r1 = p1.r as int;
            let r2 = p2.r as int;
            let s1 = p1.s as int;
            lemma_congruent_residue(mi * mi, p);
            lemma_congruent_sub(mm as int, mi * mi, r1, r1, p);
            lemma_congruent_residue(mm - r1, p);
            lemma_congruent_sub(t1 as int, mi * mi - r1, r2, r2, p);
            assert(r3 == (mi * mi - r1 - r2) % p);
            lemma_congruent_mul(mm as int, mi * mi, mi, mi, p);
            lemma_congruent_residue(mm * mi, p);
            lemma_congruent_residue(mi * r1, p);
            lemma_congruent_mul(2, 2, mr1 as int, mi * r1, p);
            lemma_congruent_residue(2 * mr1, p);
            assert(2 * (mi * r1) == 2 * mi * r1) by (nonlinear_arith);
            lemma_congruent_residue(mi * r2, p);
            lemma_congruent_sub(m3 as int, mi * mi * mi, two_mr1 as int, 2 * mi * r1, p);
            lemma_congruent_residue(m3 - two_mr1, p);
            lemma_congruent_sub(u1 as int, mi * mi * mi - 2 * mi * r1, mr2 as int, mi * r2, p);
            lemma_congruent_residue(u1 - mr2, p);
            lemma_congruent_add(
                u2 as int,
                mi * mi * mi - 2 * mi * r1 - mi * r2,
                s1,
                s1,
                p,
            );
            assert(s3 == (mi * mi * mi - 2 * mi * r1 - mi * r2 + s1) % p);
        }
        ElipticCurvePoint::new(r3, neg_s3)
    }

    /// Adds two points of the curve.
    ///
    /// A point that is not on the curve is refused, the first one first; so
    /// is a curve over a field whose base is not prime. On a curve over a
    /// prime field the sum of two of its points always exists: it is
    /// `add_spec`.
    pub fn add(&self, p1: ElipticCurvePoint, p2: ElipticCurvePoint) -> (res: Result<
        ElipticCurvePoint,
        String,
    >)
        requires
            self.wf(),
            self.within_reach(p1),
            self.within_reach(p2),
        ensures
            res is Ok <==> self.on_curve(p1) && self.on_curve(p2) && self.field.prime_base,
            res matches Ok(sum) ==> sum == self.add_spec(p1, p2) && self.on_curve(sum),
            res matches Err(msg) ==> msg@ == (if !self.on_curve(p1) {
                "{p1} is not a valid point"@
            } else if !self.on_curve(p2) {
                "{p2} is not a valid point"@
            } else {
                "Only prime fields are supported currently"@
            }),
    {
        if !self.check_point(p1, false) {
            return Err("{p1} is not a valid point".to_owned());
        }
        if !self.check_point(p2, false) {
            return Err("{p2} is not a valid point".to_owned());
        }
        if !self.field.prime_base {
            return Err("Only prime fields are supported currently".to_owned());
        }
        let f = self.field;
        let ghost p = f.base as int;
        proof {
            lemma_add_closed(*self, p1, p2);
        }
        // both are the point at infinity
        if p1.is_infinity_point && p2.is_infinity_point {
            return Ok(self.INFINITY_POINT);
        }
        // one of them is
        if p1.is_infinity_point {
            return Ok(p2);
        }
        if p2.is_infinity_point {
            return Ok(p1);
        }
        let same_r = f.sub_mod(p2.r, p1.r) == 0;
        let same_s = f.sub_mod(p1.s, p2.s) == 0;
        let s1 = f.reduce_unsigned(p1.s);
        proof {
            lemma_mod_equivalence(p2.r as int, p1.r as int, p);
            lemma_mod_equivalence(p1.s as int, p2.s as int, p);
        }
        if !same_r {
            // the chord
            let dy = f.sub_mod(p2.s, p1.s);
            let dx = f.sub_mod(p2.r, p1.r);
            proof {
                lemma_small_mod(dx as nat, p as nat);
            }
            match f.inverse(dx) {
                Ok(inv) => {
                    let m = f.mul_mod(dy, inv);
                    Ok(self.third_point(m, p1, p2))
                },
                Err(e) => unreached(),
            }
        } else if f.add_mod(p1.s, p2.s) == 0 {
            // opposite points
            Ok(self.INFINITY_POINT)
        } else if same_s && s1 == 0 {
            // a point with a vertical tangent, added to itself
            Ok(self.INFINITY_POINT)
        } else {
            // the tangent
            proof {
                self.lemma_same_r(p1, p2);
                self.lemma_double_nonzero(p1, p2);
            }
            let r2 = f.mul_mod(p1.r, p1.r);
            let num = f.add_mod(f.mul_mod(3, r2), self.a);
            let den = f.mul_mod(2, p1.s);
            proof {
                lemma_small_mod(den as nat, p as nat);
                lemma_congruent_residue(p1.r * p1.r, p);
                lemma_congruent_mul(3, 3, r2 as int, p1.r * p1.r, p);
                lemma_congruent_residue(3 * r2, p);
                lemma_congruent_add((3 * r2) % p, 3 * (p1.r * p1.r), self.a as int, self.a as int, p);
            }
            match f.inverse(den) {
                Ok(inv) => {
                    let m = f.mul_mod(num, inv);
                    Ok(self.third_point(m, p1, p2))
                },
                Err(e) => unreached(),
            }
        }
    }

    /// Where two points have the same coordinates in the field and are not
    /// opposite, twice their `s` is not zero in the field.
    pub proof fn lemma_double_nonzero(self, p1: ElipticCurvePoint, p2: ElipticCurvePoint)
        requires
            self.field.base > 0,
            p1.s % self.field.base == p2.s % self.field.base,
            (p1.s + p2.s) % (self.field.base as int) != 0,
        ensures
            (2 * p1.s) % (self.field.base as int) != 0,
    {
        let p = self.field.base as int;
        lemma_congruent_add(p1.s as int, p1.s as int, p1.s as int, p2.s as int, p);
    }
}

/// The binary digit of `n` at the place `k`, counted from the least
/// significant one.
pub open spec fn bit_at(n: nat, k: nat) -> bool {
    (n / pow2(k)) % 2 == 1
}

/// The binary digits of a machine word, the most significant first, as
/// `bitvec` lays them out with `BitVec::<usize, Msb0>::from_element`.
///
/// Trusted: there are as many digits as the word has bits, and the digit at
/// index `i` is the one at the place `usize::BITS - 1 - i`.
#[verifier::external_body]
fn msb_first_bits(t: usize) -> (res: Vec<bool>)
    ensures
        res@.len() == usize::BITS,
        forall|i: int|
            0 <= i < usize::BITS ==> #[trigger] res@[i] == bit_at(
                t as nat,
                (usize::BITS - 1 - i) as nat,
            ),
{
    BitVec::<usize, Msb0>::from_element(t).into_iter().collect()
}

/// Dropping one more binary digit halves the number, and the dropped digit
/// is the remainder.
pub proof fn lemma_drop_digit(n: nat, k: nat)
    ensures
        (n / pow2(k)) / 2 == n / pow2(k + 1),
        bit_at(n, k) == ((n / pow2(k)) % 2 == 1),
{
    lemma_pow2_pos(k);
    lemma_pow2_unfold(k + 1);
    lemma_div_denominator(n as int, pow2(k) as int, 2);
    assert(pow2(k) * 2 == pow2(k + 1));
}

impl ElipticCurve {
    /// The multiple `t * g` by double-and-add over the binary digits of
    /// `t`, the most significant first: the multiple for `t / 2` is doubled,
    /// and `g` is added where `t` is odd.
    pub open spec fn mul_spec(self, g: ElipticCurvePoint, t: nat) -> ElipticCurvePoint
        decreases t,
    {
        if t <= 1 {
            g
        } else {
            let half = self.mul_spec(g, t / 2);
            let doubled = self.add_spec(half, half);
            if t % 2 == 1 {
                self.add_spec(doubled, g)
            } else {
                doubled
            }
        }
    }

    /// Multiples of a point of the curve are points of the curve.
    pub proof fn lemma_mul_closed(self, g: ElipticCurvePoint, t: nat)
        requires
            self.wf(),
            self.field.prime_base,
            self.on_curve(g),
        ensures
            self.on_curve(self.mul_spec(g, t)),
        decreases t,
    {
        if t > 1 {
            self.lemma_mul_closed(g, t / 2);
            let half = self.mul_spec(g, t / 2);
            lemma_add_closed(self, half, half);
            lemma_add_closed(self, self.add_spec(half, half), g);
        }
    }

    /// Multiplies a point by a positive integer, by double-and-add.
    ///
    /// A point that is not on the curve is refused, and so is the factor 0.
    /// The factor 1 gives the point back. Any greater factor takes
    /// additions, which a curve over a field that is not prime refuses.
    pub fn mul(&self, g: ElipticCurvePoint, t: usize) -> (res: Result<ElipticCurvePoint, String>)
        requires
            self.wf(),
            self.within_reach(g),
        ensures
            res is Ok <==> self.on_curve(g) && t >= 1 && (self.field.prime_base || t == 1),
            res matches Ok(h) ==> h == self.mul_spec(g, t as nat) && self.on_curve(h),
            res matches Err(msg) ==> msg@ == (if !self.on_curve(g) {
                "invalid point"@
            } else if t < 1 {
                "point multiplication works only if t > 0"@
            } else {
                "Only prime fields are supported currently"@
            }),
    {
        if !self.check_point(g, false) {
            return Err("invalid point".to_owned());
        }
        if t < 1 {
            return Err("point multiplication works only if t > 0".to_owned());
        }
        let t_bits = msb_first_bits(t);
        let width: usize = t_bits.len();
        let ghost n = t as nat;
        proof {
            lemma2_to64();
            lemma_basic_div(n as int, pow2(width as nat) as int);
        }
        // skip the leading zeros
        let mut index: usize = 0;
        while index < width && !t_bits[index]
            invariant
                width == usize::BITS,
                t_bits@.len() == width,
                index <= width,
                n == t,
                n >= 1,
                n / pow2((width - index) as nat) == 0,
                forall|i: int|
                    0 <= i < usize::BITS ==> #[trigger] t_bits@[i] == bit_at(
                        n,
                        (usize::BITS - 1 - i) as nat,
                    ),
            decreases width - index,
        {
            proof {
                lemma_drop_digit(n, (width - index - 1) as nat);
                assert(t_bits@[index as int] == bit_at(n, (width - 1 - index) as nat));
            }
            index = index + 1;
        }
        proof {
            assert(pow2(0) == 1);
            if index == width {
                assert(n / pow2(0) == n);
            }
            lemma_drop_digit(n, (width - index - 1) as nat);
            assert(t_bits@[index as int] == bit_at(n, (width - 1 - index) as nat));
        }
        index = index + 1;
        let mut h: ElipticCurvePoint = g;
        while index < width
            invariant
                self.wf(),
                self.on_curve(g),
                self.within_reach(g),
                width == usize::BITS,
                t_bits@.len() == width,
                1 <= index <= width,
                n == t,
                n / pow2((width - index) as nat) >= 1,
                pow2(0) == 1,
                h == self.mul_spec(g, n / pow2((width - index) as nat)),
                self.on_curve(h),
                self.within_reach(h),
                !self.field.prime_base ==> n / pow2((width - index) as nat) == 1,
                forall|i: int|
                    0 <= i < usize::BITS ==> #[trigger] t_bits@[i] == bit_at(
                        n,
                        (usize::BITS - 1 - i) as nat,
                    ),
            decreases width - index,
        {
            let ghost before = n / pow2((width - index) as nat);
            let ghost after = n / pow2((width - index - 1) as nat);
            proof {
                lemma_drop_digit(n, (width - index - 1) as nat);
                assert(t_bits@[index as int] == bit_at(n, (width - 1 - index) as nat));
                assert(after / 2 == before);
                assert(after >= 2);
                lemma_pow2_pos((width - index - 1) as nat);
                lemma_div_nonincreasing(n as int, pow2((width - index - 1) as nat) as int);
            }
            match self.add(h, h) {
                Ok(doubled) => {
                    h = doubled;
                },
                Err(e) => {
                    return Err(e);
                },
            }
            if t_bits[index] {
                match self.add(h, g) {
                    Ok(sum) => {
                        h = sum;
                    },
                    Err(e) => {
                        return Err(e);
                    },
                }
            }
            index = index + 1;
        }
        Ok(h)
    }
}

impl ElipticCurvePoint {
    /// The point as text: `(r, s)` with both coordinates in decimal digits,
    /// and `(∞ INFINITY)` for the point at infinity.
    pub open spec fn text_spec(self) -> Seq<char> {
        if self.is_infinity_point {
            "(∞ INFINITY)"@
        } else {
            "("@ + decimal_digits(self.r as nat) + ", "@ + decimal_digits(self.s as nat) + ")"@
        }
    }

    /// The point as text.
    pub fn to_string(&self) -> (res: String)
        ensures
            res@ == self.text_spec(),
    {
        if self.is_infinity_point {
            String::from_str("(∞ INFINITY)")
        } else {
            let mut buf = String::from_str("(");
            append_number(&mut buf, self.r);
            buf.append(", ");
            append_number(&mut buf, self.s);
            buf.append(")");
            buf
        }
    }
}

impl ElipticCurve {
    /// The equation of the curve as text: `F(X, Y) = Y² - X³ -aX - b`, with
    /// the two coefficients in decimal digits.
    pub fn to_string(&self) -> (res: String)
        ensures
            res@ == "F(X, Y) = Y² - X³ -"@ + decimal_digits(self.a as nat) + "X - "@
                + decimal_digits(self.b as nat),
    {
        let mut buf = String::from_str("F(X, Y) = Y² - X³ -");
        append_number(&mut buf, self.a);
        buf.append("X - ");
        append_number(&mut buf, self.b);
        buf
    }
}

} // verus!
