//! Galois fields: prime fields, and experimentally the fields of
//! characteristic 2 whose elements are polynomials reduced by a relation.

use vstd::prelude::*;
use vstd::arithmetic::power::pow;
use vstd::string::StringExecFns;
use vstd::pervasive::unreached;
use vstd::arithmetic::power2::{pow2, lemma_pow2_unfold, lemma2_to64};
use vstd::arithmetic::div_mod::{
    lemma_mod_bound, lemma_small_mod, lemma_mul_mod_noop_general, lemma_add_mod_noop,
    lemma_mod_twice, lemma_fundamental_div_mod, lemma_mod_multiples_vanish, lemma_mul_mod_noop_right,
    lemma_sub_mod_noop,
};
use crate::math::number::{
    is_prime, prime_test, PRIME_TEST_LIMIT, lemma_gcd_with_prime, lemma_multiple_mod,
    mod_inverse, lemma_mod_inverse, lemma_inverse_unique,
};
use crate::math::modexp::{
    modular_exponentiation_wrapper, reduced_power, power_mod, lemma_reduced_power,
};
use crate::math::modred::{modred, modred_spec, lemma_modred_bound};
use crate::math::gcd::{library_bezout, library_extended_gcd};
use crate::math::sqrt_laws::lemma_sqrt_roots;
use crate::text::{decimal_digits, append_number};

verus! {

/// Relation that a field of 8 elements gets where none is given.
pub const F_8_DEFAULT_RELATION: u128 = 0xb;

/// Relation that a field of 16 elements gets where none is given.
pub const F_16_DEFAULT_RELATION: u128 = 0x13;

/// Relation that a field of 256 elements gets where none is given.
pub const F_256_DEFAULT_RELATION: u128 = 0x11b;

/// The multiplicative inverse of `n` was asked for and does not exist.
#[derive(Debug)]
pub struct NoInverseError {
    pub n: u128,
}

/// The divisor of a field division has no inverse.
#[derive(Debug)]
pub struct DivisionByZeroError;

/// The number has no square root in the field.
#[derive(Debug)]
pub struct NoRootError;

/// The base is not prime, and no usable reduction relation goes with it.
#[derive(Debug)]
pub struct InvalidFieldError {
    pub base: u128,
}

/// A Galois field.
///
/// With a prime `base` the elements are the residues modulo `base`. With any
/// other base the elements are binary polynomials, reduced by `relation`;
/// this second mode is experimental.
#[derive(Debug, Copy, Clone, Eq, PartialEq)]
pub struct GalloisField {
    /// Number of elements.
    pub base: u128,
    /// Characteristic: `base` where it is prime, and 2 otherwise.
    pub cha: u128,
    /// Diagnostic flag. It never changes a result.
    pub verbose: bool,
    /// Whether `base` is prime.
    pub prime_base: bool,
    /// Reduction relation, used where `base` is not prime.
    pub relation: Option<u128>,
}

/// A relation that polynomials can be reduced by: present, not zero, and
/// within the 64 bits that the reduction works on.
pub open spec fn usable_relation(relation: Option<u128>) -> bool {
    relation matches Some(r) && 0 < r <= u64::MAX
}

/// The relation that a field of the given base is built with: the one
/// given, or else the default of the bases 8, 16 and 256.
pub open spec fn chosen_relation(base: u128, relation: Option<u128>) -> Option<u128> {
    if relation is Some {
        relation
    } else if base == 8 {
        Some(F_8_DEFAULT_RELATION)
    } else if base == 16 {
        Some(F_16_DEFAULT_RELATION)
    } else if base == 256 {
        Some(F_256_DEFAULT_RELATION)
    } else {
        None
    }
}

impl GalloisField {
    /// The field is what `new` makes: the base is within the range of the
    /// primality test, `prime_base` tells the truth, and a field whose base is
    /// not prime has a usable relation.
    pub open spec fn wf(self) -> bool {
        &&& self.base <= PRIME_TEST_LIMIT
        &&& self.prime_base == is_prime(self.base as nat)
        &&& !self.prime_base ==> usable_relation(self.relation)
    }

    /// The relation as the polynomial reduction takes it.
    pub open spec fn relation_spec(self) -> u64 {
        self.relation.unwrap() as u64
    }

    /// The element that the integer `n` stands for: its residue in a prime
    /// field, and the reduced polynomial otherwise.
    pub open spec fn reduce_spec(self, n: int) -> int {
        if self.prime_base {
            n % (self.base as int)
        } else {
            modred_spec(n as u64, self.relation_spec()) as int
        }
    }

    /// The sum of two elements: addition of residues in a prime field,
    /// bitwise exclusive or of the reduced polynomials otherwise.
    pub open spec fn add_spec(self, a: int, b: int) -> int {
        if self.prime_base {
            (a + b) % (self.base as int)
        } else {
            self.reduce_spec(((self.reduce_spec(a) as u64) ^ (self.reduce_spec(b) as u64)) as int)
        }
    }

    /// Whether `n` has a multiplicative inverse: in a prime field whatever
    /// the base does not divide, and in any other field, where inverses are
    /// experimental, whatever is not 0.
    pub open spec fn has_inverse(self, n: int) -> bool {
        if self.prime_base {
            n % (self.base as int) != 0
        } else {
            n != 0
        }
    }

    /// The multiplicative inverse of an `n` that has one. In a prime field it
    /// is the one residue whose product with `n` is congruent to 1. In any
    /// other field it is the first Bézout coefficient of `n` and the base,
    /// reduced as a polynomial.
    pub open spec fn inverse_spec(self, n: int) -> int {
        if self.prime_base {
            mod_inverse(n, self.base as nat)
        } else {
            self.reduce_spec(library_bezout(n, self.base as int).0)
        }
    }

    /// Whether `inverse` can be asked for `n`. A prime field takes any `n`.
    /// In any other field the Bézout computation runs on `n` as a signed
    /// 128-bit integer, and its coefficient must be a polynomial that can be
    /// reduced: not negative, and within 64 bits.
    pub open spec fn inverse_defined(self, n: u128) -> bool {
        self.prime_base || (n <= i128::MAX && (n == 0 || 0 <= library_bezout(
            n as int,
            self.base as int,
        ).0 <= u64::MAX))
    }

    /// Makes the field of the given base. A base that is not prime needs a
    /// usable relation: the one given or, for the bases 8, 16 and 256, a
    /// default. The base must be within the range of the primality test.
    pub fn new(base: u128, verbose: bool, relation: Option<u128>) -> (res: Result<
        GalloisField,
        InvalidFieldError,
    >)
        requires
            base <= PRIME_TEST_LIMIT,
        ensures
            res is Ok <==> is_prime(base as nat) || usable_relation(chosen_relation(base, relation)),
            res matches Ok(field) ==> {
                &&& field.wf()
                &&& field.base == base
                &&& field.verbose == verbose
                &&& field.prime_base == is_prime(base as nat)
                &&& field.relation == (if is_prime(base as nat) {
                    relation
                } else {
                    chosen_relation(base, relation)
                })
                &&& field.cha == (if is_prime(base as nat) {
                    base
                } else {
                    2
                })
            },
            res matches Err(e) ==> e.base == base,
    {
        let prime_base: bool = prime_test(base as u64);
        let mut relation = relation;
        if !prime_base {
            if relation.is_none() {
                if base == 8 {
                    relation = Some(F_8_DEFAULT_RELATION);
                } else if base == 16 {
                    relation = Some(F_16_DEFAULT_RELATION);
                } else if base == 256 {
                    relation = Some(F_256_DEFAULT_RELATION);
                }
            }
            match relation {
                Some(r) => {
                    if r == 0 || r > u64::MAX as u128 {
                        return Err(InvalidFieldError { base });
                    }
                },
                None => {
                    return Err(InvalidFieldError { base });
                },
            }
        }
        let mut field = GalloisField { base, cha: base, verbose, prime_base, relation };
        field.cha = field.calc_char();
        Ok(field)
    }

    /// The remainder of `n` by the base, whatever kind of field this is.
    pub fn reduce_pos(self, n: u128) -> (res: u128)
        requires
            self.base > 0,
        ensures
            res == n % self.base,
    {
        n % self.base
    }

    /// Reduces an integer into the field. In a prime field this is the
    /// residue in `[0, base)`, for negative numbers too. In any other field
    /// the number is read as a polynomial of at most 64 bits and reduced by
    /// the relation; negative numbers have no meaning there.
    pub fn reduce(self, n: i128) -> (res: u128)
        requires
            self.wf(),
            self.prime_base || 0 <= n <= u64::MAX,
        ensures
            res == self.reduce_spec(n as int),
            self.prime_base ==> res < self.base,
            !self.prime_base ==> res <= self.relation_spec(),
    {
        if self.prime_base {
            let base = self.base as i128;
            let r = n % base;
            proof {
                lemma_truncated_remainder(n as int, base as int);
            }
            if r < 0 {
                (r + base) as u128
            } else {
                r as u128
            }
        } else {
            self.reduce_unsigned(n as u128)
        }
    }

    /// `reduce` for a number that is known not to be negative.
    pub fn reduce_unsigned(self, n: u128) -> (res: u128)
        requires
            self.wf(),
            self.prime_base || n <= u64::MAX,
        ensures
            res == self.reduce_spec(n as int),
            self.prime_base ==> res < self.base,
            !self.prime_base ==> res <= self.relation_spec(),
    {
        if self.prime_base {
            n % self.base
        } else {
            let relation = self.relation.unwrap() as u64;
            proof {
                lemma_modred_bound(n as u64, relation);
            }
            let reduced = modred(n as u64, relation, false);
            reduced.unwrap() as u128
        }
    }

    /// The power `base^exp` modulo the field's base, by square and multiply:
    /// 1 for the exponent 0, `base` as it came for the exponent 1, and the
    /// reduced power from there on.
    pub fn pow(self, base: u128, exp: u128) -> (res: u128)
        requires
            exp >= 2 ==> self.base > 0,
        ensures
            res == reduced_power(base as nat, exp as nat, self.base as nat),
    {
        modular_exponentiation_wrapper(base, exp, self.base, false)
    }

    /// The additive inverse of `n`: the base minus the reduced `n`. For an
    /// `n` that reduces to 0 this is the base itself. In a field of
    /// polynomials the reduced `n` must not exceed the base.
    pub fn a_inverse(self, n: u128) -> (res: u128)
        requires
            self.wf(),
            self.prime_base || (n <= u64::MAX && self.reduce_spec(n as int) <= self.base),
        ensures
            res == self.base - self.reduce_spec(n as int),
    {
        self.base - self.reduce_unsigned(n)
    }

    /// The characteristic of the field. A prime field has its base. In any
    /// other field 1 is added to itself until the sum reduces to 0, and the
    /// number of terms is the result: with polynomial addition that is 2.
    pub fn calc_char(self) -> (res: u128)
        requires
            self.wf(),
        ensures
            res == (if self.prime_base {
                self.base
            } else {
                2
            }),
    {
        if self.prime_base {
            return self.base;
        }
        proof {
            lemma_modred_bound(1, self.relation_spec());
            lemma_modred_bound(0, self.relation_spec());
            assert(1u64 ^ 1u64 == 0u64) by (bit_vector);
        }
        let mut sum: u128 = 1;
        let mut terms: u128 = 1;
        while self.reduce_unsigned(sum) != 0
            invariant
                self.wf(),
                !self.prime_base,
                self.reduce_spec(1) == 1,
                self.reduce_spec(0) == 0,
                1u64 ^ 1u64 == 0u64,
                (sum == 1 && terms == 1) || (sum == 0 && terms == 2),
            decreases sum,
        {
            sum = self.add(sum, 1);
            terms = terms + 1;
        }
        terms
    }

    /// Addition in the field. In a prime field the sum of the residues is
    /// reduced. In a field of polynomials the reduced operands are combined
    /// by exclusive or and reduced again.
    pub fn add(&self, a: u128, b: u128) -> (res: u128)
        requires
            self.wf(),
            self.prime_base || (a <= u64::MAX && b <= u64::MAX),
        ensures
            res == self.add_spec(a as int, b as int),
    {
        let ra: u128 = self.reduce_unsigned(a);
        let rb: u128 = self.reduce_unsigned(b);
        let r: u128;
        if self.prime_base {
            r = ra + rb;
            proof {
                lemma_add_mod_noop(a as int, b as int, self.base as int);
            }
        } else {
            proof {
                lemma_xor_fits(ra as u64, rb as u64);
            }
            r = ra ^ rb;
        }
        self.reduce_unsigned(r)
    }
}

/// How often `h` can be halved before it is odd: the `l` of `h == 2^l * t`.
/// Zero for `h == 0`.
pub open spec fn two_adic_order(h: nat) -> nat
    decreases h,
{
    if h > 0 && h % 2 == 0 {
        1 + two_adic_order(h / 2)
    } else {
        0
    }
}

/// What is left of `h` when it has been halved as often as it can be: the
/// odd `t` of `h == 2^l * t`.
pub open spec fn odd_part(h: nat) -> nat
    decreases h,
{
    if h > 0 && h % 2 == 0 {
        odd_part(h / 2)
    } else {
        h
    }
}

/// `b` passes the test of a quadratic non-residue modulo `p`: its power to
/// `(p - 1) / 2` is congruent to -1.
pub open spec fn is_nonresidue(b: nat, p: nat) -> bool {
    power_mod(b, ((p - 1) / 2) as nat, p) == p - 1
}

/// The least number from `from` up to `p - 1` that passes the non-residue
/// test.
pub open spec fn first_nonresidue(p: nat, from: nat) -> Option<nat>
    decreases p - from,
{
    if from >= p {
        None
    } else if is_nonresidue(from, p) {
        Some(from)
    } else {
        first_nonresidue(p, from + 1)
    }
}

/// The exponent of `a` in step `i` of the root computation:
/// `2^(l - i - 1) * t`, where `(p - 1) / 2 == 2^l * t` with `t` odd.
pub open spec fn sqrt_exponent(p: nat, i: nat) -> nat {
    let h = ((p - 1) / 2) as nat;
    pow2((two_adic_order(h) - i - 1) as nat) * odd_part(h)
}

/// The value `c_i == a^(2^(l - i - 1) * t) * b^(n_i) mod p` that decides
/// how `n_(i + 1)` is made from `n_i == n`.
pub open spec fn sqrt_c(a: nat, b: nat, p: nat, i: nat, n: nat) -> nat {
    (power_mod(a, sqrt_exponent(p, i), p) * power_mod(b, n, p)) % p
}

/// The sequence `n_0 == 0`, `n_(i + 1) == n_i / 2` where `c_i == 1`, and
/// `n_i / 2 + (p - 1) / 4` otherwise.
pub open spec fn sqrt_n(a: nat, b: nat, p: nat, i: nat) -> nat
    decreases i,
{
    if i == 0 {
        0
    } else {
        let prev = sqrt_n(a, b, p, (i - 1) as nat);
        if sqrt_c(a, b, p, (i - 1) as nat, prev) == 1 {
            prev / 2
        } else {
            prev / 2 + ((p - 1) / 4) as nat
        }
    }
}

/// The square roots that `sqrt` finds for `a` modulo `p`, if it finds any.
///
/// There is none unless `a^((p - 1) / 2)` is 1. Where `p + 1` divides 4 the
/// first root is `a^((p + 1) / 4) mod p`. Otherwise `b` is the least
/// non-residue, and the first root is `a^((t + 1) / 2) * b^(n_l) mod p`;
/// without a non-residue there is no root. The second root is `p` minus the
/// first.
pub open spec fn sqrt_spec(a: nat, p: nat) -> Option<(nat, nat)> {
    let h = ((p - 1) / 2) as nat;
    if power_mod(a, h, p) != 1 {
        None
    } else if 4nat % (p + 1) == 0 {
        let w1 = power_mod(a, (p + 1) / 4, p);
        Some((w1, (p - w1) as nat))
    } else {
        match first_nonresidue(p, 0) {
            None => None,
            Some(b) => {
                let n = sqrt_n(a, b, p, two_adic_order(h));
                let w1 = (power_mod(a, (odd_part(h) + 1) / 2, p) * power_mod(b, n, p)) % p;
                Some((w1, (p - w1) as nat))
            },
        }
    }
}

/// Halving the exponent `2^(k + 1) * t` gives `2^k * t`.
pub proof fn lemma_halve_exponent(k: nat, t: nat)
    ensures
        (pow2(k + 1) * t) % 2 == 0,
        (pow2(k + 1) * t) / 2 == pow2(k) * t,
{
    lemma_pow2_unfold(k + 1);
    assert(pow2(k + 1) * t == 2 * (pow2(k) * t)) by (nonlinear_arith)
        requires
            pow2(k + 1) == 2 * pow2(k),
    ;
}

/// Every positive number is a power of two times its odd part.
pub proof fn lemma_two_adic_split(h: nat)
    requires
        h > 0,
    ensures
        h == pow2(two_adic_order(h)) * odd_part(h),
        odd_part(h) % 2 == 1,
    decreases h,
{
    if h % 2 == 0 {
        lemma_two_adic_split(h / 2);
        lemma_halve_exponent(two_adic_order(h / 2), odd_part(h / 2));
        let k = two_adic_order(h / 2);
        let t = odd_part(h / 2);
        lemma_pow2_unfold(k + 1);
        assert(pow2(k + 1) * t == 2 * (pow2(k) * t)) by (nonlinear_arith)
            requires
                pow2(k + 1) == 2 * pow2(k),
        ;
    } else {
        lemma2_to64();
        assert(pow2(0) * h == h) by (nonlinear_arith)
            requires
                pow2(0) == 1,
        ;
    }
}

impl GalloisField {
    /// The product of two numbers, reduced in a prime field.
    pub fn mul_mod(self, x: u128, y: u128) -> (res: u128)
        requires
            self.wf(),
            self.prime_base,
        ensures
            res == (x * y) % (self.base as int),
            res < self.base,
    {
        let rx = x % self.base;
        let ry = y % self.base;
        proof {
            lemma_mul_mod_noop_general(x as int, y as int, self.base as int);
            assert(rx * ry <= 0xFFFF_FFFF_FFFF_FFFF * 0xFFFF_FFFF_FFFF_FFFF) by (nonlinear_arith)
                requires
                    rx <= 0xFFFF_FFFF_FFFF_FFFF,
                    ry <= 0xFFFF_FFFF_FFFF_FFFF,
            ;
        }
        (rx * ry) % self.base
    }

    /// The difference of two numbers, reduced in a prime field.
    pub fn sub_mod(self, x: u128, y: u128) -> (res: u128)
        requires
            self.wf(),
            self.prime_base,
        ensures
            res == (x - y) % (self.base as int),
            res < self.base,
    {
        let rx = x % self.base;
        let ry = y % self.base;
        proof {
            lemma_sub_mod_noop(x as int, y as int, self.base as int);
            lemma_mod_multiples_vanish(1, rx - ry, self.base as int);
        }
        (rx + self.base - ry) % self.base
    }

    /// The sum of two numbers, reduced in a prime field.
    pub fn add_mod(self, x: u128, y: u128) -> (res: u128)
        requires
            self.wf(),
            self.prime_base,
        ensures
            res == (x + y) % (self.base as int),
            res < self.base,
    {
        let rx = x % self.base;
        let ry = y % self.base;
        proof {
            lemma_add_mod_noop(x as int, y as int, self.base as int);
        }
        (rx + ry) % self.base
    }

    /// The multiplicative inverse of `n`. In a prime field there is none for
    /// the multiples of the base, and for any other `n` the result is the one
    /// residue whose product with `n` is congruent to 1. It is found as the
    /// first Bézout coefficient of the reduced `n` and the base.
    ///
    /// In a field that is not prime there is none for 0, and for any other
    /// `n` the result is the reduced coefficient, whatever it is worth.
    pub fn inverse(self, n: u128) -> (res: Result<u128, NoInverseError>)
        requires
            self.wf(),
            self.inverse_defined(n),
        ensures
            res is Ok <==> self.has_inverse(n as int),
            res matches Err(e) ==> e.n == n,
            res matches Ok(r) ==> r == self.inverse_spec(n as int),
            self.prime_base ==> (res matches Ok(r) ==> r < self.base && (n * r) % (
            self.base as int) == 1),
    {
        if self.prime_base {
            let reduced = n % self.base;
            if reduced == 0 {
                return Err(NoInverseError { n });
            }
            let egcd = library_extended_gcd(reduced as i128, self.base as i128);
            let r = self.reduce(egcd.1);
            proof {
                let p = self.base as int;
                let x = egcd.1 as int;
                let y = egcd.2 as int;
                lemma_mod_twice(n as int, p);
                lemma_gcd_with_prime(reduced as nat, self.base as nat);
                assert(reduced * x + p * y == 1);
                assert(reduced * x == p * (-y) + 1) by (nonlinear_arith)
                    requires
                        reduced * x + p * y == 1,
                ;
                lemma_mod_multiples_vanish(-y, 1, p);
                lemma_small_mod(1, self.base as nat);
                lemma_mul_mod_noop_general(reduced as int, x, p);
                lemma_mul_mod_noop_general(n as int, r as int, p);
                lemma_small_mod(r as nat, self.base as nat);
                assert((n * r) % p == 1);
                lemma_mod_inverse(n as int, self.base as nat);
                lemma_inverse_unique(n as int, r as int, mod_inverse(n as int, self.base as nat), p);
            }
            Ok(r)
        } else {
            if n == 0 {
                return Err(NoInverseError { n });
            }
            let egcd = library_extended_gcd(n as i128, self.base as i128);
            Ok(self.reduce(egcd.1))
        }
    }

    /// `inverse`, for any `n`: nothing comes back where `inverse` cannot be
    /// asked.
    pub fn checked_inverse(self, n: u128) -> (res: Option<Result<u128, NoInverseError>>)
        requires
            self.wf(),
        ensures
            res is Some <==> self.inverse_defined(n),
            res matches Some(inner) ==> {
                &&& inner is Ok <==> self.has_inverse(n as int)
                &&& inner matches Err(e) ==> e.n == n
                &&& inner matches Ok(r) ==> r == self.inverse_spec(n as int)
            },
    {
        if !self.prime_base {
            if n > i128::MAX as u128 {
                return None;
            }
            if n != 0 {
                let egcd = library_extended_gcd(n as i128, self.base as i128);
                if egcd.1 < 0 || egcd.1 > u64::MAX as i128 {
                    return None;
                }
            }
        }
        Some(self.inverse(n))
    }

    /// Division in the field: `a` times the inverse of `b`, reduced. It
    /// fails exactly where `b` has no inverse. In a prime field the quotient
    /// times `b` is congruent to `a`.
    ///
    /// It can be asked where `inverse` can be asked for `b`; in a field that
    /// is not prime the product, too, must fit into the 64 bits that the
    /// reduction takes.
    pub fn divide(self, a: u128, b: u128) -> (res: Result<u128, DivisionByZeroError>)
        requires
            self.wf(),
            self.inverse_defined(b),
            self.prime_base || b == 0 || a * self.inverse_spec(b as int) <= u64::MAX,
        ensures
            res is Ok <==> self.has_inverse(b as int),
            res matches Ok(r) ==> r == self.reduce_spec(a * self.inverse_spec(b as int)),
            self.prime_base ==> (res matches Ok(r) ==> r < self.base && (r * b) % (
            self.base as int) == a % self.base),
    {
        match self.inverse(b) {
            Ok(r) => {
                if self.prime_base {
                    let q = self.mul_mod(a, r);
                    proof {
                        lemma_division_law(a as int, b as int, r as int, self.base as int);
                    }
                    Ok(q)
                } else {
                    Ok(self.reduce_unsigned(a * r))
                }
            },
            Err(e) => Err(DivisionByZeroError),
        }
    }

    /// `divide`, for any arguments: nothing comes back where `divide`
    /// cannot be asked.
    pub fn checked_divide(self, a: u128, b: u128) -> (res: Option<Result<u128, DivisionByZeroError>>)
        requires
            self.wf(),
        ensures
            res is Some <==> self.inverse_defined(b) && (self.prime_base || b == 0 || a
                * self.inverse_spec(b as int) <= u64::MAX),
            res matches Some(inner) ==> {
                &&& inner is Ok <==> self.has_inverse(b as int)
                &&& inner matches Ok(r) ==> r == self.reduce_spec(a * self.inverse_spec(b as int))
            },
    {
        match self.checked_inverse(b) {
            None => None,
            Some(Err(e)) => Some(Err(DivisionByZeroError)),
            Some(Ok(r)) => {
                if !self.prime_base {
                    match a.checked_mul(r) {
                        None => {
                            return None;
                        },
                        Some(product) => {
                            if product > u64::MAX as u128 {
                                return None;
                            }
                        },
                    }
                }
                Some(self.divide(a, b))
            },
        }
    }

    /// The power `x^e` as an element of a prime field.
    pub fn pow_reduced(self, x: u128, e: u128) -> (res: u128)
        requires
            self.wf(),
            self.prime_base,
        ensures
            res == power_mod(x as nat, e as nat, self.base as nat),
            res < self.base,
    {
        proof {
            lemma_reduced_power(x as nat, e as nat, self.base as nat);
        }
        self.reduce_unsigned(self.pow(x, e))
    }

    /// Square roots of `a` in a prime field of at least 3 elements, by the
    /// method of Tonelli and Shanks. The two roots come as `(w1, w2)` with
    /// `w2 == base - w1`, and both square to `a` in the field. It fails
    /// where `a^((base - 1) / 2)` is not 1 in the field, and where no
    /// quadratic non-residue is found below the base.
    pub fn sqrt(self, a: u128) -> (res: Result<(u128, u128), NoRootError>)
        requires
            self.wf(),
            self.prime_base,
            self.base >= 3,
        ensures
            res is Ok <==> sqrt_spec(a as nat, self.base as nat) is Some,
            res matches Ok(w) ==> sqrt_spec(a as nat, self.base as nat) == Some(
                (w.0 as nat, w.1 as nat),
            ) && w.0 < self.base && w.1 == self.base - w.0,
            res matches Ok(w) ==> (w.0 * w.0) % (self.base as int) == a % self.base && (w.1 * w.1)
                % (self.base as int) == a % self.base,
    {
        let ghost p = self.base as nat;
        proof {
            if sqrt_spec(a as nat, p) is Some {
                lemma_sqrt_roots(a as nat, p);
            }
        }
        let pm1 = self.base - 1;
        let pm1_2 = pm1 / 2;
        let a_pm1_2 = self.pow_reduced(a, pm1_2);
        if a_pm1_2 != 1 {
            return Err(NoRootError);
        }
        if 4 % (self.base + 1) == 0 {
            let w1 = self.pow_reduced(a, (self.base + 1) / 4);
            let w2 = self.a_inverse(w1);
            proof {
                lemma_small_mod(w1 as nat, p);
            }
            return Ok((w1, w2));
        }
        // (p - 1) / 2 == 2^l * t with t odd
        let mut l: u128 = 0;
        let mut t: u128 = pm1_2;
        while t % 2 == 0
            invariant
                t > 0,
                l + t <= pm1_2,
                two_adic_order(pm1_2 as nat) == l + two_adic_order(t as nat),
                odd_part(pm1_2 as nat) == odd_part(t as nat),
            decreases t,
        {
            l = l + 1;
            t = t / 2;
        }
        // the least b whose power to (p - 1) / 2 is -1
        let mut b_candidate: u128 = 0;
        let mut found: bool = false;
        while b_candidate < self.base
            invariant_except_break
                !found,
                first_nonresidue(p, 0) == first_nonresidue(p, b_candidate as nat),
            invariant
                self.wf(),
                self.prime_base,
                self.base >= 3,
                p == self.base,
                pm1_2 == (self.base - 1) / 2,
                b_candidate <= self.base,
            ensures
                found ==> b_candidate < self.base && first_nonresidue(p, 0) == Some(
                    b_candidate as nat,
                ),
                !found ==> first_nonresidue(p, 0) is None,
            decreases self.base - b_candidate,
        {
            let b_pm1_2 = self.pow_reduced(b_candidate, pm1_2);
            proof {
                lemma_mod_multiples_vanish(1, -1, p as int);
                lemma_small_mod((p - 1) as nat, p);
            }
            if b_pm1_2 == self.reduce(-1) {
                found = true;
                break;
            }
            b_candidate = b_candidate + 1;
        }
        if !found {
            return Err(NoRootError);
        }
        let b = b_candidate;
        let mut n: u128 = 0;
        let mut e: u128 = pm1_2;
        let mut index: u128 = 0;
        proof {
            lemma_two_adic_split(pm1_2 as nat);
        }
        while index < l
            invariant
                self.wf(),
                self.prime_base,
                self.base >= 3,
                p == self.base,
                pm1 == self.base - 1,
                pm1_2 == pm1 / 2,
                index <= l,
                l == two_adic_order(pm1_2 as nat),
                t == odd_part(pm1_2 as nat),
                e == pow2((l - index) as nat) * t,
                n <= pm1_2,
                n == sqrt_n(a as nat, b as nat, p, index as nat),
            decreases l - index,
        {
            proof {
                lemma_halve_exponent((l - index - 1) as nat, t as nat);
            }
            e = e / 2;
            let c = self.mul_mod(self.pow_reduced(a, e), self.pow_reduced(b, n));
            if c == 1 {
                n = n / 2;
            } else {
                n = n / 2 + pm1 / 4;
            }
            index = index + 1;
        }
        let exp = (t + 1) / 2;
        let w1 = self.mul_mod(self.pow_reduced(a, exp), self.pow_reduced(b, n));
        let w2 = self.a_inverse(w1);
        proof {
            lemma_small_mod(w1 as nat, p);
        }
        Ok((w1, w2))
    }
}

/// In a division modulo `p`, the quotient `a * r`, where `r` inverts `b`,
/// gives back `a` when multiplied by `b`.
pub proof fn lemma_division_law(a: int, b: int, r: int, p: int)
    requires
        p > 0,
        (b * r) % p == 1,
    ensures
        (((a * r) % p) * b) % p == a % p,
{
    lemma_mul_mod_noop_general(a * r, b, p);
    lemma_mod_twice(b, p);
    assert((((a * r) % p) * b) % p == ((a * r) * b) % p) by {
        lemma_mul_mod_noop_general(a * r, b, p);
        lemma_mul_mod_noop_general((a * r) % p, b, p);
        lemma_mod_twice(a * r, p);
    }
    assert((a * r) * b == a * (b * r)) by (nonlinear_arith);
    lemma_mul_mod_noop_general(a, b * r, p);
    assert((a * (b * r)) % p == ((a % p) * 1) % p);
    lemma_mod_twice(a, p);
    assert((a % p) * 1 == a % p);
}

/// The term of a polynomial for the place `index`: `1` for the place 0 and
/// `α^index` for any other, behind ` + ` unless it is the first term.
pub open spec fn term_text(index: nat, first: bool) -> Seq<char> {
    let plus = if first {
        Seq::<char>::empty()
    } else {
        " + "@
    };
    if index == 0 {
        plus + "1"@
    } else {
        plus + "α^"@ + decimal_digits(index)
    }
}

/// The polynomial that the lowest `places` bits of `n` stand for, written
/// from the highest power down; `first` says that no term has been written
/// before.
pub open spec fn polynomial_text(n: u128, places: nat, first: bool) -> Seq<char>
    decreases places,
{
    if places == 0 {
        Seq::<char>::empty()
    } else {
        let index = (places - 1) as nat;
        if n & (1u128 << (index as u128)) != 0 {
            term_text(index, first) + polynomial_text(n, index, false)
        } else {
            polynomial_text(n, index, first)
        }
    }
}

impl GalloisField {
    /// The element that `n` stands for, written as a polynomial in `α`:
    /// one term for each bit that is set, from the highest power down,
    /// joined by ` + `. The zero element gives the empty text.
    pub fn display(&self, n: u128) -> (res: String)
        requires
            self.wf(),
            self.prime_base || n <= u64::MAX,
        ensures
            res@ == polynomial_text(self.reduce_spec(n as int) as u128, 128, true),
    {
        let n: u128 = self.reduce_unsigned(n);
        let mut buf: String = String::new();
        let mut first: bool = true;
        let mut index: u32 = 128;
        while index > 0
            invariant
                index <= 128,
                buf@ + polynomial_text(n, index as nat, first) == polynomial_text(n, 128, true),
            decreases index,
        {
            let ghost before = buf@;
            let ghost rest = polynomial_text(n, index as nat, first);
            index = index - 1;
            let bit = n & (1u128 << index) != 0;
            if bit {
                if !first {
                    buf.append(" + ");
                }
                if index == 0 {
                    buf.append("1");
                } else {
                    buf.append("α^");
                    append_number(&mut buf, index as u128);
                }
                proof {
                    assert(buf@ =~= before + term_text(index as nat, first));
                    assert(rest == term_text(index as nat, first) + polynomial_text(
                        n,
                        index as nat,
                        false,
                    ));
                    assert(buf@ + polynomial_text(n, index as nat, false) =~= before + rest);
                }
                first = false;
            }
        }
        proof {
            assert(buf@ + Seq::<char>::empty() =~= buf@);
        }
        buf
    }
}

/// The least exponent from `from` up to `base - 1` to which `n` gives 1.
pub open spec fn first_order(n: nat, base: nat, from: nat) -> Option<nat>
    decreases base - from,
{
    if from >= base {
        None
    } else if power_mod(n, from, base) == 1 {
        Some(from)
    } else {
        first_order(n, base, from + 1)
    }
}

impl GalloisField {
    /// The order of an element: the least exponent of at least 2, and below
    /// the base, to which `n` gives 1. Zero has no order. For any other `n`
    /// such an exponent must exist.
    pub fn calc_ord(&self, n: u128) -> (res: Option<u128>)
        requires
            n == 0 || first_order(n as nat, self.base as nat, 2) is Some,
        ensures
            n == 0 ==> res is None,
            n != 0 ==> (res matches Some(ord) && first_order(n as nat, self.base as nat, 2)
                == Some(ord as nat)),
    {
        if n == 0 {
            return None;
        }
        let mut ord: u128 = 2;
        while ord < self.base
            invariant
                2 <= ord,
                n != 0,
                first_order(n as nat, self.base as nat, 2) is Some,
                first_order(n as nat, self.base as nat, 2) == first_order(
                    n as nat,
                    self.base as nat,
                    ord as nat,
                ),
            decreases self.base - ord,
        {
            if self.pow(n, ord) == 1 {
                return Some(ord);
            }
            ord = ord + 1;
        }
        unreached()
    }
}

impl NoInverseError {
    /// The message of the error: `inverse for n does not exist`, with the
    /// number in decimal digits.
    pub fn to_string(&self) -> (res: String)
        ensures
            res@ == "inverse for "@ + decimal_digits(self.n as nat) + " does not exist"@,
    {
        let mut buf = String::from_str("inverse for ");
        append_number(&mut buf, self.n);
        buf.append(" does not exist");
        buf
    }
}

impl DivisionByZeroError {
    /// The message of the error.
    pub fn to_string(&self) -> (res: String)
        ensures
            res@ == "division by zero"@,
    {
        String::from_str("division by zero")
    }
}

impl NoRootError {
    /// The message of the error.
    pub fn to_string(&self) -> (res: String)
        ensures
            res@ == "no root in the specified gallois field"@,
    {
        String::from_str("no root in the specified gallois field")
    }
}

impl InvalidFieldError {
    /// The message of the error.
    pub fn to_string(&self) -> (res: String)
        ensures
            res@ == "You did not specify a relation and none could be found."@,
    {
        String::from_str("You did not specify a relation and none could be found.")
    }
}

impl GalloisField {
    /// The name of the field: `F_` and the base in decimal digits.
    pub fn to_string(&self) -> (res: String)
        ensures
            res@ == "F_"@ + decimal_digits(self.base as nat),
    {
        let mut buf = String::from_str("F_");
        append_number(&mut buf, self.base);
        buf
    }
}

/// The exclusive or of two 64-bit values is the same in 128 bits.
proof fn lemma_xor_fits(a: u64, b: u64)
    ensures
        (a as u128) ^ (b as u128) == (a ^ b) as u128,
{
    assert((a as u128) ^ (b as u128) == (a ^ b) as u128) by (bit_vector);
}

/// Rust's remainder of a signed division, brought into `[0, d)`, is the
/// mathematical residue.
pub proof fn lemma_truncated_remainder(n: int, d: int)
    requires
        d > 0,
    ensures
        n >= 0 ==> n % d == n - d * (n / d),
        n < 0 ==> (-((-n) % d)) + (if (-n) % d == 0 { 0 } else { d }) == n % d,
{
    lemma_fundamental_div_mod(n, d);
    if n < 0 {
        let r = (-n) % d;
        lemma_fundamental_div_mod(-n, d);
        lemma_mod_bound(-n, d);
        let q = (-n) / d;
        if r == 0 {
            assert(n == d * (-q)) by (nonlinear_arith)
                requires
                    -n == d * q + r,
                    r == 0,
            ;
            lemma_multiple_mod(-q, d);
        } else {
            assert(n == d * (-q - 1) + (d - r)) by (nonlinear_arith)
                requires
                    -n == d * q + r,
            ;
            lemma_mod_multiples_vanish(-q - 1, d - r, d);
            lemma_small_mod((d - r) as nat, d as nat);
        }
    }
}

} // verus!
