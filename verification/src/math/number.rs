//! Primality, divisibility and congruences: the vocabulary of the contracts in
//! this crate, and the number theory that their proofs rest on.

use vstd::prelude::*;
use vstd::arithmetic::div_mod::{
    lemma_fundamental_div_mod, lemma_mod_multiples_basic, lemma_mul_mod_noop_left,
    lemma_mul_mod_noop_general, lemma_small_mod, lemma_add_mod_noop, lemma_sub_mod_noop,
    lemma_mod_multiples_vanish, lemma_mod_equivalence, lemma_mod_twice, lemma_mod_bound,
};

verus! {

/// `n` is prime: at least 2 and without a divisor strictly between 1 and `n`.
pub open spec fn is_prime(n: nat) -> bool {
    n >= 2 && forall|d: nat| 1 < d < n ==> #[trigger] (n % d) != 0
}

/// Greatest common divisor, by Euclid's recursion. `gcd(0, 0)` is 0.
pub open spec fn gcd(a: nat, b: nat) -> nat
    decreases b,
{
    if b == 0 {
        a
    } else {
        gcd(b, a % b)
    }
}

/// Coefficients `(x, y)` with `a * x + b * y == gcd(a, b)`, by the recursion
/// that goes with Euclid's.
pub open spec fn bezout(a: nat, b: nat) -> (int, int)
    decreases b,
{
    if b == 0 {
        (1, 0)
    } else {
        let (x, y) = bezout(b, a % b);
        (y, x - (a / b) * y)
    }
}

/// Largest value that the trial-division primality test accepts: beyond it the
/// square of a trial divisor no longer fits into 64 bits.
pub const PRIME_TEST_LIMIT: u64 = 0xFFFF_FFFE_0000_0000;

/// Primality test by trial division, done by `primes::is_prime`.
///
/// Trusted: the result is `true` exactly for the primes. The outside function
/// squares odd trial divisors up to the square root of `n`, which stays inside
/// 64 bits for every `n` up to `PRIME_TEST_LIMIT`.
#[verifier::external_body]
pub(crate) fn prime_test(n: u64) -> (res: bool)
    requires
        n <= PRIME_TEST_LIMIT,
    ensures
        res == is_prime(n as nat),
{
    primes::is_prime(n)
}

/// A multiple of `d` leaves no remainder.
pub proof fn lemma_multiple_mod(k: int, d: int)
    requires
        d > 0,
    ensures
        (k * d) % d == 0,
        (d * k) % d == 0,
{
    lemma_mod_multiples_basic(k, d);
    assert(k * d == d * k) by (nonlinear_arith);
}

/// A positive divisor of a positive number does not exceed it.
pub proof fn lemma_divisor_bound(d: int, n: int)
    requires
        d > 0,
        n > 0,
        n % d == 0,
    ensures
        d <= n,
{
    lemma_fundamental_div_mod(n, d);
    let q = n / d;
    assert(n == d * q);
    assert(q >= 1 ==> d * q >= d) by (nonlinear_arith)
        requires
            d > 0,
    ;
    assert(q <= 0 ==> d * q <= 0) by (nonlinear_arith)
        requires
            d > 0,
    ;
}

/// What divides two numbers divides each of their integer combinations.
pub proof fn lemma_divides_combination(d: int, x: int, y: int, u: int, v: int)
    requires
        d > 0,
        x % d == 0,
        y % d == 0,
    ensures
        (u * x + v * y) % d == 0,
{
    lemma_fundamental_div_mod(x, d);
    lemma_fundamental_div_mod(y, d);
    let qx = x / d;
    let qy = y / d;
    assert(u * x + v * y == (u * qx + v * qy) * d) by (nonlinear_arith)
        requires
            x == d * qx,
            y == d * qy,
    ;
    lemma_multiple_mod(u * qx + v * qy, d);
}

/// The greatest common divisor is zero only for two zeros, and divides both
/// numbers.
pub proof fn lemma_gcd_divides(a: nat, b: nat)
    ensures
        gcd(a, b) == 0 <==> (a == 0 && b == 0),
        gcd(a, b) > 0 ==> a % gcd(a, b) == 0 && b % gcd(a, b) == 0,
    decreases b,
{
    if b == 0 {
        if a > 0 {
            lemma_multiple_mod(1, a as int);
            assert(a as int == 1 * (a as int));
        }
    } else {
        lemma_gcd_divides(b, a % b);
        let g = gcd(a, b) as int;
        lemma_fundamental_div_mod(a as int, b as int);
        lemma_divides_combination(g, b as int, (a % b) as int, (a / b) as int, 1);
        assert(((a / b) as int) * (b as int) + 1 * ((a % b) as int) == a as int) by (nonlinear_arith)
            requires
                a as int == (b as int) * ((a / b) as int) + ((a % b) as int),
        ;
    }
}

/// Bézout's identity for the coefficients of `bezout`.
pub proof fn lemma_bezout(a: nat, b: nat)
    ensures
        (a as int) * bezout(a, b).0 + (b as int) * bezout(a, b).1 == gcd(a, b) as int,
    decreases b,
{
    if b > 0 {
        lemma_bezout(b, a % b);
        let pair = bezout(b, a % b);
        let x = pair.0;
        let y = pair.1;
        let q = (a / b) as int;
        let r = (a % b) as int;
        let ai = a as int;
        let bi = b as int;
        assert(bezout(a, b) == (y, x - q * y));
        assert(bi * x + r * y == gcd(a, b) as int);
        lemma_fundamental_div_mod(ai, bi);
        assert(ai * y + bi * (x - q * y) == bi * x + r * y) by (nonlinear_arith)
            requires
                ai == bi * q + r,
        ;
    } else {
        assert(bezout(a, b) == (1int, 0int));
        assert((a as int) * 1 + (b as int) * 0 == a as int) by (nonlinear_arith);
    }
}

/// A prime shares no factor with a number that it does not divide.
pub proof fn lemma_gcd_with_prime(a: nat, p: nat)
    requires
        is_prime(p),
        a % p != 0,
    ensures
        gcd(a, p) == 1,
{
    lemma_gcd_divides(a, p);
    let g = gcd(a, p);
    assert(g > 0);
    lemma_divisor_bound(g as int, p as int);
    if g == p {
        assert(a % p == 0);
    }
    if 1 < g && g < p {
        assert(p % g != 0);
    }
}

/// Euclid's lemma: a prime that divides a product divides one of the factors.
pub proof fn lemma_euclid(x: int, y: int, p: nat)
    requires
        is_prime(p),
        (x * y) % (p as int) == 0,
    ensures
        x % (p as int) == 0 || y % (p as int) == 0,
{
    let pi = p as int;
    if x % pi != 0 {
        let a = (x % pi) as nat;
        lemma_mod_twice(x, pi);
        lemma_gcd_with_prime(a, p);
        lemma_bezout(a, p);
        let (u, v) = bezout(a, p);
        lemma_mul_mod_noop_left(x, y, pi);
        assert(((a as int) * y) % pi == 0);
        lemma_multiple_mod(v * y, pi);
        lemma_divides_combination(pi, (a as int) * y, (v * y) * pi, u, 1);
        assert(u * ((a as int) * y) + 1 * ((v * y) * pi) == y) by (nonlinear_arith)
            requires
                (a as int) * u + pi * v == 1,
        ;
    }
}

/// Modulo a prime, only 1 and -1 square to 1.
pub proof fn lemma_square_roots_of_one(x: int, p: nat)
    requires
        is_prime(p),
        (x * x) % (p as int) == 1,
    ensures
        x % (p as int) == 1 || x % (p as int) == p - 1,
{
    let pi = p as int;
    assert((x - 1) * (x + 1) == x * x - 1) by (nonlinear_arith);
    lemma_mod_equivalence(x * x, 1, pi);
    lemma_small_mod(1, p);
    assert((x * x - 1) % pi == 0);
    lemma_euclid(x - 1, x + 1, p);
    if (x - 1) % pi == 0 {
        lemma_mod_equivalence(x, 1, pi);
    } else {
        lemma_mod_equivalence(x, -1, pi);
        assert((x - (-1)) == x + 1);
        lemma_mod_multiples_vanish(1, -1, pi);
        assert((pi * 1 + (-1)) % pi == (-1) % pi);
        lemma_small_mod((p - 1) as nat, p);
    }
}

/// The inverse of `x` modulo `p`, made from Bézout's coefficients. It is
/// an inverse where `p` is prime and does not divide `x`.
pub open spec fn mod_inverse(x: int, p: nat) -> int {
    bezout((x % (p as int)) as nat, p).0 % (p as int)
}

/// `mod_inverse` inverts, modulo a prime, whatever the prime does not divide.
pub proof fn lemma_mod_inverse(x: int, p: nat)
    requires
        is_prime(p),
        x % (p as int) != 0,
    ensures
        0 <= mod_inverse(x, p) < p,
        (x * mod_inverse(x, p)) % (p as int) == 1,
{
    let pi = p as int;
    let a = (x % pi) as nat;
    lemma_mod_twice(x, pi);
    lemma_gcd_with_prime(a, p);
    lemma_bezout(a, p);
    let u = bezout(a, p).0;
    let v = bezout(a, p).1;
    let r = mod_inverse(x, p);
    assert((a as int) * u == pi * (-v) + 1) by (nonlinear_arith)
        requires
            (a as int) * u + pi * v == 1,
    ;
    lemma_mod_multiples_vanish(-v, 1, pi);
    lemma_small_mod(1, p);
    assert(((a as int) * u) % pi == 1);
    lemma_mul_mod_noop_general(x, u, pi);
    lemma_mul_mod_noop_general(a as int, u, pi);
    lemma_mul_mod_noop_general(x, r, pi);
    lemma_mod_twice(u, pi);
}

/// Modulo `p`, a number has at most one inverse among the residues.
pub proof fn lemma_inverse_unique(x: int, r1: int, r2: int, p: int)
    requires
        p > 0,
        0 <= r1 < p,
        0 <= r2 < p,
        (x * r1) % p == 1,
        (x * r2) % p == 1,
    ensures
        r1 == r2,
{
    // r1 == r1 * (x * r2) == (x * r1) * r2 == r2, all modulo p
    lemma_mul_mod_noop_general(r1, x * r2, p);
    lemma_mul_mod_noop_general(x * r1, r2, p);
    assert(r1 * (x * r2) == (x * r1) * r2) by (nonlinear_arith);
    lemma_small_mod(r1 as nat, p as nat);
    lemma_small_mod(r2 as nat, p as nat);
    assert((r1 * (x * r2)) % p == ((r1 % p) * 1) % p);
    assert(((x * r1) * r2) % p == (1 * (r2 % p)) % p);
    assert((r1 % p) * 1 == r1);
    assert(1 * (r2 % p) == r2);
}

/// `a` and `b` leave the same remainder modulo `p`.
pub open spec fn congruent(a: int, b: int, p: int) -> bool {
    a % p == b % p
}

/// A number is congruent to its residue.
pub proof fn lemma_congruent_residue(a: int, p: int)
    requires
        p > 0,
    ensures
        congruent(a % p, a, p),
        0 <= a % p < p,
{
    lemma_mod_twice(a, p);
    lemma_mod_bound(a, p);
}

/// Sums of congruent numbers are congruent.
pub proof fn lemma_congruent_add(a: int, a2: int, b: int, b2: int, p: int)
    requires
        p > 0,
        congruent(a, a2, p),
        congruent(b, b2, p),
    ensures
        congruent(a + b, a2 + b2, p),
{
    lemma_add_mod_noop(a, b, p);
    lemma_add_mod_noop(a2, b2, p);
}

/// Differences of congruent numbers are congruent.
pub proof fn lemma_congruent_sub(a: int, a2: int, b: int, b2: int, p: int)
    requires
        p > 0,
        congruent(a, a2, p),
        congruent(b, b2, p),
    ensures
        congruent(a - b, a2 - b2, p),
{
    lemma_sub_mod_noop(a, b, p);
    lemma_sub_mod_noop(a2, b2, p);
}

/// Products of congruent numbers are congruent.
pub proof fn lemma_congruent_mul(a: int, a2: int, b: int, b2: int, p: int)
    requires
        p > 0,
        congruent(a, a2, p),
        congruent(b, b2, p),
    ensures
        congruent(a * b, a2 * b2, p),
{
    lemma_mul_mod_noop_general(a, b, p);
    lemma_mul_mod_noop_general(a2, b2, p);
}

} // verus!
