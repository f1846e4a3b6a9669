//! Why the roots that `GalloisField::sqrt` finds are roots.

use vstd::prelude::*;
use vstd::arithmetic::power::{pow, lemma_pow0, lemma_pow1, lemma_pow_adds};
use vstd::arithmetic::power2::{pow2, lemma_pow2_unfold, lemma_pow2_adds, lemma_pow2_pos, lemma2_to64};
use vstd::arithmetic::div_mod::{
    lemma_small_mod, lemma_mod_twice, lemma_mod_bound, lemma_fundamental_div_mod,
    lemma_mod_multiples_vanish,
};
use crate::math::gallois::{
    two_adic_order, odd_part, is_nonresidue, first_nonresidue, sqrt_exponent, sqrt_c, sqrt_n,
    sqrt_spec, lemma_two_adic_split,
};
use crate::math::modexp::power_mod;
use crate::math::number::{
    is_prime, congruent, lemma_congruent_residue, lemma_congruent_mul, lemma_square_roots_of_one, lemma_multiple_mod, lemma_divides_combination,
};

verus! {

/// The reduced power is congruent to the power, and is a residue.
pub proof fn lemma_power_mod_congruent(x: nat, e: nat, p: nat)
    requires
        p >= 2,
    ensures
        congruent(power_mod(x, e, p) as int, pow(x as int, e), p as int),
        power_mod(x, e, p) < p,
{
    lemma_mod_twice(pow(x as int, e), p as int);
    lemma_mod_bound(pow(x as int, e), p as int);
}

/// What `first_nonresidue` finds is below the modulus and passes the test.
pub proof fn lemma_first_nonresidue(p: nat, from: nat)
    requires
        first_nonresidue(p, from) is Some,
    ensures
        first_nonresidue(p, from).unwrap() < p,
        is_nonresidue(first_nonresidue(p, from).unwrap(), p),
    decreases p - from,
{
    if from < p && !is_nonresidue(from, p) {
        lemma_first_nonresidue(p, from + 1);
    }
}

/// An odd prime is twice its half, rounded down, plus one.
pub proof fn lemma_odd_prime(p: nat)
    requires
        is_prime(p),
        p >= 3,
    ensures
        p - 1 == 2 * ((p - 1) / 2),
        (p - 1) / 2 >= 1,
{
    if p % 2 == 0 {
        assert(1 < 2 < p);
    }
}

/// The square of -1 is 1, modulo any number.
pub proof fn lemma_minus_one_squared(p: int)
    requires
        p >= 2,
    ensures
        ((p - 1) * (p - 1)) % p == 1,
{
    assert((p - 1) * (p - 1) == p * (p - 2) + 1) by (nonlinear_arith);
    lemma_mod_multiples_vanish(p - 2, 1, p);
    lemma_small_mod(1, p as nat);
}

/// What holds of `n_i` at every step of the root computation: `n_i` is a
/// multiple of `2^(l - i)`, and `a^(2^(l - i) * t) * b^(2 * n_i)` is
/// congruent to 1.
pub proof fn lemma_sqrt_invariant(a: nat, b: nat, p: nat, i: nat)
    requires
        is_prime(p),
        p >= 3,
        power_mod(a, ((p - 1) / 2) as nat, p) == 1,
        is_nonresidue(b, p),
        i <= two_adic_order(((p - 1) / 2) as nat),
    ensures
        sqrt_n(a, b, p, i) % pow2((two_adic_order(((p - 1) / 2) as nat) - i) as nat) == 0,
        congruent(
            pow(
                a as int,
                pow2((two_adic_order(((p - 1) / 2) as nat) - i) as nat) * odd_part(
                    ((p - 1) / 2) as nat,
                ),
            ) * pow(b as int, 2 * sqrt_n(a, b, p, i)),
            1,
            p as int,
        ),
    decreases i,
{
    let pi = p as int;
    let ai = a as int;
    let bi = b as int;
    lemma_odd_prime(p);
    let h = ((p - 1) / 2) as nat;
    let l = two_adic_order(h);
    let t = odd_part(h);
    lemma_two_adic_split(h);
    lemma_small_mod(1, p);
    if i == 0 {
        lemma_power_mod_congruent(a, h, p);
        lemma_pow0(bi);
        assert(pow(ai, h) * 1 == pow(ai, h));
        lemma_pow2_pos(l);
    } else {
        let j = (i - 1) as nat;
        lemma_sqrt_invariant(a, b, p, j);
        let n = sqrt_n(a, b, p, j);
        let d2 = pow2((l - i) as nat);
        let d = pow2((l - j) as nat);
        lemma_pow2_unfold((l - j) as nat);
        lemma_pow2_pos((l - i) as nat);
        assert(d == 2 * d2);
        let e2 = d2 * t;
        assert(sqrt_exponent(p, j) == e2);
        assert(d * t == e2 + e2) by (nonlinear_arith)
            requires
                d == 2 * d2,
                e2 == d2 * t,
        ;
        // n is even, and its half is a multiple of d2
        lemma_fundamental_div_mod(n as int, d as int);
        let q = (n as int) / (d as int);
        assert(n == 2 * (d2 * q)) by (nonlinear_arith)
            requires
                n == d * q,
                d == 2 * d2,
        ;
        let half = n / 2;
        assert(half == d2 * q);
        lemma_multiple_mod(q, d2 as int);
        assert(half % d2 == 0);
        // c squares to 1
        let ra = power_mod(a, e2, p) as int;
        let rb = power_mod(b, n, p) as int;
        let c = sqrt_c(a, b, p, j, n) as int;
        let pa = pow(ai, e2);
        let pb = pow(bi, n);
        lemma_power_mod_congruent(a, e2, p);
        lemma_power_mod_congruent(b, n, p);
        lemma_congruent_mul(ra, pa, rb, pb, pi);
        lemma_congruent_residue(ra * rb, pi);
        assert(congruent(c, pa * pb, pi));
        lemma_congruent_mul(c, pa * pb, c, pa * pb, pi);
        lemma_pow_adds(ai, e2, e2);
        lemma_pow_adds(bi, n, n);
        assert((pa * pb) * (pa * pb) == (pa * pa) * (pb * pb)) by (nonlinear_arith);
        assert(pow(ai, d * t) == pa * pa);
        assert(pow(bi, 2 * n) == pb * pb);
        assert((c * c) % pi == 1);
        lemma_square_roots_of_one(c, p);
        lemma_small_mod(c as nat, p);
        let next = sqrt_n(a, b, p, i);
        if c == 1 {
            assert(next == half);
            assert(2 * next == n);
            assert(congruent(pa * pb, 1, pi));
        } else {
            assert(c == p - 1);
            // (p - 1) / 4 == h / 2, a multiple of d2
            assert(l >= 1);
            assert(h % 2 == 0);
            let quarter = ((p - 1) / 4) as nat;
            assert(quarter == h / 2);
            assert(next == half + quarter);
            assert(2 * next == n + h);
            lemma_pow2_adds((l - i) as nat, i);
            lemma_pow2_unfold(i);
            lemma_pow2_pos(j);
            let k = pow2(j) * t;
            assert(h == 2 * (d2 * k)) by (nonlinear_arith)
                requires
                    h == pow2(l) * t,
                    pow2(l) == d2 * pow2(i),
                    pow2(i) == 2 * pow2(j),
                    k == pow2(j) * t,
            ;
            assert(quarter == d2 * k);
            lemma_multiple_mod(k as int, d2 as int);
            lemma_divides_combination(d2 as int, half as int, quarter as int, 1, 1);
            assert(next % d2 == 0);
            // a^(e2) * b^(n + h) == (a^(e2) * b^n) * b^h, congruent to (-1) * (-1)
            let ph = pow(bi, h);
            lemma_pow_adds(bi, n, h);
            lemma_power_mod_congruent(b, h, p);
            lemma_small_mod((p - 1) as nat, p);
            assert(congruent(ph, pi - 1, pi));
            assert(pa * (pb * ph) == (pa * pb) * ph) by (nonlinear_arith);
            lemma_congruent_mul(pa * pb, pi - 1, ph, pi - 1, pi);
            lemma_minus_one_squared(pi);
            assert(congruent(pa * pow(bi, 2 * next), 1, pi));
        }
    }
}

/// The negative of a root is a root.
pub proof fn lemma_opposite_square(w: int, p: int)
    requires
        p > 0,
    ensures
        congruent((p - w) * (p - w), w * w, p),
{
    assert((p - w) * (p - w) == p * (p - 2 * w) + w * w) by (nonlinear_arith);
    lemma_mod_multiples_vanish(p - 2 * w, w * w, p);
}

/// In a prime field of at least 3 elements, whatever `sqrt` returns for
/// `a` are square roots of `a`: both square to `a` modulo the base, and the
/// second is the base minus the first. For an `a` below the base the
/// squares are `a` itself.
pub proof fn lemma_sqrt_roots(a: nat, p: nat)
    requires
        is_prime(p),
        p >= 3,
        sqrt_spec(a, p) is Some,
    ensures
        ({
            let (w1, w2) = sqrt_spec(a, p).unwrap();
            &&& w1 < p
            &&& w2 == p - w1
            &&& (w1 * w1) % p == a % p
            &&& (w2 * w2) % p == a % p
            &&& a < p ==> (w1 * w1) % p == a && (w2 * w2) % p == a
        }),
{
    let pi = p as int;
    let ai = a as int;
    lemma_odd_prime(p);
    let h = ((p - 1) / 2) as nat;
    let (w1, w2) = sqrt_spec(a, p).unwrap();
    if a < p {
        lemma_small_mod(a, p);
    }
    lemma_small_mod(1, p);
    if 4nat % (p + 1) == 0 {
        if p + 1 > 4 {
            lemma_small_mod(4, p + 1);
        }
        assert(p == 3);
        assert(h == 1);
        lemma_pow1(ai);
        assert(a % 3 == 1);
        assert(w1 == 1);
        assert(w2 == 2);
        assert(w1 * w1 == 1 && w2 * w2 == 4) by (nonlinear_arith)
            requires
                w1 == 1,
                w2 == 2,
        ;
    } else {
        let b = first_nonresidue(p, 0).unwrap();
        lemma_first_nonresidue(p, 0);
        let bi = b as int;
        let l = two_adic_order(h);
        let t = odd_part(h);
        lemma_two_adic_split(h);
        lemma_sqrt_invariant(a, b, p, l);
        let n = sqrt_n(a, b, p, l);
        lemma2_to64();
        assert(pow2(0) * t == t) by (nonlinear_arith)
            requires
                pow2(0) == 1,
        ;
        let e = ((t + 1) / 2) as nat;
        assert(e + e == t + 1);
        let ra = power_mod(a, e, p) as int;
        let rb = power_mod(b, n, p) as int;
        let pa = pow(ai, e);
        let pb = pow(bi, n);
        lemma_power_mod_congruent(a, e, p);
        lemma_power_mod_congruent(b, n, p);
        lemma_congruent_mul(ra, pa, rb, pb, pi);
        lemma_congruent_residue(ra * rb, pi);
        assert(w1 as int == (ra * rb) % pi);
        lemma_congruent_mul(w1 as int, pa * pb, w1 as int, pa * pb, pi);
        lemma_pow_adds(ai, e, e);
        lemma_pow_adds(ai, t, 1);
        lemma_pow1(ai);
        lemma_pow_adds(bi, n, n);
        let pt = pow(ai, t);
        let pbb = pow(bi, 2 * n);
        assert((pa * pb) * (pa * pb) == ai * (pt * pbb)) by (nonlinear_arith)
            requires
                pa * pa == pt * ai,
                pb * pb == pbb,
        ;
        lemma_congruent_mul(ai, ai, pt * pbb, 1, pi);
        assert(ai * 1 == ai);
        assert((w1 * w1) % p == a % p);
        lemma_opposite_square(w1 as int, pi);
        lemma_mod_bound(ra * rb, pi);
    }
}

} // verus!
