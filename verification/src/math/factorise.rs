//! Factorisation by trial division.

use vstd::prelude::*;
use vstd::arithmetic::div_mod::{
    lemma_fundamental_div_mod, lemma_mod_bound, lemma_div_is_ordered_by_denominator,
};
use crate::math::number::{is_prime, lemma_multiple_mod};

verus! {

/// The product of the numbers of a sequence; 1 for the empty sequence.
pub open spec fn product(factors: Seq<u128>) -> nat
    decreases factors.len(),
{
    if factors.len() == 0 {
        1
    } else {
        product(factors.drop_last()) * (factors.last() as nat)
    }
}

/// No number from 2 up to, but not including, `bound` divides `n`.
pub open spec fn no_divisor_below(n: nat, bound: nat) -> bool {
    forall|d: nat| 2 <= d < bound ==> #[trigger] (n % d) != 0
}

/// The sequence is in ascending order, equal neighbours allowed.
pub open spec fn ascending(factors: Seq<u128>) -> bool {
    forall|i: int, j: int| 0 <= i <= j < factors.len() ==> factors[i] <= factors[j]
}

/// `factors` is the factorisation of `n`: primes in ascending order whose
/// product is `n`. The numbers 0 and 1 have the empty factorisation.
pub open spec fn factorisation(n: u128, factors: Seq<u128>) -> bool {
    &&& n <= 1 ==> factors.len() == 0
    &&& n >= 2 ==> product(factors) == n
    &&& forall|k: int| 0 <= k < factors.len() ==> is_prime(#[trigger] factors[k] as nat)
    &&& ascending(factors)
}

/// What divides a divisor of `n` divides `n`.
pub proof fn lemma_divides_transitive(d: nat, m: nat, n: nat)
    requires
        d > 0,
        m > 0,
        m % d == 0,
        n % m == 0,
    ensures
        n % d == 0,
{
    lemma_fundamental_div_mod(m as int, d as int);
    lemma_fundamental_div_mod(n as int, m as int);
    let q1 = (m / d) as int;
    let q2 = (n / m) as int;
    assert(n as int == (q1 * q2) * (d as int)) by (nonlinear_arith)
        requires
            m as int == (d as int) * q1,
            n as int == (m as int) * q2,
    ;
    lemma_multiple_mod(q1 * q2, d as int);
}

/// A divisor of the quotient `n / m` divides `n`.
pub proof fn lemma_divides_quotient(d: nat, m: nat, n: nat)
    requires
        d > 0,
        m > 0,
        n % m == 0,
        (n / m) % d == 0,
    ensures
        n % d == 0,
{
    lemma_fundamental_div_mod(n as int, m as int);
    lemma_fundamental_div_mod((n / m) as int, d as int);
    let q = (n / m) as int;
    let k = q / (d as int);
    assert(n as int == (m as int * k) * (d as int)) by (nonlinear_arith)
        requires
            n as int == (m as int) * q,
            q == (d as int) * k,
    ;
    lemma_multiple_mod(m as int * k, d as int);
}

/// The least divisor above 1 is prime.
pub proof fn lemma_least_divisor_prime(i: nat, n: nat)
    requires
        i >= 2,
        n % i == 0,
        no_divisor_below(n, i),
    ensures
        is_prime(i),
{
    assert forall|d: nat| 1 < d < i implies #[trigger] (i % d) != 0 by {
        if i % d == 0 {
            lemma_divides_transitive(d, i, n);
            assert(n % d != 0);
        }
    }
}

/// A number above 1 without a divisor up to its square root is prime.
pub proof fn lemma_no_small_divisor_prime(n: nat, i: nat)
    requires
        n >= 2,
        i >= 2,
        no_divisor_below(n, i),
        i > n / i,
    ensures
        is_prime(n),
{
    assert forall|d: nat| 1 < d < n implies #[trigger] (n % d) != 0 by {
        if n % d == 0 {
            // d and n / d both divide n, so both are at least i
            assert(d >= i);
            let c = n / d;
            lemma_fundamental_div_mod(n as int, d as int);
            assert(n == d * c);
            assert(n as int == (c as int) * (d as int)) by (nonlinear_arith)
                requires
                    n as int == (d as int) * (c as int),
            ;
            assert(c >= 2) by (nonlinear_arith)
                requires
                    n == d * c,
                    d < n,
                    d > 1,
            ;
            lemma_multiple_mod(d as int, c as int);
            assert(n % c == 0);
            assert(c >= i);
            lemma_div_is_ordered_by_denominator(n as int, i as int, d as int);
            assert(c <= n / i);
        }
    }
}

/// The prime factors of `n` in ascending order, each as often as it
/// divides `n`. The numbers 0 and 1 have none. `verbose` changes nothing.
pub fn prime_factors(n: u128, verbose: bool) -> (factors: Vec<u128>)
    ensures
        factorisation(n, factors@),
{
    let ghost start = n;
    let mut n = n;
    let mut i: u128 = 2;
    let mut factors: Vec<u128> = Vec::new();
    if n <= 1 {
        return factors;
    }
    assert(product(factors@) * n == n) by (nonlinear_arith)
        requires
            product(factors@) == 1,
    ;
    while i <= n / i
        invariant
            start >= 2,
            n >= 1,
            i >= 2,
            product(factors@) * n == start,
            no_divisor_below(n as nat, i as nat),
            forall|k: int| 0 <= k < factors@.len() ==> is_prime(#[trigger] factors@[k] as nat),
            forall|k: int| 0 <= k < factors@.len() ==> #[trigger] factors@[k] <= i,
            ascending(factors@),
            factors@.len() == 0 ==> n == start,
        decreases 2 * n - i,
    {
        proof {
            lemma_fundamental_div_mod(n as int, i as int);
            lemma_mod_bound(n as int, i as int);
            assert(i * (n / i) >= i * i) by (nonlinear_arith)
                requires
                    i <= n / i,
                    i >= 2,
            ;
            assert(i * i >= 2 * i) by (nonlinear_arith)
                requires
                    i >= 2,
            ;
        }
        if n % i > 0 {
            i = i + 1;
        } else {
            let ghost before = factors@;
            let ghost old_n = n;
            proof {
                lemma_least_divisor_prime(i as nat, n as nat);
                assert forall|d: nat| 2 <= d < i implies #[trigger] (((n / i) as nat) % d)
                    != 0 by {
                    if ((n / i) as nat) % d == 0 {
                        lemma_divides_quotient(d, i as nat, n as nat);
                    }
                }
            }
            n = n / i;
            factors.push(i);
            proof {
                assert(factors@.drop_last() =~= before);
                assert(product(factors@) == product(before) * (i as nat));
                assert(product(before) * (i as nat) * (n as nat) == product(before) * (
                old_n as nat)) by (nonlinear_arith)
                    requires
                        old_n == i * n,
                ;
                assert(n < old_n) by (nonlinear_arith)
                    requires
                        old_n == i * n,
                        i >= 2,
                        old_n >= 1,
                ;
            }
        }
    }
    if n > 1 {
        let ghost before = factors@;
        proof {
            lemma_no_small_divisor_prime(n as nat, i as nat);
            if n < i {
                lemma_multiple_mod(1, n as int);
                assert((n as nat) % (n as nat) == 0);
            }
        }
        factors.push(n);
        proof {
            assert(factors@.drop_last() =~= before);
        }
    } else {
        assert(product(factors@) * 1 == product(factors@)) by (nonlinear_arith);
    }
    factors
}

} // verus!
