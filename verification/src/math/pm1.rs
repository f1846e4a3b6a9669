//! Factorisation by the p - 1 method, which finds the prime factors `p` of
//! a number for which `p - 1` has only small prime factors.

use vstd::prelude::*;
use vstd::arithmetic::power::{pow, lemma_pow1, lemma_pow_adds};
use vstd::arithmetic::div_mod::{
    lemma_fundamental_div_mod, lemma_mod_bound, lemma_small_mod, lemma_mul_mod_noop_general,
};
use vstd::string::StringExecFns;
use num_bigint::BigInt;
use primes::{PrimeSet, Sieve};
use crate::math::bigint::{big_value, big_from_u128, big_to_u128, big_mul, big_clone};
use crate::math::modexp::{modular_exponentiation, square_multiply, reduced_power};
use crate::math::gcd::gcd;
use crate::math::number::{
    is_prime, gcd as gcd_spec, prime_test, PRIME_TEST_LIMIT, lemma_gcd_divides, lemma_multiple_mod,
    lemma_divisor_bound, lemma_divides_combination,
};
use crate::math::factorise::lemma_divides_transitive;
use crate::text::{decimal_digits, append_number};

verus! {

/// The greatest prime that the method may be asked to go up to.
pub const MAX_PRIMES: u128 = 80;

/// The sequence is in strictly ascending order.
pub open spec fn strictly_ascending(s: Seq<u128>) -> bool {
    forall|i: int, j: int| 0 <= i < j < s.len() ==> s[i] < s[j]
}

/// Every number of the sequence is a prime factor of `n`.
pub open spec fn prime_factors_of(s: Seq<u128>, n: nat) -> bool {
    forall|k: int| 0 <= k < s.len() ==> is_prime(#[trigger] s[k] as nat) && n % (s[k] as nat) == 0
}

/// The greatest power of `p` below `limit` that is reached from `power` by
/// multiplying with `p`; `power` itself where the next one is not below.
pub open spec fn top_power(power: nat, p: nat, limit: nat) -> nat
    decreases limit - power,
{
    if power < power * p && power * p < limit {
        top_power(power * p, p, limit)
    } else {
        power
    }
}

/// The exponent of the method up to the prime `upto`: the product, over
/// the primes `p` up to `upto`, of the greatest power of `p` that is below
/// `limit`, or of `p` itself where its square is not below.
pub open spec fn smooth_exponent_spec(upto: nat, limit: nat) -> nat
    decreases upto,
{
    if upto < 2 {
        1
    } else if is_prime(upto) {
        top_power(upto, upto, limit) * smooth_exponent_spec((upto - 1) as nat, limit)
    } else {
        smooth_exponent_spec((upto - 1) as nat, limit)
    }
}

/// The exponent does not change over a stretch without primes.
pub proof fn lemma_exponent_gap(from: nat, upto: nat, limit: nat)
    requires
        from <= upto,
        forall|r: nat| from < r <= upto ==> !is_prime(r),
    ensures
        smooth_exponent_spec(upto, limit) == smooth_exponent_spec(from, limit),
    decreases upto - from,
{
    if from < upto {
        lemma_exponent_gap(from, (upto - 1) as nat, limit);
        assert(!is_prime(upto));
    }
}

/// The exponent is at least 1.
pub proof fn lemma_exponent_positive(upto: nat, limit: nat)
    ensures
        smooth_exponent_spec(upto, limit) >= 1,
    decreases upto,
{
    if upto >= 2 {
        lemma_exponent_positive((upto - 1) as nat, limit);
        lemma_top_power_positive(upto, upto, limit);
        let t = top_power(upto, upto, limit);
        let rest = smooth_exponent_spec((upto - 1) as nat, limit);
        assert(t * rest >= 1) by (nonlinear_arith)
            requires
                t >= 1,
                rest >= 1,
        ;
    }
}

/// The greatest power is no smaller than the power it starts from.
pub proof fn lemma_top_power_positive(power: nat, p: nat, limit: nat)
    ensures
        top_power(power, p, limit) >= power,
    decreases limit - power,
{
    if power < power * p && power * p < limit {
        lemma_top_power_positive(power * p, p, limit);
    }
}

/// The entry at index `i` of a strictly ascending list that starts at 2 or
/// above is at least `i + 2`.
pub proof fn lemma_ascending_bound(list: Seq<u64>, i: int)
    requires
        0 <= i < list.len(),
        list[0] >= 2,
        forall|a: int, b: int| 0 <= a < b < list.len() ==> list[a] < list[b],
    ensures
        list[i] >= i + 2,
    decreases i,
{
    if i > 0 {
        lemma_ascending_bound(list, i - 1);
    }
}

/// The primes in ascending order, as many as asked for, from the sieve of
/// `primes`: `Sieve::new` and `PrimeSet::iter`.
///
/// Trusted: the result holds `count` primes in strictly ascending order,
/// and no prime below its last one is missing.
#[verifier::external_body]
fn first_primes(count: usize) -> (res: Vec<u64>)
    requires
        count <= MAX_PRIMES,
    ensures
        res@.len() == count,
        forall|i: int| 0 <= i < res@.len() ==> is_prime(#[trigger] res@[i] as nat),
        forall|i: int, j: int| 0 <= i < j < res@.len() ==> res@[i] < res@[j],
        forall|q: nat, j: int|
            0 <= j < res@.len() && is_prime(q) && q < res@[j] ==> exists|i: int|
                0 <= i < j && #[trigger] res@[i] == q,
{
    let mut pset = Sieve::new();
    pset.iter().take(count).collect()
}

/// The text of a message that ends in a number.
fn message_with_number(prefix: &str, n: u128) -> (res: String)
    ensures
        res@ == prefix@ + decimal_digits(n as nat),
{
    let mut buf = String::from_str(prefix);
    append_number(&mut buf, n);
    buf
}

/// The exponent of the method, as a big integer.
fn smooth_exponent(max_prime: u128) -> (k: BigInt)
    requires
        max_prime <= MAX_PRIMES,
    ensures
        big_value(k) == smooth_exponent_spec(max_prime as nat, max_prime as nat),
        big_value(k) >= 1,
{
    let primes = first_primes(max_prime as usize);
    let ghost limit = max_prime as nat;
    let mut k = big_from_u128(1);
    let mut index: usize = 0;
    let ghost mut done: nat = 1;
    let mut complete: bool = false;
    while index < primes.len()
        invariant_except_break
            !complete,
        invariant
            max_prime <= MAX_PRIMES,
            limit == max_prime,
            primes@.len() == max_prime,
            index <= primes@.len(),
            done <= limit || done == 1,
            index > 0 ==> done == primes@[index - 1],
            index == 0 ==> done == 1,
            big_value(k) == smooth_exponent_spec(done, limit),
            forall|i: int| 0 <= i < primes@.len() ==> is_prime(#[trigger] primes@[i] as nat),
            forall|i: int, j: int| 0 <= i < j < primes@.len() ==> primes@[i] < primes@[j],
            forall|q: nat, j: int|
                0 <= j < primes@.len() && is_prime(q) && q < primes@[j] ==> exists|i: int|
                    0 <= i < j && #[trigger] primes@[i] == q,
        ensures
            complete ==> big_value(k) == smooth_exponent_spec(limit, limit),
            !complete ==> index == primes@.len() && big_value(k) == smooth_exponent_spec(
                done,
                limit,
            ) && (done <= limit || done == 1) && (index > 0 ==> done == primes@[index - 1]) && (
            index == 0 ==> done == 1),
        decreases primes@.len() - index,
    {
        let num: u128 = primes[index] as u128;
        assert(is_prime(primes@[index as int] as nat));
        proof {
            // no prime lies between the last one taken and this one
            assert forall|r: nat| done < r < num implies !is_prime(r) by {
                if is_prime(r) {
                    let i = choose|i: int| 0 <= i < index && #[trigger] primes@[i] == r;
                    if i < index - 1 {
                        assert(primes@[i] < primes@[index - 1]);
                    }
                }
            }
        }
        if num > max_prime {
            proof {
                lemma_exponent_gap(done, limit, limit);
            }
            complete = true;
            break;
        }
        proof {
            lemma_exponent_gap(done, (num - 1) as nat, limit);
        }
        let mut power: u128 = num;
        assert(power * num <= 80 * 80) by (nonlinear_arith)
            requires
                power <= 80,
                num <= 80,
        ;
        let mut next: u128 = power * num;
        while next < max_prime
            invariant
                2 <= num <= max_prime <= MAX_PRIMES,
                limit == max_prime,
                1 <= power <= max_prime,
                next == power * num,
                top_power(power as nat, num as nat, limit) == top_power(
                    num as nat,
                    num as nat,
                    limit,
                ),
            decreases max_prime - power,
        {
            assert(power * num >= power * 2) by (nonlinear_arith)
                requires
                    num >= 2,
                    power >= 1,
            ;
            power = next;
            assert(power * num <= 80 * 80) by (nonlinear_arith)
                requires
                    power <= 80,
                    num <= 80,
            ;
            next = power * num;
        }
        assert(top_power(power as nat, num as nat, limit) == power);
        k = big_mul(&big_from_u128(power), &k);
        proof {
            done = num as nat;
        }
        index = index + 1;
    }
    proof {
        lemma_exponent_positive(limit, limit);
        if !complete {
            // a list of as many primes as the limit cannot stay below it
            if index > 0 {
                lemma_ascending_bound(primes@, index - 1);
                assert(false);
            }
            assert(limit == 0);
        }
    }
    k
}

/// A multiple of `n` to a power of at least 1 is a multiple of `n`.
pub proof fn lemma_power_of_multiple(a: int, k: nat, n: int)
    requires
        n > 0,
        k >= 1,
        a % n == 0,
    ensures
        pow(a, k) % n == 0,
{
    lemma_pow_adds(a, 1, (k - 1) as nat);
    lemma_pow1(a);
    lemma_mul_mod_noop_general(a, pow(a, (k - 1) as nat), n);
    assert(0 * (pow(a, (k - 1) as nat) % n) == 0);
    lemma_small_mod(0, n as nat);
}

/// A number that is one less than a multiple of `n` shares no factor with
/// `n`.
pub proof fn lemma_gcd_of_predecessor(x: nat, n: nat)
    requires
        n >= 2,
        (x + 1) % n == 0,
    ensures
        gcd_spec(x, n) == 1,
{
    lemma_gcd_divides(x, n);
    let g = gcd_spec(x, n);
    assert(g > 0);
    // g divides n, n divides x + 1, and g divides x: so g divides 1
    lemma_divides_transitive(g, n, x + 1);
    lemma_divides_combination(g as int, (x + 1) as int, x as int, 1, -1);
    assert(1 * ((x + 1) as int) + (-1) * (x as int) == 1);
    lemma_divisor_bound(g as int, 1);
}

/// Puts `x` into a strictly ascending list, unless it is there already:
/// the list then holds what it held before, and `x`.
fn insert_ascending(list: &mut Vec<u128>, x: u128)
    requires
        strictly_ascending(old(list)@),
    ensures
        strictly_ascending(final(list)@),
        final(list)@.to_set() == old(list)@.to_set().insert(x),
        final(list)@.contains(x),
        forall|k: int| 0 <= k < old(list)@.len() ==> final(list)@.contains(#[trigger] old(list)@[k]),
        forall|k: int|
            0 <= k < final(list)@.len() ==> (#[trigger] final(list)@[k] == x || old(list)@.contains(
                final(list)@[k],
            )),
{
    let ghost start = list@;
    let mut at: usize = 0;
    while at < list.len() && list[at] < x
        invariant
            list@ == start,
            at <= list@.len(),
            forall|i: int| 0 <= i < at ==> list@[i] < x,
        decreases list@.len() - at,
    {
        at = at + 1;
    }
    if at < list.len() && list[at] == x {
        assert(list@[at as int] == x);
        assert forall|k: int| 0 <= k < start.len() implies list@.contains(#[trigger] start[k]) by {
            assert(list@[k] == start[k]);
        }
        assert forall|k: int| 0 <= k < list@.len() implies (#[trigger] list@[k] == x
            || start.contains(list@[k])) by {
            assert(start[k] == list@[k]);
        }
        assert(list@.to_set() =~= start.to_set().insert(x));
        return ;
    }
    list.insert(at, x);
    proof {
        assert(list@ =~= start.insert(at as int, x));
        assert(list@[at as int] == x);
        assert forall|k: int| 0 <= k < start.len() implies list@.contains(#[trigger] start[k]) by {
            if k < at {
                assert(list@[k] == start[k]);
            } else {
                assert(list@[k + 1] == start[k]);
            }
        }
        assert forall|k: int| 0 <= k < list@.len() implies (#[trigger] list@[k] == x
            || start.contains(list@[k])) by {
            if k < at {
                assert(start[k] == list@[k]);
            } else if k > at {
                assert(start[k - 1] == list@[k]);
            }
        }
        assert forall|i: int, j: int| 0 <= i < j < list@.len() implies list@[i] < list@[j] by {
            if i < at && j > at {
                assert(list@[i] == start[i]);
                assert(list@[j] == start[j - 1]);
            } else if i > at {
                assert(list@[i] == start[i - 1]);
                assert(list@[j] == start[j - 1]);
            } else if j < at {
                assert(list@[i] == start[i]);
                assert(list@[j] == start[j]);
            } else if i == at {
                assert(list@[j] == start[j - 1]);
            }
        }
        assert forall|v: u128| list@.to_set().contains(v) <==> start.to_set().insert(x).contains(
            v,
        ) by {
            if list@.contains(v) {
                let i = choose|i: int| 0 <= i < list@.len() && list@[i] == v;
                assert(list@[i] == x || start.contains(list@[i]));
            }
            if start.contains(v) {
                let i = choose|i: int| 0 <= i < start.len() && start[i] == v;
                assert(list@.contains(start[i]));
            }
        }
        assert(list@.to_set() =~= start.to_set().insert(x));
    }
}

/// Puts every number of `more` into the strictly ascending `list`.
fn insert_all(list: &mut Vec<u128>, more: &Vec<u128>)
    requires
        strictly_ascending(old(list)@),
    ensures
        strictly_ascending(final(list)@),
        final(list)@.to_set() == old(list)@.to_set().union(more@.to_set()),
        forall|k: int| 0 <= k < old(list)@.len() ==> final(list)@.contains(#[trigger] old(list)@[k]),
        forall|k: int| 0 <= k < more@.len() ==> final(list)@.contains(#[trigger] more@[k]),
        forall|k: int|
            0 <= k < final(list)@.len() ==> (more@.contains(#[trigger] final(list)@[k]) || old(
                list,
            )@.contains(final(list)@[k])),
{
    let ghost start = list@;
    let mut index: usize = 0;
    while index < more.len()
        invariant
            index <= more@.len(),
            strictly_ascending(list@),
            forall|k: int| 0 <= k < start.len() ==> list@.contains(#[trigger] start[k]),
            forall|k: int| 0 <= k < index ==> list@.contains(#[trigger] more@[k]),
            forall|k: int|
                0 <= k < list@.len() ==> (more@.contains(#[trigger] list@[k]) || start.contains(
                    list@[k],
                )),
        decreases more@.len() - index,
    {
        let ghost before = list@;
        insert_ascending(list, more[index]);
        proof {
            assert forall|k: int| 0 <= k < start.len() implies list@.contains(#[trigger] start[k]) by {
                let i = choose|i: int| 0 <= i < before.len() && before[i] == start[k];
                assert(list@.contains(before[i]));
            }
            assert forall|k: int| 0 <= k < index + 1 implies list@.contains(#[trigger] more@[k]) by {
                if k < index {
                    let i = choose|i: int| 0 <= i < before.len() && before[i] == more@[k];
                    assert(list@.contains(before[i]));
                }
            }
            assert forall|k: int| 0 <= k < list@.len() implies (more@.contains(#[trigger] list@[k])
                || start.contains(list@[k])) by {
                if list@[k] == more@[index as int] {
                    assert(more@.contains(list@[k]));
                } else {
                    let i = choose|i: int| 0 <= i < before.len() && before[i] == list@[k];
                    assert(more@.contains(before[i]) || start.contains(before[i]));
                }
            }
        }
        index = index + 1;
    }
    proof {
        assert forall|v: u128| list@.to_set().contains(v) <==> start.to_set().union(
            more@.to_set(),
        ).contains(v) by {
            if list@.contains(v) {
                let i = choose|i: int| 0 <= i < list@.len() && list@[i] == v;
                assert(more@.contains(list@[i]) || start.contains(list@[i]));
            }
            if start.contains(v) {
                let i = choose|i: int| 0 <= i < start.len() && start[i] == v;
                assert(list@.contains(start[i]));
            }
            if more@.contains(v) {
                let i = choose|i: int| 0 <= i < more@.len() && more@[i] == v;
                assert(list@.contains(more@[i]));
            }
        }
        assert(list@.to_set() =~= start.to_set().union(more@.to_set()));
    }
}

/// The message of a method that found no factor.
pub open spec fn method_fails_text() -> Seq<char> {
    "P minus one does not work for this setup. Use another algorithm or choose a higher max prime."@
}

/// The number that a base is tested with: `a` to the exponent of the
/// method modulo `m`, with `m` in the place of 0, less one.
pub open spec fn pm1_candidate(m: u128, a: u128, max_prime: u128) -> nat {
    let x = reduced_power(
        a as nat,
        smooth_exponent_spec(max_prime as nat, max_prime as nat),
        m as nat,
    );
    ((if x == 0 {
        m as nat
    } else {
        x
    }) - 1) as nat
}

/// The search for factors of `m`, a divisor of `top`, from the base `a` on,
/// with the prime factors `parts` found so far.
///
/// The candidate of the base and `m` have a greatest common divisor `g`. A
/// candidate 0 and `g == m` send the search to the next base, `g == 1` ends
/// it without result, and any other `g` splits `m` into `g` and `m / g`.
/// Two primes end the search. Otherwise what is prime is kept, `g` is
/// searched on its own, as `m / g` is where neither is prime, and the search
/// goes on with `m / g`, or with `g` where `m / g` is prime.
pub open spec fn pm1_run(top: u128, m: u128, a: u128, max_prime: u128, parts: Set<u128>) -> Result<
    Set<u128>,
    Seq<char>,
>
    decreases top, 0int, m, top - a,
{
    let c = pm1_candidate(m, a, max_prime);
    let g = gcd_spec(c, m as nat) as u128;
    let q = (m / g) as u128;
    if c == 0 || (g == m && g != 1) {
        if a < top {
            pm1_run(top, m, (a + 1) as u128, max_prime, parts)
        } else {
            Err(Seq::empty())
        }
    } else if g == 1 {
        Err(method_fails_text())
    } else if !(1 < g < m && 1 < q < m && m <= top) {
        Err(Seq::empty())
    } else if is_prime(q as nat) && is_prime(g as nat) {
        Ok(parts.insert(g).insert(q))
    } else if is_prime(g as nat) {
        match pm1_spec(g, max_prime) {
            Ok(found) => pm1_run(top, q, a, max_prime, parts.insert(g).union(found)),
            Err(msg) => Err(msg),
        }
    } else if is_prime(q as nat) {
        match pm1_spec(g, max_prime) {
            Ok(found) => pm1_run(top, g, a, max_prime, parts.insert(q).union(found)),
            Err(msg) => Err(msg),
        }
    } else {
        match pm1_spec(g, max_prime) {
            Ok(found) => match pm1_spec(q, max_prime) {
                Ok(more) => pm1_run(top, q, a, max_prime, parts.union(found).union(more)),
                Err(msg) => Err(msg),
            },
            Err(msg) => Err(msg),
        }
    }
}

/// What the p - 1 method finds for `n`: the set of prime factors, or the
/// text of the refusal.
pub open spec fn pm1_spec(n: u128, max_prime: u128) -> Result<Set<u128>, Seq<char>>
    decreases n, 1int, 0int, 0int,
{
    if n < 3 {
        Err("n too small: "@ + decimal_digits(n as nat))
    } else if max_prime > MAX_PRIMES {
        Err("max_prime too large: "@ + decimal_digits(max_prime as nat))
    } else if is_prime(n as nat) {
        Ok(Set::empty().insert(n))
    } else {
        pm1_run(n, n, 2, max_prime, Set::empty())
    }
}

/// The result `res` is what the method finds: the same refusal, or the
/// found set as a list in strictly ascending order.
pub open spec fn pm1_agrees(found: Result<Set<u128>, Seq<char>>, res: Result<Vec<u128>, String>) -> bool {
    match found {
        Ok(set) => res matches Ok(list) && strictly_ascending(list@) && list@.to_set() == set,
        Err(text) => res matches Err(msg) && msg@ == text,
    }
}

/// What `p_minus_one` may return for `n` and `max_prime`.
pub open spec fn pm1_outcome(n: u128, max_prime: u128, res: Result<Vec<u128>, String>) -> bool {
    if n < 3 {
        res matches Err(msg) && msg@ == "n too small: "@ + decimal_digits(n as nat)
    } else if max_prime > MAX_PRIMES {
        res matches Err(msg) && msg@ == "max_prime too large: "@ + decimal_digits(max_prime as nat)
    } else if is_prime(n as nat) {
        res matches Ok(list) && list@ == seq![n]
    } else {
        match res {
            Ok(list) => list@.len() >= 1 && strictly_ascending(list@) && prime_factors_of(
                list@,
                n as nat,
            ),
            Err(msg) => msg@ == method_fails_text() || msg@ == "n too small: "@ + decimal_digits(2),
        }
    }
}

/// Prime factors of `n` by the p - 1 method.
///
/// Numbers below 3 and a `max_prime` above `MAX_PRIMES` are refused, and a
/// prime `n` is its own only factor. For any other `n` the method raises
/// the bases 2, 3, ... to a fixed exponent made of the small primes and
/// looks for a common factor with `n`; each factor found is split further in
/// the same way. What comes back, if the method works, are prime factors of
/// `n` in strictly ascending order. The method gives up where a base shares
/// no factor with `n`, and where it is left with the factor 2.
pub fn p_minus_one(n: u128, max_prime: u128, verbose: bool) -> (res: Result<Vec<u128>, String>)
    requires
        n <= PRIME_TEST_LIMIT,
    ensures
        pm1_agrees(pm1_spec(n, max_prime), res),
        pm1_outcome(n, max_prime, res),
    decreases n,
{
    if n < 3 {
        return Err(message_with_number("n too small: ", n));
    }
    if max_prime > MAX_PRIMES {
        return Err(message_with_number("max_prime too large: ", max_prime));
    }
    if prime_test(n as u64) {
        let mut only: Vec<u128> = Vec::new();
        only.push(n);
        proof {
            assert(only@ =~= seq![n]);
            lemma_multiple_mod(1, n as int);
            assert(only@.to_set() =~= Set::empty().insert(n)) by {
                assert(only@[0] == n);
            }
        }
        return Ok(only);
    }
    let k = smooth_exponent(max_prime);
    let mut prime_parts: Vec<u128> = Vec::new();
    let mut a: u128 = 2;
    let mut m: u128 = n;
    proof {
        lemma_multiple_mod(1, m as int);
        assert(prime_parts@.to_set() =~= Set::<u128>::empty());
    }
    loop
        invariant_except_break
            pm1_spec(n, max_prime) == pm1_run(n, m, a, max_prime, prime_parts@.to_set()),
        invariant
            big_value(k) == smooth_exponent_spec(max_prime as nat, max_prime as nat),
            3 <= n <= PRIME_TEST_LIMIT,
            !is_prime(n as nat),
            max_prime <= MAX_PRIMES,
            2 <= m <= n,
            n % m == 0,
            2 <= a <= n,
            big_value(k) >= 1,
            strictly_ascending(prime_parts@),
            prime_factors_of(prime_parts@, n as nat),
        ensures
            prime_parts@.len() >= 1,
            strictly_ascending(prime_parts@),
            prime_factors_of(prime_parts@, n as nat),
            pm1_spec(n, max_prime) == Ok::<Set<u128>, Seq<char>>(prime_parts@.to_set()),
        decreases m, n - a,
    {
        let ghost kv = big_value(k);
        let power = modular_exponentiation(
            big_from_u128(a),
            big_clone(&k),
            big_from_u128(m),
            false,
        );
        proof {
            if kv >= 2 {
                lemma_mod_bound(pow(a as int, kv as nat), m as int);
            } else {
                assert(square_multiply(a as int, kv, m as int) == a);
            }
        }
        let mut akn1: u128 = big_to_u128(&power).unwrap();
        let ghost x = akn1;
        if akn1 == 0 {
            akn1 = m;
        }
        let akn1 = akn1 - 1;
        proof {
            assert(x == reduced_power(a as nat, kv as nat, m as nat));
            assert(akn1 == pm1_candidate(m, a, max_prime));
            // a base that is a multiple of m ends the search: see below
            if a % m == 0 {
                if kv >= 2 {
                    lemma_power_of_multiple(a as int, kv as nat, m as int);
                    assert(x == 0);
                    assert(akn1 + 1 == m);
                    lemma_multiple_mod(1, m as int);
                } else {
                    assert(x == a);
                    assert(akn1 + 1 == a);
                }
                lemma_gcd_of_predecessor(akn1 as nat, m as nat);
            }
        }
        if akn1 == 0 {
            a = a + 1;
            continue ;
        }
        let g = gcd(akn1, m);
        if g == 1 {
            return Err(
                "P minus one does not work for this setup. Use another algorithm or choose a higher max prime.".to_owned(),
            );
        } else if g == m {
            a = a + 1;
        } else {
            let ghost old_m = m;
            proof {
                lemma_gcd_divides(akn1 as nat, m as nat);
                lemma_divisor_bound(g as int, m as int);
                lemma_fundamental_div_mod(m as int, g as int);
                let q = (m / g) as int;
                assert(q >= 2 && q < m) by (nonlinear_arith)
                    requires
                        m == g * q,
                        1 < g < m,
                ;
                assert(m as int == q * (g as int)) by (nonlinear_arith)
                    requires
                        m == g * q,
                ;
                lemma_multiple_mod(g as int, q);
                lemma_divides_transitive(q as nat, m as nat, n as nat);
                lemma_divides_transitive(g as nat, m as nat, n as nat);
            }
            m = m / g;
            let n_prime = prime_test(m as u64);
            let g_prime = prime_test(g as u64);
            if n_prime && g_prime {
                insert_ascending(&mut prime_parts, g);
                insert_ascending(&mut prime_parts, m);
                proof {
                    assert(prime_parts@.len() >= 1) by {
                        assert(prime_parts@.contains(m));
                    }
                }
                break ;
            } else if g_prime {
                insert_ascending(&mut prime_parts, g);
                match p_minus_one(g, max_prime, false) {
                    Ok(primes_of) => {
                        proof {
                            lemma_pm1_factors(g, max_prime, primes_of);
                            lemma_factors_carry(primes_of@, g as nat, n as nat);
                        }
                        insert_all(&mut prime_parts, &primes_of);
                    },
                    Err(e) => {
                        return Err(e);
                    },
                }
            } else if n_prime {
                insert_ascending(&mut prime_parts, m);
                match p_minus_one(g, max_prime, false) {
                    Ok(primes_of) => {
                        proof {
                            lemma_pm1_factors(g, max_prime, primes_of);
                            lemma_factors_carry(primes_of@, g as nat, n as nat);
                        }
                        insert_all(&mut prime_parts, &primes_of);
                    },
                    Err(e) => {
                        return Err(e);
                    },
                }
                m = g;
            } else {
                match p_minus_one(g, max_prime, false) {
                    Ok(primes_of) => {
                        proof {
                            lemma_pm1_factors(g, max_prime, primes_of);
                            lemma_factors_carry(primes_of@, g as nat, n as nat);
                        }
                        insert_all(&mut prime_parts, &primes_of);
                    },
                    Err(e) => {
                        return Err(e);
                    },
                }
                match p_minus_one(m, max_prime, false) {
                    Ok(primes_of) => {
                        proof {
                            lemma_pm1_factors(m, max_prime, primes_of);
                            lemma_factors_carry(primes_of@, m as nat, n as nat);
                        }
                        insert_all(&mut prime_parts, &primes_of);
                    },
                    Err(e) => {
                        return Err(e);
                    },
                }
            }
        }
    }
    Ok(prime_parts)
}

/// Whatever the method returns as factors are prime factors, in strictly
/// ascending order, and at least one.
pub proof fn lemma_pm1_factors(n: u128, max_prime: u128, list: Vec<u128>)
    requires
        pm1_outcome(n, max_prime, Ok(list)),
    ensures
        list@.len() >= 1,
        strictly_ascending(list@),
        prime_factors_of(list@, n as nat),
{
    if is_prime(n as nat) {
        lemma_multiple_mod(1, n as int);
    }
}

/// Prime factors of a divisor of `n` are prime factors of `n`.
pub proof fn lemma_factors_carry(s: Seq<u128>, d: nat, n: nat)
    requires
        d > 0,
        n % d == 0,
        prime_factors_of(s, d),
    ensures
        prime_factors_of(s, n),
{
    assert forall|k: int| 0 <= k < s.len() implies is_prime(#[trigger] s[k] as nat) && n % (
    s[k] as nat) == 0 by {
        lemma_divides_transitive(s[k] as nat, d, n);
    }
}

} // verus!
