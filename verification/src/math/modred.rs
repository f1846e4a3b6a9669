//! Reduction of a binary polynomial by a relation.
//!
//! An unsigned integer stands for a polynomial over GF(2): bit `i` is the
//! coefficient of `x^i`. Reducing means cancelling the leading term again and
//! again with a shifted copy of the relation.

use vstd::prelude::*;
use vstd::std_specs::bits::{u64_leading_zeros, axiom_u64_leading_zeros};

verus! {

/// The relation, shifted left until its leading bit stands where the leading
/// bit of `poly` stands.
pub open spec fn aligned(poly: u64, relation: u64) -> u64 {
    relation << ((u64_leading_zeros(relation) - u64_leading_zeros(poly)) as u64)
}

/// The reduced polynomial: as long as `poly` is numerically above the
/// relation, its leading term is cancelled with the aligned relation. A
/// polynomial that is not above the relation stays as it is, so the result
/// may still have the relation's degree.
pub open spec fn modred_spec(poly: u64, relation: u64) -> u64
    decreases poly,
    via modred_decreases
{
    if poly <= relation || relation == 0 {
        poly
    } else {
        modred_spec(poly ^ aligned(poly, relation), relation)
    }
}

/// The recursion of `modred_spec` ends: each step makes the polynomial
/// smaller.
#[via_fn]
proof fn modred_decreases(poly: u64, relation: u64) {
    if !(poly <= relation || relation == 0) {
        lemma_step_decreases(poly, relation);
    }
}

/// Two numbers whose leading bits are at the places `tp` and `tr`: the
/// greater has its leading bit no lower, and loses it to the other one
/// shifted up to it.
proof fn lemma_cancel_leading(
    poly: u64,
    rel: u64,
    tp: u64,
    hp: u64,
    tr: u64,
    hr: u64,
    d: u64,
)
    by (bit_vector)
    requires
        tp < 64,
        hp == tp + 1,
        tr < 64,
        hr == tr + 1,
        (poly >> tp) & 1 != 0,
        poly >> hp == 0,
        (rel >> tr) & 1 != 0,
        rel >> hr == 0,
        poly > rel,
    ensures
        tr <= tp,
        d == tp - tr ==> (poly ^ (rel << d)) < poly,
{
}

/// Cancelling the leading term makes the polynomial numerically smaller.
pub proof fn lemma_step_decreases(poly: u64, relation: u64)
    requires
        poly > relation,
        relation > 0,
    ensures
        u64_leading_zeros(poly) <= u64_leading_zeros(relation) < 64,
        (poly ^ aligned(poly, relation)) < poly,
{
    axiom_u64_leading_zeros(poly);
    axiom_u64_leading_zeros(relation);
    let lp = u64_leading_zeros(poly);
    let lr = u64_leading_zeros(relation);
    let tp = (63 - lp) as u64;
    let hp = (64 - lp) as u64;
    let tr = (63 - lr) as u64;
    let hr = (64 - lr) as u64;
    lemma_cancel_leading(poly, relation, tp, hp, tr, hr, (tp - tr) as u64);
}

/// The result never exceeds a non-zero relation, and a polynomial that does
/// not exceed the relation is its own result.
pub proof fn lemma_modred_bound(poly: u64, relation: u64)
    requires
        relation > 0,
    ensures
        modred_spec(poly, relation) <= relation,
        poly <= relation ==> modred_spec(poly, relation) == poly,
    decreases poly,
{
    if poly > relation {
        lemma_step_decreases(poly, relation);
        lemma_modred_bound(poly ^ aligned(poly, relation), relation);
    }
}

/// Modular reduction of the polynomial `poly` by `relation`, both given by
/// their integer representation. It always succeeds. A zero relation cannot
/// cancel anything, so it is accepted only with the zero polynomial.
/// `verbose` changes nothing.
pub fn modred(poly: u64, relation: u64, verbose: bool) -> (res: Result<u64, String>)
    requires
        relation > 0 || poly == 0,
    ensures
        res == Ok::<u64, String>(modred_spec(poly, relation)),
        poly <= relation ==> res == Ok::<u64, String>(poly),
        relation > 0 ==> modred_spec(poly, relation) <= relation,
{
    proof {
        if relation > 0 {
            lemma_modred_bound(poly, relation);
        }
    }
    let mut poly = poly;
    let ghost start = poly;
    if relation > poly {
        return Ok(poly);
    }
    while poly > relation
        invariant
            relation > 0 || poly == 0,
            modred_spec(poly, relation) == modred_spec(start, relation),
        decreases poly,
    {
        proof {
            lemma_step_decreases(poly, relation);
        }
        let difference: u32 = relation.leading_zeros() - poly.leading_zeros();
        poly = poly ^ (relation << difference);
    }
    Ok(poly)
}

} // verus!
