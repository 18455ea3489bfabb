//! Secret polynomials, the commitments that bind a member to one, and the
//! check of a share against a commitment.

use crate::group::{gmul, gpow, group_mul, group_pow, sadd, scalar_add, scalar_mul, smul, G, P, Q};
use crate::group::{
    lemma_generator_exponent_reduces, lemma_generator_power_is_element, lemma_gpow_adds,
    lemma_gpow_multiplies,
};
use crate::order::lemma_generator_injective;
use vstd::arithmetic::div_mod::*;
use vstd::arithmetic::mul::*;
use vstd::arithmetic::power::lemma_pow0;
use vstd::prelude::*;

verus! {

/// The scalar that a word of entropy stands for.
pub open spec fn scalar_of(word: u64) -> u64 {
    (word % Q) as u64
}

/// Value of the polynomial with the given coefficients, constant term first,
/// at `x` in the scalar field.
pub open spec fn evaluate(coefficients: Seq<u64>, x: int) -> int
    decreases coefficients.len(),
{
    if coefficients.len() == 0 {
        0
    } else {
        sadd(coefficients[0] as int, smul(x, evaluate(coefficients.skip(1), x)))
    }
}

/// The commitment to a polynomial: the generator raised to each coefficient.
pub open spec fn commit(coefficients: Seq<u64>) -> Seq<u64> {
    Seq::new(coefficients.len(), |k: int| gpow(G as int, coefficients[k] as nat) as u64)
}

/// The group element that a commitment fixes for the evaluation point `x`:
/// the generator raised to the value of the committed polynomial at `x`.
pub open spec fn commitment_at(commitment: Seq<u64>, x: nat) -> int
    decreases commitment.len(),
{
    if commitment.len() == 0 {
        1
    } else {
        gmul(commitment[0] as int, gpow(commitment_at(commitment.skip(1), x), x))
    }
}

/// The share is the value at `x` of the polynomial behind the commitment.
pub open spec fn share_matches(commitment: Seq<u64>, x: nat, share: int) -> bool {
    0 <= share < Q && gpow(G as int, share as nat) == commitment_at(commitment, x)
}

/// A commitment of the length that the threshold asks for, every entry a
/// group element.
pub open spec fn commitment_well_formed(commitment: Seq<u64>, threshold: nat) -> bool {
    &&& commitment.len() == threshold
    &&& forall|k: int| 0 <= k < commitment.len() ==> 1 <= #[trigger] commitment[k] < P
}

/// The value of a polynomial is a scalar.
pub proof fn lemma_evaluate_is_scalar(coefficients: Seq<u64>, x: int)
    ensures
        0 <= evaluate(coefficients, x) < Q,
{
    if coefficients.len() > 0 {
        lemma_mod_bound(
            coefficients[0] as int + smul(x, evaluate(coefficients.skip(1), x)),
            Q as int,
        );
    }
}

/// Every entry of an honest commitment is a group element.
pub proof fn lemma_commit_well_formed(coefficients: Seq<u64>)
    ensures
        commitment_well_formed(commit(coefficients), coefficients.len()),
{
    assert forall|k: int| 0 <= k < coefficients.len() implies 1 <= #[trigger] commit(
        coefficients,
    )[k] < P by {
        lemma_generator_power_is_element(coefficients[k] as nat);
    }
}

/// A commitment opens to the values of the polynomial it was made from.
pub proof fn lemma_commitment_opens(coefficients: Seq<u64>, x: nat)
    ensures
        share_matches(commit(coefficients), x, evaluate(coefficients, x as int)),
    decreases coefficients.len(),
{
    let g = G as int;
    let xi = x as int;
    lemma_evaluate_is_scalar(coefficients, xi);
    if coefficients.len() == 0 {
        lemma_pow0(g);
    } else {
        let a0 = coefficients[0] as nat;
        let tail = coefficients.skip(1);
        let rest = evaluate(tail, xi);
        lemma_evaluate_is_scalar(tail, xi);
        lemma_commitment_opens(tail, x);
        assert(commit(coefficients).skip(1) =~= commit(tail));
        lemma_generator_power_is_element(a0);
        assert(commit(coefficients)[0] == gpow(g, a0));
        // the generator to the rest, to the x
        lemma_mul_nonnegative(xi, rest);
        let xr: nat = (xi * rest) as nat;
        let xrq: nat = (xr % (Q as nat)) as nat;
        lemma_mod_bound(xr as int, Q as int);
        let e: nat = a0 + xrq;
        lemma_generator_exponent_reduces(e);
        lemma_gpow_adds(g, a0, xrq);
        lemma_generator_exponent_reduces(xr);
        lemma_gpow_multiplies(g, rest as nat, x);
        lemma_mul_is_commutative(xi, rest);
        assert(gpow(g, xrq) == gpow(gpow(g, rest as nat), x));
        assert(evaluate(coefficients, xi) == (e % (Q as nat)) as int);
    }
}

/// Two different scalars cannot both match one commitment at one point.
pub proof fn lemma_one_share_matches(commitment: Seq<u64>, x: nat, share: int, other: int)
    requires
        share_matches(commitment, x, share),
        share_matches(commitment, x, other),
    ensures
        share == other,
{
    lemma_generator_injective(share as nat, other as nat);
}

/// Evaluates a polynomial at `x`.
pub fn evaluate_polynomial(coefficients: &Vec<u64>, x: u64) -> (value: u64)
    ensures
        value == evaluate(coefficients@, x as int),
        value < Q,
{
    let mut value: u64 = 0;
    let mut k: usize = coefficients.len();
    assert(coefficients@.skip(k as int).len() == 0);
    while k > 0
        invariant
            k <= coefficients@.len(),
            value == evaluate(coefficients@.skip(k as int), x as int),
            value < Q,
        decreases k,
    {
        k = k - 1;
        proof {
            let here = coefficients@.skip(k as int);
            assert(here.skip(1) =~= coefficients@.skip(k + 1));
            assert(here[0] == coefficients@[k as int]);
        }
        let term: u64 = scalar_mul(x, value);
        value = scalar_add(coefficients[k], term);
    }
    assert(coefficients@.skip(0) =~= coefficients@);
    value
}

/// Commits to a polynomial.
pub fn commit_polynomial(coefficients: &Vec<u64>) -> (commitment: Vec<u64>)
    ensures
        commitment@ == commit(coefficients@),
{
    let mut commitment: Vec<u64> = Vec::new();
    let mut k: usize = 0;
    while k < coefficients.len()
        invariant
            k <= coefficients@.len(),
            commitment@.len() == k,
            forall|i: int| 0 <= i < k ==> commitment@[i] == commit(coefficients@)[i],
        decreases coefficients@.len() - k,
    {
        commitment.push(group_pow(G, coefficients[k]));
        k = k + 1;
    }
    assert(commitment@ =~= commit(coefficients@));
    commitment
}

/// Computes the group element that a commitment fixes for `x`.
pub fn evaluate_commitment(commitment: &Vec<u64>, x: u64) -> (value: u64)
    ensures
        value == commitment_at(commitment@, x as nat),
        value < P,
{
    let mut value: u64 = 1;
    let mut k: usize = commitment.len();
    assert(commitment@.skip(k as int).len() == 0);
    while k > 0
        invariant
            k <= commitment@.len(),
            value == commitment_at(commitment@.skip(k as int), x as nat),
            value < P,
        decreases k,
    {
        k = k - 1;
        proof {
            let here = commitment@.skip(k as int);
            assert(here.skip(1) =~= commitment@.skip(k + 1));
            assert(here[0] == commitment@[k as int]);
        }
        let raised: u64 = group_pow(value, x);
        value = group_mul(commitment[k], raised);
    }
    assert(commitment@.skip(0) =~= commitment@);
    value
}

/// Tells whether a share is the value at `x` of the committed polynomial.
pub fn check_share(commitment: &Vec<u64>, x: u64, share: u64) -> (ok: bool)
    ensures
        ok == share_matches(commitment@, x as nat, share as int),
{
    if share >= Q {
        return false;
    }
    group_pow(G, share) == evaluate_commitment(commitment, x)
}

/// Tells whether a commitment has the length that the threshold asks for
/// and holds group elements only.
pub fn check_commitment(commitment: &Vec<u64>, threshold: usize) -> (ok: bool)
    ensures
        ok == commitment_well_formed(commitment@, threshold as nat),
{
    if commitment.len() != threshold {
        return false;
    }
    let mut k: usize = 0;
    while k < commitment.len()
        invariant
            k <= commitment@.len(),
            forall|i: int| 0 <= i < k ==> 1 <= #[trigger] commitment@[i] < P,
        decreases commitment@.len() - k,
    {
        if commitment[k] < 1 || commitment[k] >= P {
            return false;
        }
        k = k + 1;
    }
    true
}

} // verus!
