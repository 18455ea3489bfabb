//! Proof of knowledge of a committed constant term: a Schnorr signature
//! whose challenge is derived from the prover's key, the commitment and the
//! nonce commitment, so that a proof made for one member and one commitment
//! does not pass for another.
//!
//! The challenge is a polynomial in those three values over the scalar
//! field. That fixes it exactly; it is no hash, and as little a defence
//! against a determined forger as the group is large.

use crate::group::{
    gmul, gpow, group_mul, group_pow, is_element, sadd, scalar_add, scalar_mul, smul, G, P, Q,
};
use crate::group::{
    lemma_generator_exponent_reduces, lemma_generator_power_is_element, lemma_gpow_adds,
    lemma_gpow_multiplies,
};
use vstd::arithmetic::div_mod::*;
use vstd::arithmetic::mul::*;
use vstd::prelude::*;

verus! {

/// Multiplier of the challenge derivation.
pub const CHALLENGE_MULTIPLIER: u64 = 1103515245;

/// Start value of the challenge derivation.
pub const CHALLENGE_SEED: u64 = 1013904223;

/// What a member broadcasts in the second round: the nonce commitment and
/// the response of a Schnorr proof.
#[derive(Clone, Copy, PartialEq, Eq, Structural, Debug)]
pub struct KnowledgeProof {
    pub nonce_commitment: u64,
    pub response: u64,
}

/// One step of the challenge derivation: takes `value` into the digest.
pub open spec fn absorb(digest: int, value: int) -> int {
    (digest * CHALLENGE_MULTIPLIER + value) % (Q as int)
}

/// The challenge that binds a proof to the prover's public key, to the
/// commitment of the constant term and to the nonce commitment.
pub open spec fn challenge(prover_key: int, constant: int, nonce_commitment: int) -> int {
    absorb(absorb(absorb(CHALLENGE_SEED as int, prover_key), constant), nonce_commitment)
}

/// The proof that the holder of `secret` makes with the given nonce.
pub open spec fn knowledge_proof(secret: u64, nonce: u64, prover_key: u64) -> KnowledgeProof {
    let constant = gpow(G as int, secret as nat);
    let nonce_commitment = gpow(G as int, nonce as nat);
    let c = challenge(prover_key as int, constant, nonce_commitment);
    KnowledgeProof {
        nonce_commitment: nonce_commitment as u64,
        response: sadd(nonce as int, smul(c, secret as int)) as u64,
    }
}

/// The proof shows knowledge of the discrete logarithm of `constant`.
pub open spec fn proof_verifies(prover_key: u64, constant: u64, proof: KnowledgeProof) -> bool {
    let c = challenge(prover_key as int, constant as int, proof.nonce_commitment as int);
    &&& is_element(proof.nonce_commitment as int)
    &&& proof.response < Q
    &&& gpow(G as int, proof.response as nat) == gmul(
        proof.nonce_commitment as int,
        gpow(constant as int, c as nat),
    )
}

/// A challenge is a scalar.
pub proof fn lemma_challenge_is_scalar(prover_key: int, constant: int, nonce_commitment: int)
    ensures
        0 <= challenge(prover_key, constant, nonce_commitment) < Q,
{
    let d = absorb(absorb(CHALLENGE_SEED as int, prover_key), constant);
    lemma_mod_bound(d * CHALLENGE_MULTIPLIER + nonce_commitment, Q as int);
}

/// An honest proof verifies against the commitment to its secret.
pub proof fn lemma_proof_complete(secret: u64, nonce: u64, prover_key: u64)
    ensures
        proof_verifies(
            prover_key,
            gpow(G as int, secret as nat) as u64,
            knowledge_proof(secret, nonce, prover_key),
        ),
{
    let g = G as int;
    let q = Q as nat;
    let constant = gpow(g, secret as nat);
    let big_r = gpow(g, nonce as nat);
    lemma_generator_power_is_element(secret as nat);
    lemma_generator_power_is_element(nonce as nat);
    let c = challenge(prover_key as int, constant, big_r);
    lemma_challenge_is_scalar(prover_key as int, constant, big_r);
    lemma_mul_nonnegative(c, secret as int);
    let cs: nat = (c * secret) as nat;
    let csq: nat = cs % q;
    lemma_mod_bound(cs as int, q as int);
    let e: nat = nonce as nat + csq;
    lemma_mod_bound(e as int, q as int);
    lemma_generator_exponent_reduces(e);
    lemma_gpow_adds(g, nonce as nat, csq);
    lemma_generator_exponent_reduces(cs);
    lemma_gpow_multiplies(g, secret as nat, c as nat);
    lemma_mul_is_commutative(c, secret as int);
    assert(gpow(g, csq) == gpow(constant, c as nat));
    assert(knowledge_proof(secret, nonce, prover_key).response == e % q);
}

fn absorb_value(digest: u64, value: u64) -> (next: u64)
    requires
        digest < Q,
    ensures
        next == absorb(digest as int, value as int),
        next < Q,
{
    proof {
        assert(digest * CHALLENGE_MULTIPLIER < 0x4000_0000_0000_0000) by (nonlinear_arith)
            requires
                digest < 0x8000_0000,
                CHALLENGE_MULTIPLIER < 0x8000_0000,
        ;
        lemma_add_mod_noop_right(digest * CHALLENGE_MULTIPLIER, value as int, Q as int);
    }
    (digest * CHALLENGE_MULTIPLIER + value % Q) % Q
}

/// Derives the challenge of a proof.
pub fn derive_challenge(prover_key: u64, constant: u64, nonce_commitment: u64) -> (c: u64)
    ensures
        c == challenge(prover_key as int, constant as int, nonce_commitment as int),
        c < Q,
{
    let d0: u64 = absorb_value(CHALLENGE_SEED, prover_key);
    let d1: u64 = absorb_value(d0, constant);
    absorb_value(d1, nonce_commitment)
}

/// Makes the proof of knowledge of `secret` with the given nonce.
pub fn prove_knowledge(secret: u64, nonce: u64, prover_key: u64) -> (proof: KnowledgeProof)
    ensures
        proof == knowledge_proof(secret, nonce, prover_key),
{
    let constant: u64 = group_pow(G, secret);
    let nonce_commitment: u64 = group_pow(G, nonce);
    let c: u64 = derive_challenge(prover_key, constant, nonce_commitment);
    let response: u64 = scalar_add(nonce, scalar_mul(c, secret));
    KnowledgeProof { nonce_commitment, response }
}

/// Checks a proof of knowledge against the commitment to the constant term.
pub fn verify_knowledge(prover_key: u64, constant: u64, proof: &KnowledgeProof) -> (ok: bool)
    ensures
        ok == proof_verifies(prover_key, constant, *proof),
{
    if proof.nonce_commitment < 1 || proof.nonce_commitment >= P || proof.response >= Q {
        return false;
    }
    let c: u64 = derive_challenge(prover_key, constant, proof.nonce_commitment);
    let left: u64 = group_pow(G, proof.response);
    let right: u64 = group_mul(proof.nonce_commitment, group_pow(constant, c));
    left == right
}

} // verus!
