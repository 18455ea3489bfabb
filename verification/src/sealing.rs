//! Sealing of a share for one peer. The two ends derive one key, each from
//! its own secret key and the other's public key, and the share travels with
//! that key added to it in the scalar field.

use crate::group::lemma_gpow_multiplies;
use crate::group::{gpow, group_pow, sadd, scalar_add, scalar_sub, ssub, G, P, Q};
use vstd::arithmetic::div_mod::*;
use vstd::arithmetic::mul::*;
use vstd::arithmetic::power::pow;
use vstd::prelude::*;

verus! {

/// The key that the holder of `secret` shares with the owner of
/// `peer_public`.
pub open spec fn pair_key(secret: u64, peer_public: u64) -> int {
    gpow(peer_public as int, secret as nat)
}

/// A share sealed under a pair key.
pub open spec fn seal(share: int, key: int) -> int {
    sadd(share, key)
}

/// What a fragment opens to under a pair key.
pub open spec fn unseal(fragment: int, key: int) -> int {
    ssub(fragment, key)
}

/// Both ends of a pair derive the same key.
pub proof fn lemma_pair_key_symmetric(a: u64, b: u64)
    ensures
        pair_key(a, gpow(G as int, b as nat) as u64) == pair_key(b, gpow(G as int, a as nat) as u64),
{
    let g = G as int;
    lemma_mod_bound(pow(g, a as nat), P as int);
    lemma_mod_bound(pow(g, b as nat), P as int);
    lemma_gpow_multiplies(g, b as nat, a as nat);
    lemma_gpow_multiplies(g, a as nat, b as nat);
    lemma_mul_is_commutative(a as int, b as int);
}

/// A sealed share is a scalar.
pub proof fn lemma_seal_is_scalar(share: int, key: int)
    ensures
        0 <= seal(share, key) < Q,
{
    lemma_mod_bound(share + key, Q as int);
}

/// Unsealing under the same key gives the share back.
pub proof fn lemma_unseal_seal(share: int, key: int)
    requires
        0 <= share < Q,
    ensures
        unseal(seal(share, key), key) == share,
{
    let q = Q as int;
    lemma_sub_mod_noop(share + key, key, q);
    lemma_sub_mod_noop(seal(share, key), key, q);
    lemma_mod_twice(share + key, q);
    lemma_small_mod(share as nat, q as nat);
}

/// Under one key, two different fragments open to different scalars.
pub proof fn lemma_unseal_injective(fragment: int, other: int, key: int)
    requires
        0 <= fragment < Q,
        0 <= other < Q,
        unseal(fragment, key) == unseal(other, key),
    ensures
        fragment == other,
{
    let q = Q as int;
    // adding the key back gives each fragment again
    lemma_add_mod_noop(fragment - key, key, q);
    lemma_add_mod_noop(other - key, key, q);
    lemma_small_mod(fragment as nat, q as nat);
    lemma_small_mod(other as nat, q as nat);
}

/// Derives the key shared with a peer.
pub fn derive_pair_key(secret: u64, peer_public: u64) -> (key: u64)
    ensures
        key == pair_key(secret, peer_public),
{
    group_pow(peer_public, secret)
}

/// Seals a share under a pair key.
pub fn seal_share(share: u64, key: u64) -> (fragment: u64)
    ensures
        fragment == seal(share as int, key as int),
        fragment < Q,
{
    scalar_add(share, key)
}

/// Opens a fragment under a pair key.
pub fn unseal_share(fragment: u64, key: u64) -> (share: u64)
    ensures
        share == unseal(fragment as int, key as int),
        share < Q,
{
    scalar_sub(fragment, key)
}

} // verus!
