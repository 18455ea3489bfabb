//! Long-term identities and the registry that owns their key pairs.
//!
//! An [`Identity`] is a handle. The registry issues handles in order and
//! never reuses one: a handle names the same key pair for as long as the
//! registry lives, or nothing once it has been released.

use crate::entropy::EntropyPool;
use crate::error::DkgError;
use crate::group::{gpow, group_pow, G, Q};
use vstd::prelude::*;

verus! {

/// Handle of a long-term key pair held by an [`IdentityRegistry`].
#[derive(Clone, Copy, PartialEq, Eq, Structural, Debug, Hash)]
pub struct Identity {
    pub id: u64,
}

/// The secret key drawn from one word of entropy: never zero.
pub open spec fn secret_from_word(word: u64) -> u64 {
    (1 + word % ((Q - 1) as u64)) as u64
}

/// The public key that belongs to a secret key.
pub open spec fn public_from_secret(secret: u64) -> u64 {
    gpow(G as int, secret as nat) as u64
}

/// What the registry keeps for one handle.
#[derive(Clone, Copy, PartialEq, Eq, Structural, Debug)]
pub struct KeyRecord {
    /// The identity has not been released.
    pub live: bool,
    /// The secret key; zero once the identity is released.
    pub secret: u64,
}

/// Owner of every identity's key pair.
pub struct IdentityRegistry {
    slots: Vec<KeyRecord>,
}

impl View for IdentityRegistry {
    type V = Seq<KeyRecord>;

    /// One record per handle issued, in order of issue.
    closed spec fn view(&self) -> Seq<KeyRecord> {
        self.slots@
    }
}

impl IdentityRegistry {
    /// The handle was issued here and has not been released.
    pub open spec fn is_live(&self, identity: Identity) -> bool {
        identity.id < self@.len() && self@[identity.id as int].live
    }

    /// The secret key of a live identity.
    pub open spec fn secret_of(&self, identity: Identity) -> u64 {
        self@[identity.id as int].secret
    }

    /// The public key of a live identity.
    pub open spec fn public_of(&self, identity: Identity) -> u64 {
        public_from_secret(self.secret_of(identity))
    }

    /// Where the key of a live identity is kept.
    fn slot_of(&self, identity: Identity) -> (slot: Option<usize>)
        ensures
            match slot {
                Some(i) => self.is_live(identity) && i == identity.id,
                None => !self.is_live(identity),
            },
    {
        if identity.id >= self.slots.len() as u64 {
            return None;
        }
        let i: usize = identity.id as usize;
        if self.slots[i].live {
            Some(i)
        } else {
            None
        }
    }

    /// A registry that has issued nothing.
    pub fn new() -> (registry: IdentityRegistry)
        ensures
            registry@ == Seq::<KeyRecord>::empty(),
    {
        IdentityRegistry { slots: Vec::new() }
    }

    /// Number of handles issued so far, released ones included.
    pub fn issued(&self) -> (n: usize)
        ensures
            n == self@.len(),
    {
        self.slots.len()
    }

    /// Creates a key pair from the next word of entropy and returns its
    /// handle, which no earlier call returned. Fails with
    /// `EntropyExhausted`, changing nothing, when the pool is empty.
    pub fn create_identity(&mut self, entropy: &mut EntropyPool) -> (result: Result<
        Identity,
        DkgError,
    >)
        ensures
            match result {
                Ok(identity) => {
                    &&& old(entropy)@.len() > 0
                    &&& identity.id == old(self)@.len()
                    &&& final(self)@ == old(self)@.push(
                        KeyRecord { live: true, secret: secret_from_word(old(entropy)@[0]) },
                    )
                    &&& final(entropy)@ == old(entropy)@.skip(1)
                },
                Err(error) => {
                    &&& error == DkgError::EntropyExhausted
                    &&& old(entropy)@.len() == 0
                    &&& final(self)@ == old(self)@
                    &&& final(entropy)@ == old(entropy)@
                },
            },
    {
        match entropy.draw() {
            None => Err(DkgError::EntropyExhausted),
            Some(word) => {
                let secret: u64 = 1 + word % (Q - 1);
                let id: u64 = self.slots.len() as u64;
                self.slots.push(KeyRecord { live: true, secret });
                Ok(Identity { id })
            },
        }
    }

    /// Ends the life of an identity and overwrites its secret key with
    /// zero. Fails with `UseAfterRelease`, changing nothing, when the handle
    /// is not live.
    pub fn release_identity(&mut self, identity: Identity) -> (result: Result<(), DkgError>)
        ensures
            match result {
                Ok(_) => {
                    &&& old(self).is_live(identity)
                    &&& final(self)@ == old(self)@.update(
                        identity.id as int,
                        KeyRecord { live: false, secret: 0 },
                    )
                },
                Err(error) => {
                    &&& !old(self).is_live(identity)
                    &&& error == (DkgError::UseAfterRelease { identity })
                    &&& final(self)@ == old(self)@
                },
            },
    {
        match self.slot_of(identity) {
            None => Err(DkgError::UseAfterRelease { identity }),
            Some(i) => {
                self.slots.set(i, KeyRecord { live: false, secret: 0 });
                Ok(())
            },
        }
    }

    /// Tells whether the handle was issued here and has not been released.
    pub fn check_live(&self, identity: Identity) -> (live: bool)
        ensures
            live == self.is_live(identity),
    {
        self.slot_of(identity).is_some()
    }

    /// The public key of an identity; `UseAfterRelease` when the handle is
    /// not live.
    pub fn public_key(&self, identity: Identity) -> (result: Result<u64, DkgError>)
        ensures
            match result {
                Ok(key) => self.is_live(identity) && key == self.public_of(identity),
                Err(error) => !self.is_live(identity) && error == (DkgError::UseAfterRelease {
                    identity,
                }),
            },
    {
        match self.slot_of(identity) {
            None => Err(DkgError::UseAfterRelease { identity }),
            Some(i) => Ok(group_pow(G, self.slots[i].secret)),
        }
    }

    /// The secret key of an identity, for the session that acts for it.
    pub(crate) fn secret_key(&self, identity: Identity) -> (result: Result<u64, DkgError>)
        ensures
            match result {
                Ok(key) => self.is_live(identity) && key == self.secret_of(identity),
                Err(error) => !self.is_live(identity) && error == (DkgError::UseAfterRelease {
                    identity,
                }),
            },
    {
        match self.slot_of(identity) {
            None => Err(DkgError::UseAfterRelease { identity }),
            Some(i) => Ok(self.slots[i].secret),
        }
    }
}

} // verus!
