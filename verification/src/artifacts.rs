//! What the rounds hand from one member to another.

use crate::identity::Identity;
use crate::knowledge::KnowledgeProof;
use crate::text::{hexadecimal, lemma_digits_nonempty, to_hexadecimal};
use vstd::prelude::*;

verus! {

/// Output of the first round: the commitment to the member's polynomial,
/// constant term first. It holds no secret and goes to every peer.
#[derive(Debug, PartialEq, Eq)]
pub struct Commitment {
    pub coefficients: Vec<u64>,
}

impl Clone for Commitment {
    fn clone(&self) -> (copy: Commitment)
        ensures
            copy@ == self@,
    {
        Commitment { coefficients: self.coefficients.clone() }
    }
}

impl View for Commitment {
    type V = Seq<u64>;

    open spec fn view(&self) -> Seq<u64> {
        self.coefficients@
    }
}

/// The views of a sequence of commitments.
pub open spec fn commitment_views(commitments: Seq<Commitment>) -> Seq<Seq<u64>> {
    Seq::new(commitments.len(), |i: int| commitments[i]@)
}

/// The part of the second round's output that is the same for every peer.
#[derive(Clone, Copy, PartialEq, Eq, Structural, Debug)]
pub struct Round2Broadcast {
    pub proof: KnowledgeProof,
}

/// A sealed share for one recipient.
#[derive(Clone, Copy, PartialEq, Eq, Structural, Debug)]
pub struct Fragment {
    pub recipient: Identity,
    pub ciphertext: u64,
}

/// The part of the second round's output that differs from peer to peer:
/// one fragment for each. It is read as a map from recipient to fragment;
/// where a recipient occurs twice the first entry counts.
#[derive(Debug, PartialEq, Eq)]
pub struct P2pPackage {
    pub fragments: Vec<Fragment>,
}

impl Clone for P2pPackage {
    fn clone(&self) -> (copy: P2pPackage)
        ensures
            copy@ == self@,
    {
        P2pPackage { fragments: self.fragments.clone() }
    }
}

impl View for P2pPackage {
    type V = Seq<Fragment>;

    open spec fn view(&self) -> Seq<Fragment> {
        self.fragments@
    }
}

/// The views of a sequence of packages.
pub open spec fn package_views(packages: Seq<P2pPackage>) -> Seq<Seq<Fragment>> {
    Seq::new(packages.len(), |i: int| packages[i]@)
}

/// Position of the first fragment at or after `from` that is meant for the
/// recipient; the length of the sequence when there is none.
pub open spec fn fragment_position(fragments: Seq<Fragment>, recipient: Identity, from: int) -> int
    decreases fragments.len() - from,
{
    if from < 0 || from >= fragments.len() {
        fragments.len() as int
    } else if fragments[from].recipient == recipient {
        from
    } else {
        fragment_position(fragments, recipient, from + 1)
    }
}

/// The ciphertext that a package holds for the recipient.
pub open spec fn fragment_for(fragments: Seq<Fragment>, recipient: Identity) -> Option<u64> {
    let k = fragment_position(fragments, recipient, 0);
    if k < fragments.len() {
        Some(fragments[k].ciphertext)
    } else {
        None
    }
}

/// The first fragment for a recipient lies where its position says.
pub proof fn lemma_fragment_position(fragments: Seq<Fragment>, recipient: Identity, from: int)
    requires
        0 <= from <= fragments.len(),
    ensures
        from <= fragment_position(fragments, recipient, from) <= fragments.len(),
        fragment_position(fragments, recipient, from) < fragments.len() ==> fragments[fragment_position(
            fragments,
            recipient,
            from,
        )].recipient == recipient,
        forall|k: int|
            from <= k < fragment_position(fragments, recipient, from) ==> (
            #[trigger] fragments[k]).recipient != recipient,
    decreases fragments.len() - from,
{
    if from < fragments.len() && fragments[from].recipient != recipient {
        lemma_fragment_position(fragments, recipient, from + 1);
    }
}

impl P2pPackage {
    /// Looks up the fragment meant for a recipient.
    pub fn lookup(&self, recipient: Identity) -> (found: Option<u64>)
        ensures
            found == fragment_for(self@, recipient),
    {
        let mut k: usize = 0;
        while k < self.fragments.len()
            invariant
                k <= self.fragments@.len(),
                fragment_position(self@, recipient, 0) == fragment_position(
                    self@,
                    recipient,
                    k as int,
                ),
            decreases self.fragments@.len() - k,
        {
            if self.fragments[k].recipient == recipient {
                return Some(self.fragments[k].ciphertext);
            }
            k = k + 1;
        }
        None
    }
}

/// Output of the second round.
#[derive(Debug, PartialEq, Eq)]
pub struct Round2Output {
    pub broadcast: Round2Broadcast,
    pub p2p: P2pPackage,
}

impl Clone for Round2Output {
    fn clone(&self) -> (copy: Round2Output)
        ensures
            copy.broadcast == self.broadcast,
            copy.p2p@ == self.p2p@,
    {
        Round2Output { broadcast: self.broadcast, p2p: self.p2p.clone() }
    }
}

/// The joint public key: the output of the third round.
#[derive(Clone, Copy, PartialEq, Eq, Structural, Debug)]
pub struct PublicKey {
    pub value: u64,
}

impl PublicKey {
    /// The key as text: its lower-case hexadecimal digits.
    pub open spec fn text(self) -> Seq<char> {
        hexadecimal(self.value as nat)
    }

    /// Renders the key as text, which is never empty.
    pub fn to_text(&self) -> (text: String)
        ensures
            text@ == self.text(),
            text@.len() > 0,
    {
        proof {
            lemma_digits_nonempty(self.value as nat, 16);
        }
        to_hexadecimal(self.value)
    }
}

} // verus!
