//! What can go wrong, and how each failure reads.

use crate::identity::Identity;
use crate::text::{append_digits, decimal, lemma_digits_nonempty};
use vstd::prelude::*;
use vstd::string::*;

verus! {

/// Every failure the library reports. None is retried or replaced by a
/// default: each reaches the caller as it is.
#[derive(Clone, Copy, PartialEq, Eq, Structural, Debug)]
pub enum DkgError {
    /// The entropy pool ran dry.
    EntropyExhausted,
    /// Fewer than three identities, or one named twice.
    InvalidCohort,
    /// The identity is not a member of the cohort.
    IdentityNotInCohort,
    /// A round was called in a state that does not admit it.
    InvalidRoundSequence,
    /// The peers given are not the cohort without the caller, or the
    /// sequences given with them differ in length.
    PeerSetMismatch,
    /// The peer's proof of knowledge does not hold against its commitment.
    InvalidProof { peer: Identity },
    /// The peer's fragment does not open to a share on its commitment.
    ShareVerificationFailed { peer: Identity },
    /// The handle names no living identity.
    UseAfterRelease { identity: Identity },
}

/// How far a failure reaches.
#[derive(Clone, Copy, PartialEq, Eq, Structural, Debug)]
pub enum Severity {
    /// The caller may correct its input and call again.
    Recoverable,
    /// The session is over; no key comes out of it.
    SessionFatal,
    /// The process cannot go on.
    ProcessFatal,
}

impl DkgError {
    /// The diagnostic text of the error: its kind and, where one is to
    /// blame, the handle of the offending identity. It holds no secret.
    pub open spec fn message(self) -> Seq<char> {
        match self {
            DkgError::EntropyExhausted => "entropy source exhausted"@,
            DkgError::InvalidCohort => "invalid cohort: at least three distinct identities are needed"@,
            DkgError::IdentityNotInCohort => "identity is not in cohort"@,
            DkgError::InvalidRoundSequence => "round called out of sequence"@,
            DkgError::PeerSetMismatch => "peer set does not match the cohort"@,
            DkgError::InvalidProof { peer } => "invalid proof of knowledge from identity "@
                + decimal(peer.id as nat),
            DkgError::ShareVerificationFailed { peer } => "share verification failed for identity "@
                + decimal(peer.id as nat),
            DkgError::UseAfterRelease { identity } => "use after release of identity "@ + decimal(
                identity.id as nat,
            ),
        }
    }

    /// How far the failure reaches.
    pub open spec fn severity_of(self) -> Severity {
        match self {
            DkgError::EntropyExhausted => Severity::ProcessFatal,
            DkgError::InvalidProof { .. } | DkgError::ShareVerificationFailed { .. } =>
                Severity::SessionFatal,
            _ => Severity::Recoverable,
        }
    }

    /// No diagnostic is empty.
    pub proof fn lemma_message_nonempty(self)
        ensures
            self.message().len() > 0,
    {
        reveal_strlit("entropy source exhausted");
        reveal_strlit("invalid cohort: at least three distinct identities are needed");
        reveal_strlit("identity is not in cohort");
        reveal_strlit("round called out of sequence");
        reveal_strlit("peer set does not match the cohort");
        match self {
            DkgError::InvalidProof { peer } => lemma_digits_nonempty(peer.id as nat, 10),
            DkgError::ShareVerificationFailed { peer } => lemma_digits_nonempty(peer.id as nat, 10),
            DkgError::UseAfterRelease { identity } => lemma_digits_nonempty(identity.id as nat, 10),
            _ => {},
        }
    }

    /// Renders the error as its diagnostic text, which is never empty.
    pub fn describe(&self) -> (text: String)
        ensures
            text@ == self.message(),
            text@.len() > 0,
    {
        proof {
            self.lemma_message_nonempty();
        }
        match *self {
            DkgError::EntropyExhausted => String::from_str("entropy source exhausted"),
            DkgError::InvalidCohort => String::from_str(
                "invalid cohort: at least three distinct identities are needed",
            ),
            DkgError::IdentityNotInCohort => String::from_str("identity is not in cohort"),
            DkgError::InvalidRoundSequence => String::from_str("round called out of sequence"),
            DkgError::PeerSetMismatch => String::from_str("peer set does not match the cohort"),
            DkgError::InvalidProof { peer } => {
                let mut text = String::from_str("invalid proof of knowledge from identity ");
                append_digits(&mut text, peer.id, 10);
                text
            },
            DkgError::ShareVerificationFailed { peer } => {
                let mut text = String::from_str("share verification failed for identity ");
                append_digits(&mut text, peer.id, 10);
                text
            },
            DkgError::UseAfterRelease { identity } => {
                let mut text = String::from_str("use after release of identity ");
                append_digits(&mut text, identity.id, 10);
                text
            },
        }
    }

    /// How far the failure reaches.
    pub fn severity(&self) -> (level: Severity)
        ensures
            level == self.severity_of(),
    {
        match *self {
            DkgError::EntropyExhausted => Severity::ProcessFatal,
            DkgError::InvalidProof { .. } => Severity::SessionFatal,
            DkgError::ShareVerificationFailed { .. } => Severity::SessionFatal,
            _ => Severity::Recoverable,
        }
    }
}

} // verus!
