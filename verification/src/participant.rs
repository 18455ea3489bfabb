//! One member's session: who it is, the cohort it runs in, how far it has
//! come and what it holds.

use crate::artifacts::{commitment_views, Commitment};
use crate::cohort::{
    index_of, is_member, is_member_at, lemma_index_unique, threshold_of, well_formed_cohort,
    CohortConfig, Member,
};
use crate::error::DkgError;
use crate::group::{group_pow, G};
use crate::identity::{public_from_secret, Identity, IdentityRegistry};
use crate::knowledge::{proof_verifies, KnowledgeProof};
use crate::polynomial::commit;
use vstd::prelude::*;

verus! {

/// How far a session has come. `Round3Done` and `Aborted` are final.
#[derive(Clone, Copy, PartialEq, Eq, Structural, Debug)]
pub enum SessionState {
    Created,
    Round1Done,
    Round2Done,
    Round3Done,
    Aborted,
}

/// What a session is, as a value.
pub struct ParticipantView {
    /// The identity that the session acts for.
    pub identity: Identity,
    /// Its canonical index in the cohort.
    pub index: int,
    /// The cohort.
    pub members: Seq<Member>,
    /// The secret key of the identity; zero once the session is over.
    pub secret_key: u64,
    /// How far the session has come.
    pub state: SessionState,
    /// The secret polynomial, constant term first; empty before the first
    /// round and once the session is over.
    pub polynomial: Seq<u64>,
    /// The commitment to the polynomial.
    pub commitment: Seq<u64>,
    /// The proof of knowledge of the constant term.
    pub proof: KnowledgeProof,
    /// By canonical index, the commitment received from each peer; empty
    /// where none was received.
    pub received: Seq<Seq<u64>>,
    /// This member's share of the joint secret, once round three is done.
    pub secret_share: u64,
    /// The joint public key, once the third round is done.
    pub group_key: u64,
}

impl ParticipantView {
    /// The public key under which the cohort knows this member.
    pub open spec fn public_key(self) -> u64 {
        self.members[self.index].public_key
    }

    /// Number of coefficients of every polynomial of the run.
    pub open spec fn threshold(self) -> nat {
        threshold_of(self.members.len())
    }

    /// The secret key is the one behind the member's public key.
    pub open spec fn holds_key(self) -> bool {
        public_from_secret(self.secret_key) == self.public_key()
    }

    /// The polynomial, its commitment and the proof belong together.
    pub open spec fn holds_polynomial(self) -> bool {
        &&& self.polynomial.len() == self.threshold()
        &&& self.commitment == commit(self.polynomial)
        &&& proof_verifies(self.public_key(), self.commitment[0], self.proof)
    }

    /// The session is over: no round will change it.
    pub open spec fn is_over(self) -> bool {
        self.state == SessionState::Round3Done || self.state == SessionState::Aborted
    }

    /// No secret of the session is left.
    pub open spec fn wiped(self) -> bool {
        self.secret_key == 0 && self.polynomial.len() == 0
    }

    /// There is room for one commitment from each member.
    pub open spec fn holds_room(self) -> bool {
        self.received.len() == self.members.len()
    }

    /// What holds of every session at every time.
    pub open spec fn wf(self) -> bool {
        &&& well_formed_cohort(self.members)
        &&& is_member_at(self.members, self.identity, self.index)
        &&& match self.state {
            SessionState::Created => self.holds_room() && self.holds_key()
                && self.polynomial.len() == 0,
            SessionState::Round1Done | SessionState::Round2Done => self.holds_room()
                && self.holds_key() && self.holds_polynomial(),
            SessionState::Round3Done => self.holds_room() && self.wiped(),
            SessionState::Aborted => self.wiped() && self.secret_share == 0,
        }
    }

    /// The session as it starts.
    pub open spec fn initial(identity: Identity, members: Seq<Member>, secret_key: u64) -> ParticipantView {
        ParticipantView {
            identity,
            index: index_of(members, identity),
            members,
            secret_key,
            state: SessionState::Created,
            polynomial: Seq::empty(),
            commitment: Seq::empty(),
            proof: KnowledgeProof { nonce_commitment: 0, response: 0 },
            received: Seq::new(members.len(), |i: int| Seq::empty()),
            secret_share: 0,
            group_key: 0,
        }
    }

    /// The session after a first round that made this polynomial and proof.
    pub open spec fn with_polynomial(
        self,
        polynomial: Seq<u64>,
        proof: KnowledgeProof,
    ) -> ParticipantView {
        ParticipantView {
            state: SessionState::Round1Done,
            polynomial,
            commitment: commit(polynomial),
            proof,
            ..self
        }
    }

    /// The session after a second round that took these commitments in.
    pub open spec fn with_received(self, received: Seq<Seq<u64>>) -> ParticipantView {
        ParticipantView { state: SessionState::Round2Done, received, ..self }
    }

    /// The session after a third round that succeeded: the secrets that are
    /// no longer needed are gone, the share and the joint key are kept.
    pub open spec fn completed(self, secret_share: u64, group_key: u64) -> ParticipantView {
        ParticipantView {
            state: SessionState::Round3Done,
            secret_key: 0,
            polynomial: Seq::empty(),
            secret_share,
            group_key,
            ..self
        }
    }

    /// The session after it was given up: every secret is gone.
    pub open spec fn aborted(self) -> ParticipantView {
        ParticipantView {
            state: SessionState::Aborted,
            secret_key: 0,
            polynomial: Seq::empty(),
            secret_share: 0,
            ..self
        }
    }
}

/// The part of a session that the rounds change.
struct Progress {
    secret_key: u64,
    state: SessionState,
    polynomial: Vec<u64>,
    commitment: Vec<u64>,
    proof: KnowledgeProof,
    received: Vec<Commitment>,
    secret_share: u64,
    group_key: u64,
}

impl Progress {
    /// A session that was given up and holds nothing.
    fn nothing() -> (progress: Progress)
        ensures
            progress.state == SessionState::Aborted,
            progress.secret_key == 0,
            progress.secret_share == 0,
            progress.polynomial@.len() == 0,
    {
        Progress {
            secret_key: 0,
            state: SessionState::Aborted,
            polynomial: Vec::new(),
            commitment: Vec::new(),
            proof: KnowledgeProof { nonce_commitment: 0, response: 0 },
            received: Vec::new(),
            secret_share: 0,
            group_key: 0,
        }
    }
}

/// One member's session. Every session is well formed: the library makes
/// no other and leaves none behind.
pub struct Participant {
    identity: Identity,
    index: usize,
    config: CohortConfig,
    progress: Progress,
}

impl View for Participant {
    type V = ParticipantView;

    closed spec fn view(&self) -> ParticipantView {
        ParticipantView {
            identity: self.identity,
            index: self.index as int,
            members: self.config@,
            secret_key: self.progress.secret_key,
            state: self.progress.state,
            polynomial: self.progress.polynomial@,
            commitment: self.progress.commitment@,
            proof: self.progress.proof,
            received: commitment_views(self.progress.received@),
            secret_share: self.progress.secret_share,
            group_key: self.progress.group_key,
        }
    }
}

/// What [`Participant::new`] answers: the session, or why there is none.
pub open spec fn admission(
    registry: &IdentityRegistry,
    identity: Identity,
    members: Seq<Member>,
) -> Result<ParticipantView, DkgError> {
    if !is_member(members, identity) {
        Err(DkgError::IdentityNotInCohort)
    } else if !registry.is_live(identity) {
        Err(DkgError::UseAfterRelease { identity })
    } else if registry.public_of(identity) != members[index_of(members, identity)].public_key {
        Err(DkgError::IdentityNotInCohort)
    } else {
        Ok(ParticipantView::initial(identity, members, registry.secret_of(identity)))
    }
}

impl Participant {
    #[verifier::type_invariant]
    spec fn sound(&self) -> bool {
        self@.wf()
    }

    /// The session is well formed.
    pub open spec fn wf(&self) -> bool {
        self@.wf()
    }

    /// Opens a session for an identity in a cohort.
    ///
    /// Fails with `IdentityNotInCohort` when the identity is not a member,
    /// whatever else holds of it; with `UseAfterRelease` when it is a member
    /// and not live in the registry; with `IdentityNotInCohort` again when
    /// the registry holds another key for it than the cohort does.
    pub fn new(registry: &IdentityRegistry, identity: Identity, config: &CohortConfig) -> (result:
        Result<Participant, DkgError>)
        ensures
            match result {
                Ok(participant) => admission(registry, identity, config@) == Ok::<
                    ParticipantView,
                    DkgError,
                >(participant@) && participant.wf(),
                Err(error) => admission(registry, identity, config@) == Err::<
                    ParticipantView,
                    DkgError,
                >(error),
            },
    {
        let index = match config.position(identity) {
            None => {
                return Err(DkgError::IdentityNotInCohort);
            },
            Some(index) => index,
        };
        proof {
            lemma_index_unique(config@, identity, index as int);
        }
        let secret_key = match registry.secret_key(identity) {
            Err(error) => {
                return Err(error);
            },
            Ok(secret_key) => secret_key,
        };
        if group_pow(G, secret_key) != config.member_at(index).public_key {
            return Err(DkgError::IdentityNotInCohort);
        }
        let n: usize = config.len();
        let mut received: Vec<Commitment> = Vec::new();
        let mut i: usize = 0;
        while i < n
            invariant
                i <= n,
                received@.len() == i,
                forall|k: int| 0 <= k < i ==> (#[trigger] received@[k])@ == Seq::<u64>::empty(),
            decreases n - i,
        {
            received.push(Commitment { coefficients: Vec::new() });
            i = i + 1;
        }
        let progress = Progress {
            secret_key,
            state: SessionState::Created,
            polynomial: Vec::new(),
            commitment: Vec::new(),
            proof: KnowledgeProof { nonce_commitment: 0, response: 0 },
            received,
            secret_share: 0,
            group_key: 0,
        };
        let ghost want = ParticipantView::initial(identity, config@, secret_key);
        proof {
            assert(commitment_views(progress.received@) =~= want.received);
            assert(progress.polynomial@ =~= want.polynomial);
            assert(progress.commitment@ =~= want.commitment);
        }
        let participant = Participant { identity, index, config: config.clone(), progress };
        assert(participant@ == want);
        Ok(participant)
    }

    /// The identity that the session acts for.
    pub fn identity(&self) -> (identity: Identity)
        ensures
            identity == self@.identity,
            self.wf(),
    {
        proof {
            use_type_invariant(self);
        }
        self.identity
    }

    /// The canonical index of the member.
    pub fn index(&self) -> (index: usize)
        ensures
            index == self@.index,
            self.wf(),
    {
        proof {
            use_type_invariant(self);
        }
        self.index
    }

    /// How far the session has come.
    pub fn state(&self) -> (state: SessionState)
        ensures
            state == self@.state,
            self.wf(),
    {
        proof {
            use_type_invariant(self);
        }
        self.progress.state
    }

    /// The cohort of the run.
    pub fn config(&self) -> (config: &CohortConfig)
        ensures
            config@ == self@.members,
            self.wf(),
    {
        proof {
            use_type_invariant(self);
        }
        &self.config
    }

    /// The joint public key, once the third round is done.
    pub fn group_key(&self) -> (key: Option<u64>)
        ensures
            key == if self@.state == SessionState::Round3Done {
                Some(self@.group_key)
            } else {
                None
            },
    {
        if self.progress.state == SessionState::Round3Done {
            Some(self.progress.group_key)
        } else {
            None
        }
    }

    /// This member's share of the joint secret, once round three is done.
    pub fn secret_share(&self) -> (share: Option<u64>)
        ensures
            share == if self@.state == SessionState::Round3Done {
                Some(self@.secret_share)
            } else {
                None
            },
    {
        if self.progress.state == SessionState::Round3Done {
            Some(self.progress.secret_share)
        } else {
            None
        }
    }

    /// The commitment to the member's own polynomial; empty until round one.
    pub fn commitment(&self) -> (commitment: &Vec<u64>)
        ensures
            commitment@ == self@.commitment,
    {
        &self.progress.commitment
    }

    /// The commitment received from the member at a canonical index, or
    /// `None` where the session holds no entry for that index.
    pub fn received(&self, index: usize) -> (commitment: Option<&Commitment>)
        ensures
            match commitment {
                Some(c) => index < self@.received.len() && c@ == self@.received[index as int],
                None => index >= self@.received.len(),
            },
    {
        if index < self.progress.received.len() {
            Some(&self.progress.received[index])
        } else {
            None
        }
    }

    pub(crate) fn received_at(&self, index: usize) -> (commitment: &Commitment)
        requires
            index < self@.received.len(),
        ensures
            commitment@ == self@.received[index as int],
    {
        &self.progress.received[index]
    }

    pub(crate) fn secret_key(&self) -> (key: u64)
        ensures
            key == self@.secret_key,
    {
        self.progress.secret_key
    }

    pub(crate) fn polynomial(&self) -> (polynomial: &Vec<u64>)
        ensures
            polynomial@ == self@.polynomial,
    {
        &self.progress.polynomial
    }

    pub(crate) fn own_proof(&self) -> (proof: KnowledgeProof)
        ensures
            proof == self@.proof,
    {
        self.progress.proof
    }

    /// Takes the changing part of the session out and leaves a session
    /// that was given up and holds nothing.
    fn take_progress(&mut self) -> (progress: Progress)
        ensures
            old(self).wf(),
            progress == old(self).progress,
            final(self).identity == old(self).identity,
            final(self).index == old(self).index,
            final(self).config == old(self).config,
    {
        proof {
            use_type_invariant(&*self);
        }
        let mut progress = Progress::nothing();
        core::mem::swap(&mut self.progress, &mut progress);
        progress
    }

    /// Takes in what the first round made.
    pub(crate) fn record_round1(
        &mut self,
        polynomial: Vec<u64>,
        commitment: Vec<u64>,
        proof: KnowledgeProof,
    )
        requires
            commitment@ == commit(polynomial@),
            old(self)@.with_polynomial(polynomial@, proof).wf(),
        ensures
            final(self)@ == old(self)@.with_polynomial(polynomial@, proof),
            final(self).wf(),
    {
        let before = self.take_progress();
        self.progress = Progress {
            secret_key: before.secret_key,
            state: SessionState::Round1Done,
            polynomial,
            commitment,
            proof,
            received: before.received,
            secret_share: before.secret_share,
            group_key: before.group_key,
        };
    }

    /// Takes in the commitments that the second round received.
    pub(crate) fn record_round2(&mut self, received: Vec<Commitment>)
        requires
            old(self)@.with_received(commitment_views(received@)).wf(),
        ensures
            final(self)@ == old(self)@.with_received(commitment_views(received@)),
            final(self).wf(),
    {
        let before = self.take_progress();
        self.progress = Progress {
            secret_key: before.secret_key,
            state: SessionState::Round2Done,
            polynomial: before.polynomial,
            commitment: before.commitment,
            proof: before.proof,
            received,
            secret_share: before.secret_share,
            group_key: before.group_key,
        };
    }

    /// Ends the session with a share and the joint key.
    pub(crate) fn complete(&mut self, secret_share: u64, group_key: u64)
        requires
            old(self)@.holds_room(),
        ensures
            final(self)@ == old(self)@.completed(secret_share, group_key),
            final(self).wf(),
    {
        let before = self.take_progress();
        let mut spent = erase(before.polynomial);
        spent.clear();
        self.progress = Progress {
            secret_key: 0,
            state: SessionState::Round3Done,
            polynomial: spent,
            commitment: before.commitment,
            proof: before.proof,
            received: before.received,
            secret_share,
            group_key,
        };
    }

    /// Gives the session up.
    pub(crate) fn give_up(&mut self)
        ensures
            final(self)@ == old(self)@.aborted(),
            final(self).wf(),
    {
        let before = self.take_progress();
        let mut spent = erase(before.polynomial);
        spent.clear();
        self.progress = Progress {
            secret_key: 0,
            state: SessionState::Aborted,
            polynomial: spent,
            commitment: before.commitment,
            proof: before.proof,
            received: before.received,
            secret_share: 0,
            group_key: before.group_key,
        };
    }
}

/// Overwrites every coefficient with zero; the caller drops what is left.
fn erase(polynomial: Vec<u64>) -> (zeroed: Vec<u64>)
    ensures
        zeroed@ == Seq::new(polynomial@.len(), |i: int| 0u64),
{
    let mut zeroed = polynomial;
    let mut k: usize = 0;
    while k < zeroed.len()
        invariant
            k <= zeroed@.len(),
            zeroed@.len() == polynomial@.len(),
            forall|i: int| 0 <= i < k ==> zeroed@[i] == 0,
        decreases zeroed@.len() - k,
    {
        zeroed.set(k, 0);
        k = k + 1;
    }
    assert(zeroed@ =~= Seq::new(polynomial@.len(), |i: int| 0u64));
    zeroed
}

} // verus!
