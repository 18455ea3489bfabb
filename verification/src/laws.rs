//! What holds of every run of the protocol.
//!
//! A [`Run`] is the cohort seen from above: the session of every member once
//! it has done its first round, and the order in which each member names its
//! peers in the second. Everything that the members then hand each other is
//! a function of the run, and so is what each of them answers in the third
//! round.

use crate::artifacts::{
    fragment_for, fragment_position, lemma_fragment_position, Fragment, PublicKey, Round2Broadcast,
};
use crate::cohort::{
    build_outcome, evaluation_point, first_released, has_duplicate, index_of, is_member,
    is_member_at, lemma_index_unique, members_of, well_formed_cohort, Member,
};
use crate::engine::{
    after_round1, after_round3, constants_of, entropy_needed, first_rejected_proof,
    first_rejected_share, joint_key, names_peer, opened_share, opened_share_at, position_in,
    proof_accepted, proof_accepted_at, round1_outcome, round2_outcome, round3_outcome,
    sealed_share, sealed_shares, share_accepted, share_accepted_at, share_total, taken_in,
    valid_peer_set,
};
use crate::error::DkgError;
use crate::group::{gmul, gpow, G, P, Q};
use crate::group::{
    lemma_generator_exponent_reduces, lemma_generator_power_is_element, lemma_gpow_adds,
};
use crate::identity::{Identity, IdentityRegistry, KeyRecord};
use crate::knowledge::{lemma_proof_complete, KnowledgeProof};
use crate::participant::{admission, ParticipantView, SessionState};
use crate::polynomial::{
    commitment_at, evaluate, lemma_commit_well_formed, lemma_commitment_opens,
    lemma_evaluate_is_scalar, lemma_one_share_matches, scalar_of,
};
use crate::sealing::{
    lemma_pair_key_symmetric, lemma_seal_is_scalar, lemma_unseal_injective, lemma_unseal_seal,
    pair_key,
};
use vstd::prelude::*;

verus! {

/// A cohort in which every member has done its first round.
pub struct Run {
    /// By canonical index, each member's session after its first round.
    pub sessions: Seq<ParticipantView>,
    /// By canonical index, the peers as each member names them in its
    /// second round.
    pub round2_peers: Seq<Seq<Identity>>,
}

impl Run {
    /// The cohort of the run.
    pub open spec fn members(self) -> Seq<Member> {
        self.sessions[0].members
    }

    /// The member at canonical index `i` is where a first round leaves it,
    /// in this cohort, and names its peers as the second round asks.
    pub open spec fn member_ready(self, i: int) -> bool {
        &&& self.sessions[i].wf()
        &&& self.sessions[i].state == SessionState::Round1Done
        &&& self.sessions[i].members == self.members()
        &&& self.sessions[i].index == i
        &&& valid_peer_set(self.members(), i, self.round2_peers[i])
    }

    /// There is one session for each member of the cohort, and each is
    /// ready.
    pub open spec fn wf(self) -> bool {
        &&& self.sessions.len() > 0
        &&& self.sessions.len() == self.members().len()
        &&& self.round2_peers.len() == self.sessions.len()
        &&& forall|i: int| 0 <= i < self.sessions.len() ==> self.member_ready(i)
    }

    /// The first-round outputs of the peers, in the order of `peers`.
    pub open spec fn commitments_for(self, peers: Seq<Identity>) -> Seq<Seq<u64>> {
        Seq::new(
            peers.len(),
            |k: int| self.sessions[index_of(self.members(), peers[k])].commitment,
        )
    }

    /// The session of the member at `a` once its second round has taken in
    /// the first-round outputs of its peers.
    pub open spec fn before_round3(self, a: int) -> ParticipantView {
        let session = self.sessions[a];
        session.with_received(
            taken_in(session, self.round2_peers[a], self.commitments_for(self.round2_peers[a])),
        )
    }

    /// The second-round broadcasts of the peers, in the order of `peers`.
    pub open spec fn broadcasts_for(self, peers: Seq<Identity>) -> Seq<Round2Broadcast> {
        Seq::new(
            peers.len(),
            |k: int|
                Round2Broadcast { proof: self.sessions[index_of(self.members(), peers[k])].proof },
        )
    }

    /// The package that the member at `j` makes in its second round.
    pub open spec fn package_of(self, j: int) -> Seq<Fragment> {
        sealed_shares(self.sessions[j], self.round2_peers[j])
    }

    /// The second-round packages of the peers, in the order of `peers`.
    pub open spec fn packages_for(self, peers: Seq<Identity>) -> Seq<Seq<Fragment>> {
        Seq::new(peers.len(), |k: int| self.package_of(index_of(self.members(), peers[k])))
    }

    /// The key that the run fixes: the product of every member's
    /// commitment to its constant term.
    pub open spec fn public_key(self) -> PublicKey {
        PublicKey {
            value: joint_key(
                Seq::new(self.sessions.len(), |i: int| self.sessions[i].commitment[0]),
            ) as u64,
        }
    }
}

/// Where no identity from `from` on is released, all of them are live.
proof fn lemma_none_released(registry: &IdentityRegistry, identities: Seq<Identity>, from: int)
    requires
        0 <= from <= identities.len(),
        first_released(registry, identities, from) == identities.len(),
    ensures
        forall|k: int| from <= k < identities.len() ==> registry.is_live(#[trigger] identities[k]),
    decreases identities.len() - from,
{
    if from < identities.len() {
        lemma_first_released_from(registry, identities, from + 1);
        lemma_none_released(registry, identities, from + 1);
    }
}

/// The first released identity lies at or after the place the search
/// starts from.
proof fn lemma_first_released_from(registry: &IdentityRegistry, identities: Seq<Identity>, from: int)
    requires
        0 <= from <= identities.len(),
    ensures
        from <= first_released(registry, identities, from) <= identities.len(),
    decreases identities.len() - from,
{
    if from < identities.len() && registry.is_live(identities[from]) {
        lemma_first_released_from(registry, identities, from + 1);
    }
}

/// A list that builds gives a well-formed cohort, and every identity in it
/// is admitted to a session that is ready for its first round.
pub proof fn lemma_members_admitted(registry: &IdentityRegistry, identities: Seq<Identity>, i: int)
    requires
        build_outcome(registry, identities) is Ok,
        0 <= i < identities.len(),
    ensures
        ({
            let members = build_outcome(registry, identities)->Ok_0;
            let session = ParticipantView::initial(
                identities[i],
                members,
                registry.secret_of(identities[i]),
            );
            &&& well_formed_cohort(members)
            &&& admission(registry, identities[i], members) == Ok::<ParticipantView, DkgError>(
                session,
            )
            &&& session.wf()
            &&& session.index == i
            &&& session.state == SessionState::Created
        }),
{
    let members = members_of(registry, identities);
    assert forall|a: int, b: int| 0 <= a < b < members.len() implies members[a].identity
        != members[b].identity by {
        assert(identities[a] != identities[b]);
    }
    assert forall|k: int| 0 <= k < members.len() implies (#[trigger] members[k]).public_key
        < P by {
        lemma_generator_power_is_element(registry.secret_of(identities[k]) as nat);
    }
    lemma_first_released_from(registry, identities, 0);
    lemma_none_released(registry, identities, 0);
    assert(is_member_at(members, identities[i], i));
    lemma_index_unique(members, identities[i], i);
    lemma_generator_power_is_element(registry.secret_of(identities[i]) as nat);
}

/// A first round that finds a created session and enough entropy succeeds
/// and leaves a well-formed session that has done its first round.
pub proof fn lemma_round1_succeeds(v: ParticipantView, words: Seq<u64>)
    requires
        v.wf(),
        v.state == SessionState::Created,
        words.len() >= entropy_needed(v),
    ensures
        round1_outcome(v, words) == Ok::<Seq<u64>, DkgError>(after_round1(v, words).commitment),
        after_round1(v, words).wf(),
        after_round1(v, words).state == SessionState::Round1Done,
        after_round1(v, words).members == v.members,
        after_round1(v, words).index == v.index,
{
    let after = after_round1(v, words);
    lemma_proof_complete(
        after.polynomial[0],
        scalar_of(words[v.threshold() as int]),
        v.public_key(),
    );
    lemma_generator_power_is_element(after.polynomial[0] as nat);
}

/// In a run every second round succeeds, and answers with the member's
/// proof and its package.
pub proof fn lemma_round2_succeeds(run: Run, a: int)
    requires
        run.wf(),
        0 <= a < run.sessions.len(),
    ensures
        round2_outcome(
            run.sessions[a],
            run.round2_peers[a],
            run.commitments_for(run.round2_peers[a]),
        ) == Ok::<(KnowledgeProof, Seq<Fragment>), DkgError>(
            (run.sessions[a].proof, run.package_of(a)),
        ),
{
    assert(run.member_ready(a));
}

/// After its second round a member holds, for every other member, the
/// commitment that this one made.
pub proof fn lemma_received_commitment(run: Run, a: int, j: int)
    requires
        run.wf(),
        0 <= a < run.sessions.len(),
        0 <= j < run.sessions.len(),
        j != a,
    ensures
        run.before_round3(a).received[j] == run.sessions[j].commitment,
        run.before_round3(a).wf(),
        run.before_round3(a).state == SessionState::Round2Done,
{
    assert(run.member_ready(a));
    assert(run.member_ready(j));
    let members = run.members();
    let peers = run.round2_peers[a];
    let wanted = members[j].identity;
    assert(names_peer(peers, wanted));
    let k = position_in(peers, wanted);
    lemma_index_unique(members, peers[k], j);
}

/// The fragment that a member's package holds for another member is the
/// share sealed for that one.
pub proof fn lemma_package_holds_share(run: Run, j: int, a: int)
    requires
        run.wf(),
        0 <= a < run.sessions.len(),
        0 <= j < run.sessions.len(),
        j != a,
    ensures
        fragment_for(run.package_of(j), run.members()[a].identity) == Some(
            sealed_share(run.sessions[j], run.members()[a].identity).ciphertext,
        ),
{
    assert(run.member_ready(j));
    let members = run.members();
    let peers = run.round2_peers[j];
    let wanted = members[a].identity;
    let package = run.package_of(j);
    lemma_fragment_position(package, wanted, 0);
    let found = fragment_position(package, wanted, 0);
    assert(names_peer(peers, wanted));
    let k = position_in(peers, wanted);
    assert(package[k].recipient == wanted);
    assert(found < package.len());
    assert(package[found] == sealed_share(run.sessions[j], peers[found]));
}

/// A member accepts the proof of every other member.
pub proof fn lemma_honest_proof_accepted(run: Run, a: int, j: int)
    requires
        run.wf(),
        0 <= a < run.sessions.len(),
        0 <= j < run.sessions.len(),
        j != a,
    ensures
        proof_accepted_at(run.before_round3(a), j, run.sessions[j].proof),
{
    lemma_received_commitment(run, a, j);
    assert(run.member_ready(a));
    assert(run.member_ready(j));
    lemma_commit_well_formed(run.sessions[j].polynomial);
}

/// A member accepts the share of every other member, and it opens to the
/// value of the sender's polynomial at the member's evaluation point.
pub proof fn lemma_honest_share_accepted(run: Run, a: int, j: int)
    requires
        run.wf(),
        0 <= a < run.sessions.len(),
        0 <= j < run.sessions.len(),
        j != a,
    ensures
        share_accepted_at(run.before_round3(a), j, run.package_of(j)),
        opened_share_at(run.before_round3(a), j, run.package_of(j)) == evaluate(
            run.sessions[j].polynomial,
            evaluation_point(a),
        ),
{
    lemma_received_commitment(run, a, j);
    lemma_package_holds_share(run, j, a);
    assert(run.member_ready(a));
    assert(run.member_ready(j));
    let members = run.members();
    let sender = run.sessions[j];
    let receiver = run.before_round3(a);
    let x = evaluation_point(a);
    let share = evaluate(sender.polynomial, x);
    lemma_index_unique(members, members[a].identity, a);
    lemma_evaluate_is_scalar(sender.polynomial, x);
    let key = pair_key(sender.secret_key, members[a].public_key);
    lemma_seal_is_scalar(share, key);
    lemma_pair_key_symmetric(sender.secret_key, receiver.secret_key);
    assert(pair_key(receiver.secret_key, members[j].public_key) == key);
    lemma_unseal_seal(share, key);
    lemma_commitment_opens(sender.polynomial, x as nat);
}

/// Where every proof from `from` on is accepted, none is rejected.
pub proof fn lemma_no_proof_rejected(
    v: ParticipantView,
    peers: Seq<Identity>,
    broadcasts: Seq<Round2Broadcast>,
    from: int,
)
    requires
        0 <= from <= peers.len(),
        forall|k: int| from <= k < peers.len() ==> proof_accepted(v, #[trigger] peers[k], broadcasts[k]),
    ensures
        first_rejected_proof(v, peers, broadcasts, from) == peers.len(),
    decreases peers.len() - from,
{
    if from < peers.len() {
        assert(proof_accepted(v, peers[from], broadcasts[from]));
        lemma_no_proof_rejected(v, peers, broadcasts, from + 1);
    }
}

/// Where every share from `from` up to `stop` is accepted, the first one
/// rejected lies at `stop` if that one is rejected, and nowhere if `stop` is
/// the end.
pub proof fn lemma_first_share_rejected(
    v: ParticipantView,
    peers: Seq<Identity>,
    packages: Seq<Seq<Fragment>>,
    from: int,
    stop: int,
)
    requires
        0 <= from <= stop <= peers.len(),
        forall|k: int| from <= k < stop ==> share_accepted(v, #[trigger] peers[k], packages[k]),
        stop < peers.len() ==> !share_accepted(v, peers[stop], packages[stop]),
    ensures
        first_rejected_share(v, peers, packages, from) == stop,
    decreases stop - from,
{
    if from < stop {
        assert(share_accepted(v, peers[from], packages[from]));
        lemma_first_share_rejected(v, peers, packages, from + 1, stop);
    }
}

/// A member's third-round peer list names each other member's canonical
/// index.
proof fn lemma_peer_index(members: Seq<Member>, own: int, peers: Seq<Identity>, k: int) -> (j: int)
    requires
        well_formed_cohort(members),
        0 <= own < members.len(),
        valid_peer_set(members, own, peers),
        0 <= k < peers.len(),
    ensures
        j == index_of(members, peers[k]),
        0 <= j < members.len(),
        j != own,
        members[j].identity == peers[k],
{
    assert(is_member(members, peers[k]));
    let j = index_of(members, peers[k]);
    assert(is_member_at(members, peers[k], j));
    j
}

/// By canonical index, a member's view of all constant terms is the run's.
proof fn lemma_constants_agree(run: Run, a: int)
    requires
        run.wf(),
        0 <= a < run.sessions.len(),
    ensures
        constants_of(run.before_round3(a)) == Seq::new(
            run.sessions.len(),
            |i: int| run.sessions[i].commitment[0],
        ),
{
    assert(run.member_ready(a));
    let n = run.sessions.len();
    let own = constants_of(run.before_round3(a));
    let all = Seq::new(n, |i: int| run.sessions[i].commitment[0]);
    assert forall|i: int| 0 <= i < n implies own[i] == all[i] by {
        if i != a {
            lemma_received_commitment(run, a, i);
        }
    }
    assert(own =~= all);
}

/// Agreement. Whenever every member of a cohort has done the first two
/// rounds and is handed, in its third, what its peers made in their second,
/// every member's third round answers with the same public key: the one
/// that the run fixes. This holds whatever the order in which a member
/// names its peers, in the second round or in the third.
pub proof fn lemma_honest_members_agree(run: Run, a: int, round3_peers: Seq<Identity>)
    requires
        run.wf(),
        0 <= a < run.sessions.len(),
        valid_peer_set(run.members(), a, round3_peers),
    ensures
        round3_outcome(
            run.before_round3(a),
            round3_peers,
            run.broadcasts_for(round3_peers),
            run.packages_for(round3_peers),
        ) == Ok::<PublicKey, DkgError>(run.public_key()),
{
    assert(run.member_ready(a));
    let v = run.before_round3(a);
    let members = run.members();
    let broadcasts = run.broadcasts_for(round3_peers);
    let packages = run.packages_for(round3_peers);
    assert forall|k: int| 0 <= k < round3_peers.len() implies proof_accepted(
        v,
        #[trigger] round3_peers[k],
        broadcasts[k],
    ) by {
        let j = lemma_peer_index(members, a, round3_peers, k);
        lemma_honest_proof_accepted(run, a, j);
    }
    assert forall|k: int| 0 <= k < round3_peers.len() implies share_accepted(
        v,
        #[trigger] round3_peers[k],
        packages[k],
    ) by {
        let j = lemma_peer_index(members, a, round3_peers, k);
        lemma_honest_share_accepted(run, a, j);
    }
    lemma_no_proof_rejected(v, round3_peers, broadcasts, 0);
    lemma_first_share_rejected(v, round3_peers, packages, 0, round3_peers.len() as int);
    lemma_constants_agree(run, a);
}

/// Agreement, from the start. Sessions that are opened for the members of
/// one cohort, each given enough entropy for its first round, end with the
/// same public key, whatever entropy each drew and in whatever order each
/// names its peers.
pub proof fn lemma_agreement_from_created(
    created: Seq<ParticipantView>,
    words: Seq<Seq<u64>>,
    round2_peers: Seq<Seq<Identity>>,
    a: int,
    a_peers: Seq<Identity>,
    b: int,
    b_peers: Seq<Identity>,
)
    requires
        created.len() > 0,
        created.len() == created[0].members.len(),
        words.len() == created.len(),
        round2_peers.len() == created.len(),
        forall|i: int|
            0 <= i < created.len() ==> {
                &&& (#[trigger] created[i]).wf()
                &&& created[i].state == SessionState::Created
                &&& created[i].members == created[0].members
                &&& created[i].index == i
                &&& words[i].len() >= entropy_needed(created[i])
                &&& valid_peer_set(created[0].members, i, round2_peers[i])
            },
        0 <= a < created.len(),
        0 <= b < created.len(),
        valid_peer_set(created[0].members, a, a_peers),
        valid_peer_set(created[0].members, b, b_peers),
    ensures
        ({
            let run = Run {
                sessions: Seq::new(created.len(), |i: int| after_round1(created[i], words[i])),
                round2_peers,
            };
            &&& run.wf()
            &&& round3_outcome(
                run.before_round3(a),
                a_peers,
                run.broadcasts_for(a_peers),
                run.packages_for(a_peers),
            ) == Ok::<PublicKey, DkgError>(run.public_key())
            &&& round3_outcome(
                run.before_round3(b),
                b_peers,
                run.broadcasts_for(b_peers),
                run.packages_for(b_peers),
            ) == Ok::<PublicKey, DkgError>(run.public_key())
        }),
{
    let run = Run {
        sessions: Seq::new(created.len(), |i: int| after_round1(created[i], words[i])),
        round2_peers,
    };
    assert forall|i: int| 0 <= i < run.sessions.len() implies run.member_ready(i) by {
        assert(created[i].wf());
        assert(created[0].wf());
        lemma_round1_succeeds(created[i], words[i]);
        lemma_round1_succeeds(created[0], words[0]);
    }
    assert(created[0].wf());
    lemma_round1_succeeds(created[0], words[0]);
    lemma_honest_members_agree(run, a, a_peers);
    lemma_honest_members_agree(run, b, b_peers);
}

/// Any two members of a run answer alike in the third round.
pub proof fn lemma_outputs_identical(
    run: Run,
    a: int,
    a_peers: Seq<Identity>,
    b: int,
    b_peers: Seq<Identity>,
)
    requires
        run.wf(),
        0 <= a < run.sessions.len(),
        0 <= b < run.sessions.len(),
        valid_peer_set(run.members(), a, a_peers),
        valid_peer_set(run.members(), b, b_peers),
    ensures
        round3_outcome(
            run.before_round3(a),
            a_peers,
            run.broadcasts_for(a_peers),
            run.packages_for(a_peers),
        ) == round3_outcome(
            run.before_round3(b),
            b_peers,
            run.broadcasts_for(b_peers),
            run.packages_for(b_peers),
        ),
        round3_outcome(
            run.before_round3(a),
            a_peers,
            run.broadcasts_for(a_peers),
            run.packages_for(a_peers),
        ) is Ok,
{
    lemma_honest_members_agree(run, a, a_peers);
    lemma_honest_members_agree(run, b, b_peers);
}

/// Tamper evidence. If, on its way to one member, the package of one peer
/// is changed so that it holds another fragment for that member than the
/// peer made, or none, while everything else is delivered as made, then the
/// member's third round fails with `ShareVerificationFailed` for that peer
/// and leaves the session `Aborted`, with no key.
pub proof fn lemma_tampered_fragment_aborts(
    run: Run,
    a: int,
    round3_peers: Seq<Identity>,
    k: int,
    tampered: Seq<Fragment>,
)
    requires
        run.wf(),
        0 <= a < run.sessions.len(),
        valid_peer_set(run.members(), a, round3_peers),
        0 <= k < round3_peers.len(),
        fragment_for(tampered, run.members()[a].identity) != fragment_for(
            run.packages_for(round3_peers)[k],
            run.members()[a].identity,
        ),
    ensures
        ({
            let packages = run.packages_for(round3_peers).update(k, tampered);
            let outcome = round3_outcome(
                run.before_round3(a),
                round3_peers,
                run.broadcasts_for(round3_peers),
                packages,
            );
            let left = after_round3(run.before_round3(a), round3_peers, packages, outcome);
            &&& outcome == Err::<PublicKey, DkgError>(
                DkgError::ShareVerificationFailed { peer: round3_peers[k] },
            )
            &&& left.state == SessionState::Aborted
            &&& left.wiped()
        }),
{
    assert(run.member_ready(a));
    let v = run.before_round3(a);
    let members = run.members();
    let broadcasts = run.broadcasts_for(round3_peers);
    let honest = run.packages_for(round3_peers);
    let packages = honest.update(k, tampered);
    assert forall|i: int| 0 <= i < round3_peers.len() implies proof_accepted(
        v,
        #[trigger] round3_peers[i],
        broadcasts[i],
    ) by {
        let j = lemma_peer_index(members, a, round3_peers, i);
        lemma_honest_proof_accepted(run, a, j);
    }
    assert forall|i: int| 0 <= i < k implies share_accepted(
        v,
        #[trigger] round3_peers[i],
        packages[i],
    ) by {
        let j = lemma_peer_index(members, a, round3_peers, i);
        lemma_honest_share_accepted(run, a, j);
    }
    // the changed fragment cannot pass
    let j = lemma_peer_index(members, a, round3_peers, k);
    lemma_honest_share_accepted(run, a, j);
    lemma_received_commitment(run, a, j);
    if share_accepted_at(v, j, tampered) {
        let key = pair_key(v.secret_key, members[j].public_key);
        let made = fragment_for(run.package_of(j), v.identity)->0;
        let got = fragment_for(tampered, v.identity)->0;
        lemma_one_share_matches(
            v.received[j],
            evaluation_point(a) as nat,
            opened_share_at(v, j, run.package_of(j)),
            opened_share_at(v, j, tampered),
        );
        lemma_unseal_injective(made as int, got as int, key);
        assert(false);
    }
    lemma_no_proof_rejected(v, round3_peers, broadcasts, 0);
    lemma_first_share_rejected(v, round3_peers, packages, 0, k);
}

/// What the commitments fix for a member's share: the value of its own
/// commitment at its evaluation point, times the values of the commitments
/// received from the first `upto` peers.
pub open spec fn committed_share(v: ParticipantView, peers: Seq<Identity>, upto: int) -> int
    decreases upto,
{
    if upto <= 0 {
        commitment_at(v.commitment, evaluation_point(v.index) as nat)
    } else {
        gmul(
            committed_share(v, peers, upto - 1),
            commitment_at(
                v.received[index_of(v.members, peers[upto - 1])],
                evaluation_point(v.index) as nat,
            ),
        )
    }
}

/// The share that a member ends with is bound by the commitments. Whenever
/// the shares of the first `upto` peers are accepted, the generator raised
/// to the sum of the member's own share and theirs is what the commitments
/// fix for it: anyone who holds the commitments can check the share without
/// seeing it.
pub proof fn lemma_share_is_committed(
    v: ParticipantView,
    peers: Seq<Identity>,
    packages: Seq<Seq<Fragment>>,
    upto: int,
)
    requires
        v.wf(),
        v.state == SessionState::Round2Done,
        0 <= upto <= peers.len(),
        forall|k: int| 0 <= k < upto ==> share_accepted(v, #[trigger] peers[k], packages[k]),
    ensures
        0 <= share_total(v, peers, packages, upto) < Q,
        gpow(G as int, share_total(v, peers, packages, upto) as nat) == committed_share(
            v,
            peers,
            upto,
        ),
    decreases upto,
{
    let x = evaluation_point(v.index);
    if upto <= 0 {
        lemma_evaluate_is_scalar(v.polynomial, x);
        lemma_commitment_opens(v.polynomial, x as nat);
    } else {
        lemma_share_is_committed(v, peers, packages, upto - 1);
        let before = share_total(v, peers, packages, upto - 1);
        let opened = opened_share(v, peers[upto - 1], packages[upto - 1]);
        assert(share_accepted(v, peers[upto - 1], packages[upto - 1]));
        lemma_generator_exponent_reduces((before + opened) as nat);
        lemma_gpow_adds(G as int, before as nat, opened as nat);
    }
}

/// A list that names an identity twice is never a cohort, whatever the
/// registry holds.
pub proof fn lemma_duplicate_never_builds(registry: &IdentityRegistry, identities: Seq<Identity>)
    requires
        has_duplicate(identities),
    ensures
        build_outcome(registry, identities) == Err::<Seq<Member>, DkgError>(
            DkgError::InvalidCohort,
        ),
{
}

/// An identity that is not a member of the cohort gets no session: the
/// answer is `IdentityNotInCohort`, whose diagnostic is not empty.
pub proof fn lemma_outsider_never_admitted(
    registry: &IdentityRegistry,
    identity: Identity,
    members: Seq<Member>,
)
    requires
        !is_member(members, identity),
    ensures
        admission(registry, identity, members) == Err::<ParticipantView, DkgError>(
            DkgError::IdentityNotInCohort,
        ),
        DkgError::IdentityNotInCohort.message().len() > 0,
{
    DkgError::IdentityNotInCohort.lemma_message_nonempty();
}

/// A round called before the one that comes before it fails with
/// `InvalidRoundSequence` and leaves the session as it was.
pub proof fn lemma_rounds_in_order(
    v: ParticipantView,
    peers: Seq<Identity>,
    commitments: Seq<Seq<u64>>,
    broadcasts: Seq<Round2Broadcast>,
    packages: Seq<Seq<Fragment>>,
)
    ensures
        v.state == SessionState::Created ==> round2_outcome(v, peers, commitments) == Err::<
            (KnowledgeProof, Seq<Fragment>),
            DkgError,
        >(DkgError::InvalidRoundSequence),
        v.state == SessionState::Created || v.state == SessionState::Round1Done ==> {
            let outcome = round3_outcome(v, peers, broadcasts, packages);
            &&& outcome == Err::<PublicKey, DkgError>(DkgError::InvalidRoundSequence)
            &&& after_round3(v, peers, packages, outcome) == v
        },
{
}

/// Once an identity is released, no list that names it is a cohort.
pub proof fn lemma_released_never_builds(
    before: &IdentityRegistry,
    after: &IdentityRegistry,
    released: Identity,
    identities: Seq<Identity>,
    k: int,
)
    requires
        before.is_live(released),
        after@ == before@.update(released.id as int, KeyRecord { live: false, secret: 0 }),
        0 <= k < identities.len(),
        identities[k] == released,
    ensures
        build_outcome(after, identities) is Err,
{
    lemma_first_released_found(after, identities, 0, k);
}

/// An identity that is not live stops the search for one at or before its
/// own position.
proof fn lemma_first_released_found(
    registry: &IdentityRegistry,
    identities: Seq<Identity>,
    from: int,
    k: int,
)
    requires
        0 <= from <= k < identities.len(),
        !registry.is_live(identities[k]),
    ensures
        first_released(registry, identities, from) <= k,
    decreases k - from,
{
    if from < k && registry.is_live(identities[from]) {
        lemma_first_released_found(registry, identities, from + 1, k);
    }
}

} // verus!
