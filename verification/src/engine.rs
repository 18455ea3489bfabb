//! The three rounds.
//!
//! Each round is a function of the session, of what the caller hands in and,
//! in the first round, of the entropy drawn. What a round answers and what it
//! leaves behind are stated over the session's view; the rounds themselves
//! only compute what those statements say.

use crate::artifacts::{
    commitment_views, fragment_for, package_views, Commitment, Fragment, P2pPackage, PublicKey,
    Round2Broadcast, Round2Output,
};
use crate::cohort::{
    evaluation_point, has_duplicate, index_of, is_member, is_member_at, lemma_index_unique,
    well_formed_cohort, CohortConfig, Member,
};
use crate::entropy::EntropyPool;
use crate::error::DkgError;
use crate::group::{gmul, group_mul, sadd, scalar_add, Q};
use crate::identity::Identity;
use crate::knowledge::{
    knowledge_proof, lemma_proof_complete, proof_verifies, prove_knowledge, verify_knowledge,
    KnowledgeProof,
};
use crate::participant::{Participant, ParticipantView, SessionState};
use crate::polynomial::{
    check_commitment, check_share, commit, commit_polynomial, commitment_well_formed, evaluate,
    evaluate_polynomial, scalar_of, share_matches,
};
use crate::sealing::{derive_pair_key, pair_key, seal, seal_share, unseal, unseal_share};
use vstd::prelude::*;

verus! {

/// The identity occurs among the peers.
pub open spec fn names_peer(peers: Seq<Identity>, identity: Identity) -> bool {
    exists|k: int| 0 <= k < peers.len() && peers[k] == identity
}

/// A position at which the identity occurs among the peers.
pub open spec fn position_in(peers: Seq<Identity>, identity: Identity) -> int {
    choose|k: int| 0 <= k < peers.len() && peers[k] == identity
}

/// The peers are the cohort without the member at `own`: every peer is
/// another member, none occurs twice and no other member is left out.
pub open spec fn valid_peer_set(members: Seq<Member>, own: int, peers: Seq<Identity>) -> bool {
    &&& forall|k: int|
        0 <= k < peers.len() ==> is_member(members, #[trigger] peers[k]) && peers[k]
            != members[own].identity
    &&& !has_duplicate(peers)
    &&& forall|i: int|
        0 <= i < members.len() && i != own ==> names_peer(peers, (#[trigger] members[i]).identity)
}

/// Number of words of entropy that the first round draws: one for each
/// coefficient and one for the nonce of the proof.
pub open spec fn entropy_needed(v: ParticipantView) -> nat {
    v.threshold() + 1
}

/// The polynomial that the first round makes of the words it draws.
pub open spec fn drawn_polynomial(words: Seq<u64>, threshold: nat) -> Seq<u64> {
    Seq::new(threshold, |k: int| scalar_of(words[k]))
}

/// What the first round answers: the commitment to the polynomial drawn, or
/// why none was drawn.
pub open spec fn round1_outcome(v: ParticipantView, words: Seq<u64>) -> Result<Seq<u64>, DkgError> {
    if v.state != SessionState::Created {
        Err(DkgError::InvalidRoundSequence)
    } else if words.len() < entropy_needed(v) {
        Err(DkgError::EntropyExhausted)
    } else {
        Ok(commit(drawn_polynomial(words, v.threshold())))
    }
}

/// The session after a first round that drew these words.
pub open spec fn after_round1(v: ParticipantView, words: Seq<u64>) -> ParticipantView {
    let polynomial = drawn_polynomial(words, v.threshold());
    v.with_polynomial(
        polynomial,
        knowledge_proof(polynomial[0], scalar_of(words[v.threshold() as int]), v.public_key()),
    )
}

/// The fragment that the session makes for a peer: the value of its
/// polynomial at the peer's evaluation point, sealed under the key of the
/// pair.
pub open spec fn sealed_share(v: ParticipantView, peer: Identity) -> Fragment {
    let j = index_of(v.members, peer);
    Fragment {
        recipient: peer,
        ciphertext: seal(
            evaluate(v.polynomial, evaluation_point(j)),
            pair_key(v.secret_key, v.members[j].public_key),
        ) as u64,
    }
}

/// The fragments for the peers, in their order.
pub open spec fn sealed_shares(v: ParticipantView, peers: Seq<Identity>) -> Seq<Fragment> {
    Seq::new(peers.len(), |k: int| sealed_share(v, peers[k]))
}

/// The commitments of the peers by canonical index, the member's own entry
/// left empty.
pub open spec fn taken_in(v: ParticipantView, peers: Seq<Identity>, commitments: Seq<Seq<u64>>) -> Seq<
    Seq<u64>,
> {
    Seq::new(
        v.members.len(),
        |i: int|
            if i == v.index {
                Seq::empty()
            } else {
                commitments[position_in(peers, v.members[i].identity)]
            },
    )
}

/// What the second round answers.
pub open spec fn round2_outcome(
    v: ParticipantView,
    peers: Seq<Identity>,
    commitments: Seq<Seq<u64>>,
) -> Result<(KnowledgeProof, Seq<Fragment>), DkgError> {
    if v.state != SessionState::Round1Done {
        Err(DkgError::InvalidRoundSequence)
    } else if peers.len() != commitments.len() || !valid_peer_set(v.members, v.index, peers) {
        Err(DkgError::PeerSetMismatch)
    } else {
        Ok((v.proof, sealed_shares(v, peers)))
    }
}

/// The proof holds against the commitment received from the member at
/// canonical index `j`.
pub open spec fn proof_accepted_at(v: ParticipantView, j: int, proof: KnowledgeProof) -> bool {
    &&& commitment_well_formed(v.received[j], v.threshold())
    &&& proof_verifies(v.members[j].public_key, v.received[j][0], proof)
}

/// The peer's proof holds against the commitment received from it.
pub open spec fn proof_accepted(v: ParticipantView, peer: Identity, broadcast: Round2Broadcast) -> bool {
    proof_accepted_at(v, index_of(v.members, peer), broadcast.proof)
}

/// What the fragment for this member opens to, in a package that came from
/// the member at canonical index `j`.
pub open spec fn opened_share_at(v: ParticipantView, j: int, package: Seq<Fragment>) -> int {
    unseal(
        fragment_for(package, v.identity)->0 as int,
        pair_key(v.secret_key, v.members[j].public_key),
    )
}

/// What the fragment for this member in a peer's package opens to.
pub open spec fn opened_share(v: ParticipantView, peer: Identity, package: Seq<Fragment>) -> int {
    opened_share_at(v, index_of(v.members, peer), package)
}

/// The package from the member at canonical index `j` holds a fragment for
/// this member that is a scalar and opens to the value of the sender's
/// committed polynomial at this member's evaluation point.
pub open spec fn share_accepted_at(v: ParticipantView, j: int, package: Seq<Fragment>) -> bool {
    &&& fragment_for(package, v.identity) matches Some(ciphertext)
    &&& ciphertext < Q
    &&& share_matches(v.received[j], evaluation_point(v.index) as nat, opened_share_at(v, j, package))
}

/// The peer's package holds an acceptable fragment for this member.
pub open spec fn share_accepted(v: ParticipantView, peer: Identity, package: Seq<Fragment>) -> bool {
    share_accepted_at(v, index_of(v.members, peer), package)
}

/// Position of the first peer at or after `from` whose proof is not
/// accepted; the number of peers when every proof is.
pub open spec fn first_rejected_proof(
    v: ParticipantView,
    peers: Seq<Identity>,
    broadcasts: Seq<Round2Broadcast>,
    from: int,
) -> int
    decreases peers.len() - from,
{
    if from < 0 || from >= peers.len() {
        peers.len() as int
    } else if !proof_accepted(v, peers[from], broadcasts[from]) {
        from
    } else {
        first_rejected_proof(v, peers, broadcasts, from + 1)
    }
}

/// Position of the first peer at or after `from` whose share is not
/// accepted; the number of peers when every share is.
pub open spec fn first_rejected_share(
    v: ParticipantView,
    peers: Seq<Identity>,
    packages: Seq<Seq<Fragment>>,
    from: int,
) -> int
    decreases peers.len() - from,
{
    if from < 0 || from >= peers.len() {
        peers.len() as int
    } else if !share_accepted(v, peers[from], packages[from]) {
        from
    } else {
        first_rejected_share(v, peers, packages, from + 1)
    }
}

/// The member's own share and the shares opened from the first `upto`
/// peers, added up in the scalar field.
pub open spec fn share_total(
    v: ParticipantView,
    peers: Seq<Identity>,
    packages: Seq<Seq<Fragment>>,
    upto: int,
) -> int
    decreases upto,
{
    if upto <= 0 {
        evaluate(v.polynomial, evaluation_point(v.index))
    } else {
        sadd(
            share_total(v, peers, packages, upto - 1),
            opened_share(v, peers[upto - 1], packages[upto - 1]),
        )
    }
}

/// By canonical index, the commitment to each member's constant term: the
/// member's own, and what it received from the others.
pub open spec fn constants_of(v: ParticipantView) -> Seq<u64> {
    Seq::new(
        v.members.len(),
        |i: int|
            if i == v.index {
                v.commitment[0]
            } else {
                v.received[i][0]
            },
    )
}

/// The joint public key: the product of the commitments to all constant
/// terms, taken in canonical order.
pub open spec fn joint_key(constants: Seq<u64>) -> int
    decreases constants.len(),
{
    if constants.len() == 0 {
        1
    } else {
        gmul(joint_key(constants.drop_last()), constants.last() as int)
    }
}

/// What the third round answers: the joint key, or the first check that
/// failed. Proofs are checked before shares, and each in the order of the
/// peers.
pub open spec fn round3_outcome(
    v: ParticipantView,
    peers: Seq<Identity>,
    broadcasts: Seq<Round2Broadcast>,
    packages: Seq<Seq<Fragment>>,
) -> Result<PublicKey, DkgError> {
    if v.state != SessionState::Round2Done {
        Err(DkgError::InvalidRoundSequence)
    } else if peers.len() != broadcasts.len() || peers.len() != packages.len() || !valid_peer_set(
        v.members,
        v.index,
        peers,
    ) {
        Err(DkgError::PeerSetMismatch)
    } else if first_rejected_proof(v, peers, broadcasts, 0) < peers.len() {
        Err(DkgError::InvalidProof { peer: peers[first_rejected_proof(v, peers, broadcasts, 0)] })
    } else if first_rejected_share(v, peers, packages, 0) < peers.len() {
        Err(
            DkgError::ShareVerificationFailed {
                peer: peers[first_rejected_share(v, peers, packages, 0)],
            },
        )
    } else {
        Ok(PublicKey { value: joint_key(constants_of(v)) as u64 })
    }
}

/// The session after a third round with this outcome: completed where it
/// gave a key, given up where a peer failed a check, unchanged where the
/// call itself was refused.
pub open spec fn after_round3(
    v: ParticipantView,
    peers: Seq<Identity>,
    packages: Seq<Seq<Fragment>>,
    outcome: Result<PublicKey, DkgError>,
) -> ParticipantView {
    match outcome {
        Ok(key) => v.completed(
            share_total(v, peers, packages, peers.len() as int) as u64,
            key.value,
        ),
        Err(DkgError::InvalidProof { .. }) | Err(DkgError::ShareVerificationFailed { .. }) =>
            v.aborted(),
        Err(_) => v,
    }
}

struct PeerMap {
    /// For each peer, its canonical index.
    indices: Vec<usize>,
    /// For each canonical index but the member's own, where that member
    /// stands among the peers.
    positions: Vec<usize>,
}

impl PeerMap {
    spec fn maps(&self, members: Seq<Member>, own: int, peers: Seq<Identity>) -> bool {
        &&& self.indices@.len() == peers.len()
        &&& self.positions@.len() == members.len()
        &&& forall|k: int|
            0 <= k < peers.len() ==> {
                &&& (#[trigger] self.indices@[k]) != own
                &&& is_member_at(members, peers[k], self.indices@[k] as int)
            }
        &&& forall|i: int|
            0 <= i < members.len() && i != own ==> {
                &&& 0 <= (#[trigger] self.positions@[i]) < peers.len()
                &&& peers[self.positions@[i] as int] == members[i].identity
            }
    }
}

/// In a peer list without duplicates an identity stands at one position.
proof fn lemma_position_unique(peers: Seq<Identity>, identity: Identity, k: int)
    requires
        !has_duplicate(peers),
        0 <= k < peers.len(),
        peers[k] == identity,
    ensures
        names_peer(peers, identity),
        position_in(peers, identity) == k,
{
    let c = position_in(peers, identity);
    if c < k {
        assert(0 <= c < k < peers.len() && peers[c] == peers[k]);
    } else if k < c {
        assert(0 <= k < c < peers.len() && peers[k] == peers[c]);
    }
}

/// Checks the peers against the cohort and maps each to its index.
fn map_peers(config: &CohortConfig, own: usize, peers: &Vec<Identity>) -> (result: Option<PeerMap>)
    requires
        config.wf(),
        own < config@.len(),
    ensures
        match result {
            Some(map) => valid_peer_set(config@, own as int, peers@) && map.maps(
                config@,
                own as int,
                peers@,
            ),
            None => !valid_peer_set(config@, own as int, peers@),
        },
{
    let n: usize = config.len();
    let m: usize = peers.len();
    let mut positions: Vec<usize> = Vec::new();
    let mut i: usize = 0;
    while i < n
        invariant
            i <= n,
            positions@.len() == i,
            forall|a: int| 0 <= a < i ==> positions@[a] == m,
        decreases n - i,
    {
        positions.push(m);
        i = i + 1;
    }
    let mut indices: Vec<usize> = Vec::new();
    let mut k: usize = 0;
    while k < m
        invariant
            config.wf(),
            n == config@.len(),
            m == peers@.len(),
            own < n,
            k <= m,
            indices@.len() == k,
            positions@.len() == n,
            forall|a: int|
                0 <= a < k ==> {
                    &&& (#[trigger] indices@[a]) != own
                    &&& is_member_at(config@, peers@[a], indices@[a] as int)
                },
            forall|a: int, b: int| 0 <= a < b < k ==> peers@[a] != peers@[b],
            forall|i: int|
                0 <= i < n ==> {
                    &&& (#[trigger] positions@[i]) <= m
                    &&& positions@[i] < m ==> positions@[i] < k && peers@[positions@[i] as int]
                        == config@[i].identity
                    &&& positions@[i] == m ==> forall|a: int|
                        0 <= a < k ==> peers@[a] != config@[i].identity
                },
        decreases m - k,
    {
        let peer = peers[k];
        let j = match config.position(peer) {
            None => {
                return None;
            },
            Some(j) => j,
        };
        if j == own {
            return None;
        }
        if positions[j] < m {
            assert(peers@[positions@[j as int] as int] == peers@[k as int]);
            assert(has_duplicate(peers@));
            return None;
        }
        positions.set(j, k);
        indices.push(j);
        k = k + 1;
    }
    let mut i: usize = 0;
    while i < n
        invariant
            n == config@.len(),
            m == peers@.len(),
            positions@.len() == n,
            i <= n,
            forall|a: int| 0 <= a < i && a != own ==> (#[trigger] positions@[a]) < m,
            forall|i: int|
                0 <= i < n ==> {
                    &&& (#[trigger] positions@[i]) <= m
                    &&& positions@[i] < m ==> peers@[positions@[i] as int] == config@[i].identity
                    &&& positions@[i] == m ==> forall|a: int|
                        0 <= a < m ==> peers@[a] != config@[i].identity
                },
        decreases n - i,
    {
        if i != own && positions[i] >= m {
            assert(!names_peer(peers@, config@[i as int].identity));
            return None;
        }
        i = i + 1;
    }
    let map = PeerMap { indices, positions };
    proof {
        assert forall|k: int| 0 <= k < peers@.len() implies is_member(config@, #[trigger] peers@[k])
            && peers@[k] != config@[own as int].identity by {
            let j = map.indices@[k] as int;
            assert(is_member_at(config@, peers@[k], j));
        }
        assert forall|i: int| 0 <= i < config@.len() && i != own implies names_peer(
            peers@,
            (#[trigger] config@[i]).identity,
        ) by {
            let p = map.positions@[i] as int;
            assert(0 <= p < peers@.len() && peers@[p] == config@[i].identity);
        }
    }
    Some(map)
}

/// The protocol engine: the three rounds of a session.
pub struct DkgEngine {}

impl DkgEngine {
    /// First round: draws a secret polynomial and the nonce of its proof
    /// and answers with the commitment to the polynomial.
    ///
    /// Fails with `InvalidRoundSequence` unless the session is `Created`,
    /// otherwise with `EntropyExhausted` when the pool holds fewer words
    /// than the round needs. A failed call changes neither the session
    /// nor the pool.
    pub fn round1(participant: &mut Participant, entropy: &mut EntropyPool) -> (result: Result<
        Commitment,
        DkgError,
    >)
        ensures
            final(participant).wf(),
            match result {
                Ok(commitment) => {
                    &&& round1_outcome(old(participant)@, old(entropy)@) == Ok::<
                        Seq<u64>,
                        DkgError,
                    >(commitment@)
                    &&& final(participant)@ == after_round1(old(participant)@, old(entropy)@)
                    &&& final(entropy)@ == old(entropy)@.skip(
                        entropy_needed(old(participant)@) as int,
                    )
                },
                Err(error) => {
                    &&& round1_outcome(old(participant)@, old(entropy)@) == Err::<
                        Seq<u64>,
                        DkgError,
                    >(error)
                    &&& final(participant)@ == old(participant)@
                    &&& final(entropy)@ == old(entropy)@
                },
            },
    {
        if participant.state() != SessionState::Created {
            return Err(DkgError::InvalidRoundSequence);
        }
        let ghost v = participant@;
        let t: usize = participant.config().threshold();
        if entropy.available() < t + 1 {
            return Err(DkgError::EntropyExhausted);
        }
        let mut polynomial: Vec<u64> = Vec::new();
        let mut k: usize = 0;
        while k < t
            invariant
                k <= t,
                old(entropy)@.len() >= t + 1,
                entropy@ == old(entropy)@.skip(k as int),
                polynomial@.len() == k,
                forall|i: int| 0 <= i < k ==> polynomial@[i] == scalar_of(old(entropy)@[i]),
            decreases t - k,
        {
            let word = entropy.draw().unwrap();
            polynomial.push(word % Q);
            assert(old(entropy)@.skip(k as int).skip(1) =~= old(entropy)@.skip(k + 1));
            k = k + 1;
        }
        let word = entropy.draw().unwrap();
        let nonce: u64 = word % Q;
        assert(old(entropy)@.skip(t as int).skip(1) =~= old(entropy)@.skip(t + 1));
        assert(polynomial@ =~= drawn_polynomial(old(entropy)@, t as nat));
        let own: usize = participant.index();
        let public_key: u64 = participant.config().member_at(own).public_key;
        let commitment: Vec<u64> = commit_polynomial(&polynomial);
        let proof = prove_knowledge(polynomial[0], nonce, public_key);
        proof {
            lemma_proof_complete(polynomial@[0], nonce, public_key);
        }
        let answer = Commitment { coefficients: commitment.clone() };
        participant.record_round1(polynomial, commitment, proof);
        Ok(answer)
    }

    /// Second round: takes in the peers' commitments and answers with the
    /// proof for all peers and one sealed share for each.
    ///
    /// Fails with `InvalidRoundSequence` unless the session is
    /// `Round1Done`; otherwise with `PeerSetMismatch` unless there is one
    /// commitment for each peer and the peers are the cohort without this
    /// member. A failed call changes nothing.
    pub fn round2(
        participant: &mut Participant,
        peers: &Vec<Identity>,
        peer_commitments: &Vec<Commitment>,
    ) -> (result: Result<Round2Output, DkgError>)
        ensures
            final(participant).wf(),
            match result {
                Ok(output) => {
                    &&& round2_outcome(
                        old(participant)@,
                        peers@,
                        commitment_views(peer_commitments@),
                    ) == Ok::<(KnowledgeProof, Seq<Fragment>), DkgError>(
                        (output.broadcast.proof, output.p2p@),
                    )
                    &&& final(participant)@ == old(participant)@.with_received(
                        taken_in(old(participant)@, peers@, commitment_views(peer_commitments@)),
                    )
                },
                Err(error) => {
                    &&& round2_outcome(
                        old(participant)@,
                        peers@,
                        commitment_views(peer_commitments@),
                    ) == Err::<(KnowledgeProof, Seq<Fragment>), DkgError>(error)
                    &&& final(participant)@ == old(participant)@
                },
            },
    {
        if participant.state() != SessionState::Round1Done {
            return Err(DkgError::InvalidRoundSequence);
        }
        let ghost v = participant@;
        let ghost given = commitment_views(peer_commitments@);
        let m: usize = peers.len();
        if m != peer_commitments.len() {
            return Err(DkgError::PeerSetMismatch);
        }
        let own: usize = participant.index();
        let map = match map_peers(participant.config(), own, peers) {
            None => {
                return Err(DkgError::PeerSetMismatch);
            },
            Some(map) => map,
        };
        let n: usize = participant.config().len();
        let secret_key: u64 = participant.secret_key();
        let mut fragments: Vec<Fragment> = Vec::new();
        let mut k: usize = 0;
        while k < m
            invariant
                participant@ == v,
                v.wf(),
                m == peers@.len(),
                own == v.index,
                secret_key == v.secret_key,
                map.maps(v.members, own as int, peers@),
                k <= m,
                fragments@.len() == k,
                forall|a: int| 0 <= a < k ==> fragments@[a] == sealed_share(v, peers@[a]),
            decreases m - k,
        {
            let j: usize = map.indices[k];
            proof {
                lemma_index_unique(v.members, peers@[k as int], j as int);
            }
            let x: u64 = (j + 1) as u64;
            let share: u64 = evaluate_polynomial(participant.polynomial(), x);
            let key: u64 = derive_pair_key(secret_key, participant.config().member_at(j).public_key);
            fragments.push(Fragment { recipient: peers[k], ciphertext: seal_share(share, key) });
            k = k + 1;
        }
        assert(fragments@ =~= sealed_shares(v, peers@));
        let mut received: Vec<Commitment> = Vec::new();
        let mut i: usize = 0;
        while i < n
            invariant
                v.wf(),
                n == v.members.len(),
                m == peers@.len(),
                m == peer_commitments@.len(),
                own == v.index,
                given == commitment_views(peer_commitments@),
                valid_peer_set(v.members, own as int, peers@),
                map.maps(v.members, own as int, peers@),
                i <= n,
                received@.len() == i,
                forall|a: int|
                    0 <= a < i ==> (#[trigger] received@[a])@ == taken_in(v, peers@, given)[a],
            decreases n - i,
        {
            if i == own {
                received.push(Commitment { coefficients: Vec::new() });
            } else {
                let p: usize = map.positions[i];
                proof {
                    lemma_position_unique(peers@, v.members[i as int].identity, p as int);
                }
                received.push(peer_commitments[p].clone());
            }
            i = i + 1;
        }
        assert(commitment_views(received@) =~= taken_in(v, peers@, given));
        let broadcast = Round2Broadcast { proof: participant.own_proof() };
        participant.record_round2(received);
        Ok(Round2Output { broadcast, p2p: P2pPackage { fragments } })
    }

    /// Third round: checks every peer's proof against the commitment it
    /// sent, then every peer's fragment for this member against that
    /// commitment, and answers with the joint public key.
    ///
    /// Fails with `InvalidRoundSequence` unless the session is
    /// `Round2Done`, and with `PeerSetMismatch` unless there is one
    /// broadcast and one package for each peer and the peers are the cohort
    /// without this member; such a call changes nothing. Fails with
    /// `InvalidProof` or `ShareVerificationFailed`, naming the first peer
    /// that failed the check, and then the session is `Aborted` and its
    /// secrets are gone.
    pub fn round3(
        participant: &mut Participant,
        peers: &Vec<Identity>,
        broadcasts: &Vec<Round2Broadcast>,
        p2p_from_peers: &Vec<P2pPackage>,
    ) -> (result: Result<PublicKey, DkgError>)
        ensures
            final(participant).wf(),
            result == round3_outcome(
                old(participant)@,
                peers@,
                broadcasts@,
                package_views(p2p_from_peers@),
            ),
            final(participant)@ == after_round3(
                old(participant)@,
                peers@,
                package_views(p2p_from_peers@),
                result,
            ),
    {
        if participant.state() != SessionState::Round2Done {
            return Err(DkgError::InvalidRoundSequence);
        }
        let m: usize = peers.len();
        if m != broadcasts.len() || m != p2p_from_peers.len() {
            return Err(DkgError::PeerSetMismatch);
        }
        let map = match map_peers(participant.config(), participant.index(), peers) {
            None => {
                return Err(DkgError::PeerSetMismatch);
            },
            Some(map) => map,
        };
        proof {
            map.lemma_resolves(participant@.members, participant@.index, peers@);
        }
        let bad_proof: usize = find_rejected_proof(participant, peers, broadcasts, &map);
        if bad_proof < m {
            participant.give_up();
            return Err(DkgError::InvalidProof { peer: peers[bad_proof] });
        }
        let (bad_share, total) = open_shares(participant, peers, p2p_from_peers, &map);
        if bad_share < m {
            participant.give_up();
            return Err(DkgError::ShareVerificationFailed { peer: peers[bad_share] });
        }
        proof {
            lemma_every_commitment_held(participant@, peers@, broadcasts@);
        }
        let key: u64 = multiply_constants(participant);
        participant.complete(total, key);
        Ok(PublicKey { value: key })
    }
}

impl DkgEngine {
    /// Gives a session up: it becomes `Aborted` and its secrets are wiped.
    ///
    /// Fails with `InvalidRoundSequence`, changing nothing, when the
    /// session is over already.
    pub fn abort(participant: &mut Participant) -> (result: Result<(), DkgError>)
        ensures
            final(participant).wf(),
            match result {
                Ok(_) => !old(participant)@.is_over() && final(participant)@ == old(
                    participant,
                )@.aborted(),
                Err(error) => old(participant)@.is_over() && error
                    == DkgError::InvalidRoundSequence && final(participant)@ == old(participant)@,
            },
    {
        match participant.state() {
            SessionState::Round3Done => Err(DkgError::InvalidRoundSequence),
            SessionState::Aborted => Err(DkgError::InvalidRoundSequence),
            _ => {
                participant.give_up();
                Ok(())
            },
        }
    }
}

impl PeerMap {
    /// The indices are the canonical indices of the peers.
    spec fn resolves(&self, members: Seq<Member>, peers: Seq<Identity>) -> bool {
        &&& self.indices@.len() == peers.len()
        &&& forall|k: int|
            0 <= k < peers.len() ==> (#[trigger] self.indices@[k]) < members.len() && index_of(
                members,
                peers[k],
            ) == self.indices@[k]
    }

    proof fn lemma_resolves(&self, members: Seq<Member>, own: int, peers: Seq<Identity>)
        requires
            well_formed_cohort(members),
            self.maps(members, own, peers),
        ensures
            self.resolves(members, peers),
    {
        assert forall|k: int| 0 <= k < peers.len() implies (#[trigger] self.indices@[k])
            < members.len() && index_of(members, peers[k]) == self.indices@[k] by {
            lemma_index_unique(members, peers[k], self.indices@[k] as int);
        }
    }
}

/// Checks the proof that came from the member at canonical index `j`.
fn check_peer_proof(participant: &Participant, j: usize, proof: &KnowledgeProof) -> (ok: bool)
    requires
        participant.wf(),
        participant@.state == SessionState::Round2Done,
        j < participant@.members.len(),
    ensures
        ok == proof_accepted_at(participant@, j as int, *proof),
{
    let public_key: u64 = participant.config().member_at(j).public_key;
    let commitment = participant.received_at(j);
    if check_commitment(&commitment.coefficients, participant.config().threshold()) {
        verify_knowledge(public_key, commitment.coefficients[0], proof)
    } else {
        false
    }
}

/// Opens the fragment for this member in the package that came from the
/// member at canonical index `j`, and checks it.
fn open_peer_share(participant: &Participant, j: usize, package: &P2pPackage) -> (opened: Option<
    u64,
>)
    requires
        participant.wf(),
        participant@.state == SessionState::Round2Done,
        j < participant@.members.len(),
    ensures
        match opened {
            Some(share) => share_accepted_at(participant@, j as int, package@) && share
                == opened_share_at(participant@, j as int, package@),
            None => !share_accepted_at(participant@, j as int, package@),
        },
{
    match package.lookup(participant.identity()) {
        None => None,
        Some(ciphertext) => {
            if ciphertext >= Q {
                None
            } else {
                let public_key: u64 = participant.config().member_at(j).public_key;
                let key: u64 = derive_pair_key(participant.secret_key(), public_key);
                let share: u64 = unseal_share(ciphertext, key);
                let x: u64 = (participant.index() + 1) as u64;
                if check_share(&participant.received_at(j).coefficients, x, share) {
                    Some(share)
                } else {
                    None
                }
            }
        },
    }
}

/// Finds the first peer whose proof is not accepted.
fn find_rejected_proof(
    participant: &Participant,
    peers: &Vec<Identity>,
    broadcasts: &Vec<Round2Broadcast>,
    map: &PeerMap,
) -> (position: usize)
    requires
        participant.wf(),
        participant@.state == SessionState::Round2Done,
        peers@.len() == broadcasts@.len(),
        map.resolves(participant@.members, peers@),
    ensures
        position == first_rejected_proof(participant@, peers@, broadcasts@, 0),
        position <= peers@.len(),
{
    let mut k: usize = 0;
    while k < peers.len()
        invariant
            participant.wf(),
            participant@.state == SessionState::Round2Done,
            peers@.len() == broadcasts@.len(),
            map.resolves(participant@.members, peers@),
            k <= peers@.len(),
            first_rejected_proof(participant@, peers@, broadcasts@, 0) == first_rejected_proof(
                participant@,
                peers@,
                broadcasts@,
                k as int,
            ),
        decreases peers@.len() - k,
    {
        if !check_peer_proof(participant, map.indices[k], &broadcasts[k].proof) {
            return k;
        }
        k = k + 1;
    }
    k
}

/// Opens the share of every peer up to the first that is not accepted, and
/// adds them to the member's own.
fn open_shares(
    participant: &Participant,
    peers: &Vec<Identity>,
    packages: &Vec<P2pPackage>,
    map: &PeerMap,
) -> (found: (usize, u64))
    requires
        participant.wf(),
        participant@.state == SessionState::Round2Done,
        peers@.len() == packages@.len(),
        map.resolves(participant@.members, peers@),
    ensures
        found.0 == first_rejected_share(participant@, peers@, package_views(packages@), 0),
        found.0 <= peers@.len(),
        found.0 == peers@.len() ==> found.1 == share_total(
            participant@,
            peers@,
            package_views(packages@),
            peers@.len() as int,
        ),
{
    let ghost v = participant@;
    let ghost views = package_views(packages@);
    let x: u64 = (participant.index() + 1) as u64;
    let mut total: u64 = evaluate_polynomial(participant.polynomial(), x);
    let mut k: usize = 0;
    while k < peers.len()
        invariant
            participant.wf(),
            v == participant@,
            v.state == SessionState::Round2Done,
            views == package_views(packages@),
            peers@.len() == packages@.len(),
            map.resolves(v.members, peers@),
            k <= peers@.len(),
            first_rejected_share(v, peers@, views, 0) == first_rejected_share(
                v,
                peers@,
                views,
                k as int,
            ),
            total == share_total(v, peers@, views, k as int),
            total < Q,
        decreases peers@.len() - k,
    {
        assert(views[k as int] == packages@[k as int]@);
        match open_peer_share(participant, map.indices[k], &packages[k]) {
            None => {
                return (k, total);
            },
            Some(share) => {
                total = scalar_add(total, share);
            },
        }
        k = k + 1;
    }
    (k, total)
}

/// Multiplies the commitments to all constant terms, in canonical order.
fn multiply_constants(participant: &Participant) -> (key: u64)
    requires
        participant.wf(),
        participant@.state == SessionState::Round2Done,
        forall|i: int|
            0 <= i < participant@.members.len() && i != participant@.index ==> (
            #[trigger] participant@.received[i]).len() > 0,
    ensures
        key == joint_key(constants_of(participant@)),
{
    let ghost v = participant@;
    let n: usize = participant.config().len();
    let own: usize = participant.index();
    let mut key: u64 = 1;
    let mut i: usize = 0;
    assert(constants_of(v).take(0) =~= Seq::<u64>::empty());
    while i < n
        invariant
            participant.wf(),
            v == participant@,
            v.state == SessionState::Round2Done,
            n == v.members.len(),
            own == v.index,
            forall|a: int| 0 <= a < n && a != own ==> (#[trigger] v.received[a]).len() > 0,
            i <= n,
            key == joint_key(constants_of(v).take(i as int)),
        decreases n - i,
    {
        let constant: u64 = if i == own {
            participant.commitment()[0]
        } else {
            assert(v.received[i as int].len() > 0);
            participant.received_at(i).coefficients[0]
        };
        proof {
            let upto = constants_of(v).take(i + 1);
            assert(upto.drop_last() =~= constants_of(v).take(i as int));
            assert(upto.last() == constant);
        }
        key = group_mul(key, constant);
        i = i + 1;
    }
    assert(constants_of(v).take(n as int) =~= constants_of(v));
    key
}

/// The first rejected proof lies at or after the place the search starts
/// from.
proof fn lemma_first_rejected_proof_bounds(
    v: ParticipantView,
    peers: Seq<Identity>,
    broadcasts: Seq<Round2Broadcast>,
    from: int,
)
    requires
        0 <= from <= peers.len(),
    ensures
        from <= first_rejected_proof(v, peers, broadcasts, from) <= peers.len(),
    decreases peers.len() - from,
{
    if from < peers.len() && proof_accepted(v, peers[from], broadcasts[from]) {
        lemma_first_rejected_proof_bounds(v, peers, broadcasts, from + 1);
    }
}

/// Where no proof is rejected from `from` on, every proof from there on is
/// accepted.
proof fn lemma_all_proofs_accepted(
    v: ParticipantView,
    peers: Seq<Identity>,
    broadcasts: Seq<Round2Broadcast>,
    from: int,
)
    requires
        0 <= from <= peers.len(),
        first_rejected_proof(v, peers, broadcasts, from) == peers.len(),
    ensures
        forall|a: int|
            from <= a < peers.len() ==> proof_accepted(v, #[trigger] peers[a], broadcasts[a]),
    decreases peers.len() - from,
{
    if from < peers.len() {
        lemma_first_rejected_proof_bounds(v, peers, broadcasts, from + 1);
        lemma_all_proofs_accepted(v, peers, broadcasts, from + 1);
    }
}

/// Once every peer's proof is accepted, a commitment is held for every
/// other member.
proof fn lemma_every_commitment_held(
    v: ParticipantView,
    peers: Seq<Identity>,
    broadcasts: Seq<Round2Broadcast>,
)
    requires
        v.wf(),
        valid_peer_set(v.members, v.index, peers),
        peers.len() == broadcasts.len(),
        first_rejected_proof(v, peers, broadcasts, 0) == peers.len(),
    ensures
        forall|i: int|
            0 <= i < v.members.len() && i != v.index ==> (#[trigger] v.received[i]).len() > 0,
{
    lemma_all_proofs_accepted(v, peers, broadcasts, 0);
    assert forall|i: int| 0 <= i < v.members.len() && i != v.index implies (
    #[trigger] v.received[i]).len() > 0 by {
        assert(names_peer(peers, v.members[i].identity));
        let k = position_in(peers, v.members[i].identity);
        lemma_index_unique(v.members, peers[k], i);
        assert(proof_accepted(v, peers[k], broadcasts[k]));
    }
}

} // verus!
