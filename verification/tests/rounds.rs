use frost_dkg::artifacts::{
    Commitment, Fragment, P2pPackage, PublicKey, Round2Broadcast, Round2Output,
};
use frost_dkg::cohort::CohortConfig;
use frost_dkg::engine::DkgEngine;
use frost_dkg::entropy::EntropyPool;
use frost_dkg::error::DkgError;
use frost_dkg::group::{group_mul, group_pow, scalar_add, G, P, Q};
use frost_dkg::polynomial::evaluate_commitment;
use frost_dkg::identity::{Identity, IdentityRegistry};
use frost_dkg::knowledge::KnowledgeProof;
use frost_dkg::participant::{Participant, SessionState};

fn words(count: usize) -> Vec<u64> {
    let mut out: Vec<u64> = Vec::new();
    let mut w: u64 = 0x9e37_79b9_7f4a_7c15;
    for _ in 0..count {
        w = w.wrapping_mul(6364136223846793005).wrapping_add(1442695040888963407);
        out.push(w);
    }
    out
}

struct Cohort {
    registry: IdentityRegistry,
    entropy: EntropyPool,
    ids: Vec<Identity>,
    config: CohortConfig,
    parties: Vec<Participant>,
}

fn cohort(n: usize) -> Cohort {
    let mut entropy = EntropyPool::new(words(64));
    let mut registry = IdentityRegistry::new();
    let ids: Vec<Identity> =
        (0..n).map(|_| registry.create_identity(&mut entropy).unwrap()).collect();
    let config = CohortConfig::build(&registry, &ids).unwrap();
    let parties = ids.iter().map(|id| Participant::new(&registry, *id, &config).unwrap()).collect();
    Cohort { registry, entropy, ids, config, parties }
}

fn others(c: &Cohort, i: usize) -> Vec<usize> {
    (0..c.ids.len()).filter(|j| *j != i).collect()
}

fn first_round(c: &mut Cohort) -> Vec<Commitment> {
    let mut out = Vec::new();
    for p in c.parties.iter_mut() {
        out.push(DkgEngine::round1(p, &mut c.entropy).unwrap());
    }
    out
}

fn second_round(c: &mut Cohort, r1: &Vec<Commitment>) -> Vec<Round2Output> {
    let mut out = Vec::new();
    for i in 0..c.ids.len() {
        let peers = others(c, i);
        let ids: Vec<Identity> = peers.iter().map(|j| c.ids[*j]).collect();
        let commitments: Vec<Commitment> = peers.iter().map(|j| r1[*j].clone()).collect();
        out.push(DkgEngine::round2(&mut c.parties[i], &ids, &commitments).unwrap());
    }
    out
}

fn third_round_inputs(
    c: &Cohort,
    r2: &Vec<Round2Output>,
    order: &Vec<usize>,
) -> (Vec<Identity>, Vec<Round2Broadcast>, Vec<P2pPackage>) {
    (
        order.iter().map(|j| c.ids[*j]).collect(),
        order.iter().map(|j| r2[*j].broadcast).collect(),
        order.iter().map(|j| r2[*j].p2p.clone()).collect(),
    )
}

fn third_round(c: &mut Cohort, r2: &Vec<Round2Output>, i: usize) -> Result<PublicKey, DkgError> {
    let (ids, broadcasts, packages) = third_round_inputs(c, r2, &others(c, i));
    DkgEngine::round3(&mut c.parties[i], &ids, &broadcasts, &packages)
}

#[test]
fn three_members_derive_the_expected_key() {
    let mut c = cohort(3);
    let r1 = first_round(&mut c);
    assert_eq!(r1[0].coefficients, vec![3512399147, 3750624737]);
    assert_eq!(r1[1].coefficients, vec![214792941, 3401965748]);
    assert_eq!(r1[2].coefficients, vec![246558848, 2425860580]);
    for i in 0..3 {
        assert_eq!(c.parties[i].state(), SessionState::Round1Done);
        assert_eq!(c.parties[i].commitment(), &r1[i].coefficients);
    }
    let r2 = second_round(&mut c, &r1);
    assert_eq!(
        r2[0].broadcast.proof,
        KnowledgeProof { nonce_commitment: 4052956724, response: 1110654808 }
    );
    assert_eq!(
        r2[1].broadcast.proof,
        KnowledgeProof { nonce_commitment: 1932731755, response: 1680626577 }
    );
    assert_eq!(
        r2[2].broadcast.proof,
        KnowledgeProof { nonce_commitment: 3978705869, response: 905832642 }
    );
    assert_eq!(
        r2[0].p2p.fragments,
        vec![
            Fragment { recipient: c.ids[1], ciphertext: 1877166953 },
            Fragment { recipient: c.ids[2], ciphertext: 351153318 },
        ]
    );
    assert_eq!(
        r2[1].p2p.fragments,
        vec![
            Fragment { recipient: c.ids[0], ciphertext: 1573434139 },
            Fragment { recipient: c.ids[2], ciphertext: 1474146888 },
        ]
    );
    assert_eq!(
        r2[2].p2p.fragments,
        vec![
            Fragment { recipient: c.ids[0], ciphertext: 1317569133 },
            Fragment { recipient: c.ids[1], ciphertext: 1366298689 },
        ]
    );
    for i in 0..3 {
        assert_eq!(c.parties[i].state(), SessionState::Round2Done);
        for j in 0..3 {
            if i == j {
                assert!(c.parties[i].received(j).unwrap().coefficients.is_empty());
            } else {
                assert_eq!(c.parties[i].received(j), Some(&r1[j]));
            }
        }
    }
    let shares = [1206214453u64, 1416871497, 1627528541];
    for i in 0..3 {
        let key = third_round(&mut c, &r2, i).unwrap();
        assert_eq!(key, PublicKey { value: 3706454009 });
        assert_eq!(key.to_text(), "dcebfff9");
        assert_eq!(c.parties[i].state(), SessionState::Round3Done);
        assert_eq!(c.parties[i].group_key(), Some(3706454009));
        assert_eq!(c.parties[i].secret_share(), Some(shares[i]));
    }
    assert_eq!(c.entropy.available(), 64 - 3 - 9);
    let product = group_mul(group_mul(r1[0].coefficients[0], r1[1].coefficients[0]), r1[2].coefficients[0]);
    assert_eq!(product, 3706454009);
}

#[test]
fn four_members_agree() {
    let mut c = cohort(4);
    let r1 = first_round(&mut c);
    for commitment in r1.iter() {
        assert_eq!(commitment.coefficients.len(), 3);
    }
    let r2 = second_round(&mut c, &r1);
    let shares = [1981143171u64, 803183682, 791071258, 1944805899];
    for i in 0..4 {
        assert_eq!(third_round(&mut c, &r2, i), Ok(PublicKey { value: 3627429056 }));
        assert_eq!(c.parties[i].secret_share(), Some(shares[i]));
    }
}

#[test]
fn five_members_agree() {
    let mut c = cohort(5);
    let r1 = first_round(&mut c);
    let r2 = second_round(&mut c, &r1);
    for i in 0..5 {
        let key = third_round(&mut c, &r2, i).unwrap();
        assert_eq!(key.value, 2406643256);
        assert_eq!(key.to_text(), "8f727638");
    }
}

#[test]
fn the_order_of_the_peers_does_not_change_the_key() {
    let mut c = cohort(4);
    let r1 = first_round(&mut c);
    // second round: every member names its peers from the last to the first
    let mut r2 = Vec::new();
    for i in 0..4 {
        let mut peers = others(&c, i);
        peers.reverse();
        let ids: Vec<Identity> = peers.iter().map(|j| c.ids[*j]).collect();
        let commitments: Vec<Commitment> = peers.iter().map(|j| r1[*j].clone()).collect();
        r2.push(DkgEngine::round2(&mut c.parties[i], &ids, &commitments).unwrap());
    }
    // third round: rotated
    for i in 0..4 {
        let mut order = others(&c, i);
        order.rotate_left(i % 3);
        let (ids, broadcasts, packages) = third_round_inputs(&c, &r2, &order);
        let key = DkgEngine::round3(&mut c.parties[i], &ids, &broadcasts, &packages);
        assert_eq!(key, Ok(PublicKey { value: 3627429056 }));
    }
}

#[test]
fn joint_key_matches_the_joint_secret() {
    // the constant terms add up to the joint secret, whose public key is the joint key
    let mut c = cohort(3);
    let r1 = first_round(&mut c);
    let secret = scalar_add(scalar_add(89190499, 1495376589), 1558473864);
    assert_eq!(group_pow(G, secret), 3706454009);
    let r2 = second_round(&mut c, &r1);
    assert_eq!(third_round(&mut c, &r2, 0).unwrap().value, 3706454009);
}

#[test]
fn round1_needs_a_created_session() {
    let mut c = cohort(3);
    let first = DkgEngine::round1(&mut c.parties[0], &mut c.entropy).unwrap();
    let left = c.entropy.available();
    let again = DkgEngine::round1(&mut c.parties[0], &mut c.entropy);
    assert_eq!(again, Err(DkgError::InvalidRoundSequence));
    assert_eq!(c.parties[0].state(), SessionState::Round1Done);
    assert_eq!(c.parties[0].commitment(), &first.coefficients);
    assert_eq!(c.entropy.available(), left);
}

#[test]
fn round1_without_enough_entropy_changes_nothing() {
    let mut c = cohort(3);
    for short in 0..3usize {
        let mut pool = EntropyPool::new(words(short));
        let r = DkgEngine::round1(&mut c.parties[0], &mut pool);
        assert_eq!(r, Err(DkgError::EntropyExhausted));
        assert_eq!(pool.available(), short);
        assert_eq!(c.parties[0].state(), SessionState::Created);
        assert!(c.parties[0].commitment().is_empty());
    }
    let mut pool = EntropyPool::new(words(3));
    assert!(DkgEngine::round1(&mut c.parties[0], &mut pool).is_ok());
    assert_eq!(pool.available(), 0);
}

#[test]
fn round1_draws_coefficients_then_nonce() {
    let mut c = cohort(3);
    let mut pool = EntropyPool::new(vec![Q + 5, 2 * Q + 7, 9, 1234]);
    let commitment = DkgEngine::round1(&mut c.parties[1], &mut pool).unwrap();
    assert_eq!(
        commitment.coefficients,
        vec![group_pow(G, 5), group_pow(G, 7)]
    );
    assert_eq!(pool.draw(), Some(1234));
}

#[test]
fn round2_before_round1_fails_and_changes_nothing() {
    let mut c = cohort(3);
    let mut donor = cohort(3);
    let r1 = first_round(&mut donor);
    let r = DkgEngine::round2(
        &mut c.parties[0],
        &vec![c.ids[1], c.ids[2]],
        &vec![r1[1].clone(), r1[2].clone()],
    );
    assert_eq!(r, Err(DkgError::InvalidRoundSequence));
    assert_eq!(c.parties[0].state(), SessionState::Created);
    assert!(c.parties[0].commitment().is_empty());
    for j in 0..3 {
        assert!(c.parties[0].received(j).unwrap().coefficients.is_empty());
    }
    // the session still runs from the start
    assert!(DkgEngine::round1(&mut c.parties[0], &mut c.entropy).is_ok());
}

#[test]
fn round3_before_round2_fails_and_changes_nothing() {
    let mut c = cohort(3);
    let mut donor = cohort(3);
    let d1 = first_round(&mut donor);
    let d2 = second_round(&mut donor, &d1);
    let (ids, broadcasts, packages) = third_round_inputs(&donor, &d2, &vec![1, 2]);
    // before the first round
    let r = DkgEngine::round3(&mut c.parties[0], &ids, &broadcasts, &packages);
    assert_eq!(r, Err(DkgError::InvalidRoundSequence));
    assert_eq!(c.parties[0].state(), SessionState::Created);
    // after the first, before the second
    let own = DkgEngine::round1(&mut c.parties[0], &mut c.entropy).unwrap();
    let r = DkgEngine::round3(&mut c.parties[0], &ids, &broadcasts, &packages);
    assert_eq!(r, Err(DkgError::InvalidRoundSequence));
    assert_eq!(c.parties[0].state(), SessionState::Round1Done);
    assert_eq!(c.parties[0].commitment(), &own.coefficients);
    assert_eq!(c.parties[0].group_key(), None);
}

#[test]
fn no_round_runs_twice() {
    let mut c = cohort(3);
    let r1 = first_round(&mut c);
    let r2 = second_round(&mut c, &r1);
    let again = DkgEngine::round2(
        &mut c.parties[0],
        &vec![c.ids[1], c.ids[2]],
        &vec![r1[1].clone(), r1[2].clone()],
    );
    assert_eq!(again, Err(DkgError::InvalidRoundSequence));
    assert_eq!(c.parties[0].state(), SessionState::Round2Done);
    let key = third_round(&mut c, &r2, 0).unwrap();
    assert_eq!(third_round(&mut c, &r2, 0), Err(DkgError::InvalidRoundSequence));
    assert_eq!(c.parties[0].state(), SessionState::Round3Done);
    assert_eq!(c.parties[0].group_key(), Some(key.value));
    assert_eq!(
        DkgEngine::round1(&mut c.parties[0], &mut c.entropy),
        Err(DkgError::InvalidRoundSequence)
    );
}

#[test]
fn round2_rejects_a_peer_set_that_is_not_the_cohort_without_self() {
    let mut c = cohort(4);
    let r1 = first_round(&mut c);
    let ids = c.ids.clone();
    let outsider = Identity { id: 17 };
    let cases: Vec<(Vec<Identity>, Vec<usize>)> = vec![
        // a commitment too few, one too many
        (vec![ids[1], ids[2], ids[3]], vec![1, 2]),
        (vec![ids[1], ids[2], ids[3]], vec![1, 2, 3, 0]),
        // a peer missing
        (vec![ids[1], ids[2]], vec![1, 2]),
        (vec![], vec![]),
        // the member itself among its peers
        (vec![ids[0], ids[1], ids[2]], vec![0, 1, 2]),
        (vec![ids[1], ids[2], ids[3], ids[0]], vec![1, 2, 3, 0]),
        // a peer twice
        (vec![ids[1], ids[2], ids[2]], vec![1, 2, 2]),
        (vec![ids[1], ids[2], ids[3], ids[3]], vec![1, 2, 3, 3]),
        // a stranger
        (vec![ids[1], ids[2], outsider], vec![1, 2, 3]),
    ];
    for (peers, from) in cases {
        let commitments: Vec<Commitment> = from.iter().map(|j| r1[*j].clone()).collect();
        let r = DkgEngine::round2(&mut c.parties[0], &peers, &commitments);
        assert_eq!(r, Err(DkgError::PeerSetMismatch));
        assert_eq!(c.parties[0].state(), SessionState::Round1Done);
        for j in 0..4 {
            assert!(c.parties[0].received(j).unwrap().coefficients.is_empty());
        }
    }
    // and then the right call still goes through
    let r = DkgEngine::round2(
        &mut c.parties[0],
        &vec![ids[3], ids[1], ids[2]],
        &vec![r1[3].clone(), r1[1].clone(), r1[2].clone()],
    );
    assert!(r.is_ok());
    assert_eq!(c.parties[0].received(3), Some(&r1[3]));
    assert_eq!(c.parties[0].received(4), None);
}

#[test]
fn round3_rejects_a_malformed_call_and_stays_ready() {
    let mut c = cohort(3);
    let r1 = first_round(&mut c);
    let r2 = second_round(&mut c, &r1);
    let (ids, broadcasts, packages) = third_round_inputs(&c, &r2, &vec![1, 2]);
    let short_b = vec![broadcasts[0]];
    let short_p = vec![packages[0].clone()];
    let cases: Vec<(Vec<Identity>, Vec<Round2Broadcast>, Vec<P2pPackage>)> = vec![
        (ids.clone(), short_b.clone(), packages.clone()),
        (ids.clone(), broadcasts.clone(), short_p.clone()),
        (vec![ids[0]], short_b.clone(), short_p.clone()),
        (vec![ids[0], ids[0]], broadcasts.clone(), packages.clone()),
        (vec![ids[0], c.ids[0]], broadcasts.clone(), packages.clone()),
        (vec![ids[0], Identity { id: 9 }], broadcasts.clone(), packages.clone()),
    ];
    for (peers, b, p) in cases {
        let r = DkgEngine::round3(&mut c.parties[0], &peers, &b, &p);
        assert_eq!(r, Err(DkgError::PeerSetMismatch));
        assert_eq!(c.parties[0].state(), SessionState::Round2Done);
    }
    assert_eq!(third_round(&mut c, &r2, 0), Ok(PublicKey { value: 3706454009 }));
}

#[test]
fn tampered_fragment_aborts_the_receiver_only() {
    let mut c = cohort(3);
    let r1 = first_round(&mut c);
    let mut r2 = second_round(&mut c, &r1);
    // what member 1 made for member 0, changed on its way
    assert_eq!(r2[1].p2p.fragments[0].recipient, c.ids[0]);
    r2[1].p2p.fragments[0].ciphertext = scalar_add(r2[1].p2p.fragments[0].ciphertext, 1);
    let r = third_round(&mut c, &r2, 0);
    assert_eq!(r, Err(DkgError::ShareVerificationFailed { peer: c.ids[1] }));
    assert_eq!(c.parties[0].state(), SessionState::Aborted);
    assert_eq!(c.parties[0].group_key(), None);
    assert_eq!(c.parties[0].secret_share(), None);
    assert_eq!(
        r.unwrap_err().describe(),
        format!("share verification failed for identity {}", c.ids[1].id)
    );
    // an aborted session stays aborted
    assert_eq!(third_round(&mut c, &r2, 0), Err(DkgError::InvalidRoundSequence));
    assert_eq!(c.parties[0].state(), SessionState::Aborted);
    // member 2 got what member 1 made for it
    assert_eq!(third_round(&mut c, &r2, 2), Ok(PublicKey { value: 3706454009 }));
}

#[test]
fn every_change_to_a_fragment_is_caught() {
    let base = {
        let mut c = cohort(3);
        let r1 = first_round(&mut c);
        let r2 = second_round(&mut c, &r1);
        r2[2].p2p.fragments[1].ciphertext
    };
    for changed in [0u64, 1, base - 1, base + 1, base + Q, Q - 1, Q, u64::MAX, base ^ 1] {
        if changed == base {
            continue;
        }
        let mut c = cohort(3);
        let r1 = first_round(&mut c);
        let mut r2 = second_round(&mut c, &r1);
        assert_eq!(r2[2].p2p.fragments[1].recipient, c.ids[1]);
        r2[2].p2p.fragments[1].ciphertext = changed;
        let r = third_round(&mut c, &r2, 1);
        assert_eq!(r, Err(DkgError::ShareVerificationFailed { peer: c.ids[2] }));
        assert_eq!(c.parties[1].state(), SessionState::Aborted);
    }
}

#[test]
fn missing_or_misaddressed_fragment_is_caught() {
    let mut c = cohort(3);
    let r1 = first_round(&mut c);
    let mut r2 = second_round(&mut c, &r1);
    // what was made for member 2 is handed to member 0 as its own
    let for_two = r2[1].p2p.fragments[1].ciphertext;
    r2[1].p2p.fragments[0].ciphertext = for_two;
    assert_eq!(
        third_round(&mut c, &r2, 0),
        Err(DkgError::ShareVerificationFailed { peer: c.ids[1] })
    );
    // nothing for member 2 in the package of member 0
    r2[0].p2p.fragments.pop();
    assert_eq!(
        third_round(&mut c, &r2, 2),
        Err(DkgError::ShareVerificationFailed { peer: c.ids[0] })
    );
    assert_eq!(c.parties[2].state(), SessionState::Aborted);
}

#[test]
fn first_fragment_for_a_recipient_counts() {
    let mut c = cohort(3);
    let r1 = first_round(&mut c);
    let mut r2 = second_round(&mut c, &r1);
    let good = r2[1].p2p.fragments[0];
    assert_eq!(r2[1].p2p.lookup(c.ids[0]), Some(good.ciphertext));
    assert_eq!(r2[1].p2p.lookup(c.ids[1]), None);
    r2[1].p2p.fragments.push(Fragment { recipient: c.ids[0], ciphertext: 1 });
    assert_eq!(r2[1].p2p.lookup(c.ids[0]), Some(good.ciphertext));
    assert_eq!(third_round(&mut c, &r2, 0), Ok(PublicKey { value: 3706454009 }));
    r2[1].p2p.fragments.insert(0, Fragment { recipient: c.ids[2], ciphertext: 1 });
    assert_eq!(r2[1].p2p.lookup(c.ids[2]), Some(1));
    assert_eq!(
        third_round(&mut c, &r2, 2),
        Err(DkgError::ShareVerificationFailed { peer: c.ids[1] })
    );
}

#[test]
fn tampered_proof_aborts_with_invalid_proof() {
    let mut c = cohort(3);
    let r1 = first_round(&mut c);
    let mut r2 = second_round(&mut c, &r1);
    r2[2].broadcast.proof.response = scalar_add(r2[2].broadcast.proof.response, 1);
    let r = third_round(&mut c, &r2, 0);
    assert_eq!(r, Err(DkgError::InvalidProof { peer: c.ids[2] }));
    assert_eq!(c.parties[0].state(), SessionState::Aborted);
    assert_eq!(c.parties[0].group_key(), None);
    assert_eq!(
        r.unwrap_err().describe(),
        format!("invalid proof of knowledge from identity {}", c.ids[2].id)
    );
}

#[test]
fn proofs_are_checked_before_shares_and_in_peer_order() {
    let mut c = cohort(4);
    let r1 = first_round(&mut c);
    let mut r2 = second_round(&mut c, &r1);
    // member 1: bad share for member 0; members 2 and 3: bad proofs
    r2[1].p2p.fragments[0].ciphertext ^= 1;
    r2[2].broadcast.proof.nonce_commitment =
        group_mul(r2[2].broadcast.proof.nonce_commitment, G);
    r2[3].broadcast.proof.response = Q;
    let (ids, broadcasts, packages) = third_round_inputs(&c, &r2, &vec![1, 3, 2]);
    let r = DkgEngine::round3(&mut c.parties[0], &ids, &broadcasts, &packages);
    assert_eq!(r, Err(DkgError::InvalidProof { peer: c.ids[3] }));
}

#[test]
fn swapped_proofs_are_rejected() {
    let mut c = cohort(3);
    let r1 = first_round(&mut c);
    let r2 = second_round(&mut c, &r1);
    let ids = vec![c.ids[1], c.ids[2]];
    let broadcasts = vec![r2[2].broadcast, r2[1].broadcast];
    let packages = vec![r2[1].p2p.clone(), r2[2].p2p.clone()];
    let r = DkgEngine::round3(&mut c.parties[0], &ids, &broadcasts, &packages);
    assert_eq!(r, Err(DkgError::InvalidProof { peer: c.ids[1] }));
}

#[test]
fn malformed_commitment_surfaces_in_round3_as_invalid_proof() {
    for bad in [
        Commitment { coefficients: vec![] },
        Commitment { coefficients: vec![5] },
        Commitment { coefficients: vec![5, 6, 7] },
        Commitment { coefficients: vec![0, 6] },
        Commitment { coefficients: vec![5, P] },
    ] {
        let mut c = cohort(3);
        let r1 = first_round(&mut c);
        let mut seen = r1.clone();
        seen[1] = bad;
        // member 0 is handed a wrong first-round output for member 1
        let out = DkgEngine::round2(
            &mut c.parties[0],
            &vec![c.ids[1], c.ids[2]],
            &vec![seen[1].clone(), seen[2].clone()],
        );
        assert!(out.is_ok());
        let o1 = DkgEngine::round2(
            &mut c.parties[1],
            &vec![c.ids[0], c.ids[2]],
            &vec![r1[0].clone(), r1[2].clone()],
        )
        .unwrap();
        let o2 = DkgEngine::round2(
            &mut c.parties[2],
            &vec![c.ids[0], c.ids[1]],
            &vec![r1[0].clone(), r1[1].clone()],
        )
        .unwrap();
        let r = DkgEngine::round3(
            &mut c.parties[0],
            &vec![c.ids[1], c.ids[2]],
            &vec![o1.broadcast, o2.broadcast],
            &vec![o1.p2p, o2.p2p],
        );
        assert_eq!(r, Err(DkgError::InvalidProof { peer: c.ids[1] }));
        assert_eq!(c.parties[0].state(), SessionState::Aborted);
    }
}

#[test]
fn commitment_changed_in_its_tail_fails_the_share_check() {
    let mut c = cohort(3);
    let r1 = first_round(&mut c);
    let mut seen = r1[1].clone();
    seen.coefficients[1] = group_mul(seen.coefficients[1], G);
    DkgEngine::round2(
        &mut c.parties[0],
        &vec![c.ids[1], c.ids[2]],
        &vec![seen, r1[2].clone()],
    )
    .unwrap();
    let o1 = DkgEngine::round2(
        &mut c.parties[1],
        &vec![c.ids[0], c.ids[2]],
        &vec![r1[0].clone(), r1[2].clone()],
    )
    .unwrap();
    let o2 = DkgEngine::round2(
        &mut c.parties[2],
        &vec![c.ids[0], c.ids[1]],
        &vec![r1[0].clone(), r1[1].clone()],
    )
    .unwrap();
    let r = DkgEngine::round3(
        &mut c.parties[0],
        &vec![c.ids[1], c.ids[2]],
        &vec![o1.broadcast, o2.broadcast],
        &vec![o1.p2p, o2.p2p],
    );
    assert_eq!(r, Err(DkgError::ShareVerificationFailed { peer: c.ids[1] }));
}

#[test]
fn abort_is_final_and_open_to_every_running_session() {
    let mut c = cohort(3);
    assert_eq!(DkgEngine::abort(&mut c.parties[0]), Ok(()));
    assert_eq!(c.parties[0].state(), SessionState::Aborted);
    assert_eq!(DkgEngine::abort(&mut c.parties[0]), Err(DkgError::InvalidRoundSequence));
    assert_eq!(
        DkgEngine::round1(&mut c.parties[0], &mut c.entropy),
        Err(DkgError::InvalidRoundSequence)
    );
    DkgEngine::round1(&mut c.parties[1], &mut c.entropy).unwrap();
    assert_eq!(DkgEngine::abort(&mut c.parties[1]), Ok(()));
    assert_eq!(c.parties[1].state(), SessionState::Aborted);
    assert_eq!(c.parties[1].secret_share(), None);
}

#[test]
fn abort_leaves_a_finished_session_alone() {
    let mut c = cohort(3);
    let r1 = first_round(&mut c);
    let r2 = second_round(&mut c, &r1);
    third_round(&mut c, &r2, 0).unwrap();
    assert_eq!(DkgEngine::abort(&mut c.parties[0]), Err(DkgError::InvalidRoundSequence));
    assert_eq!(c.parties[0].state(), SessionState::Round3Done);
    assert_eq!(c.parties[0].group_key(), Some(3706454009));
    assert_eq!(DkgEngine::abort(&mut c.parties[1]), Ok(()));
    assert_eq!(c.parties[1].state(), SessionState::Aborted);
}

#[test]
fn releasing_identities_after_the_cohort_is_built_does_not_stop_the_rounds() {
    let mut c = cohort(3);
    c.registry.release_identity(c.ids[0]).unwrap();
    c.registry.release_identity(c.ids[1]).unwrap();
    let r1 = first_round(&mut c);
    let r2 = second_round(&mut c, &r1);
    for i in 0..3 {
        assert_eq!(third_round(&mut c, &r2, i), Ok(PublicKey { value: 3706454009 }));
    }
    assert_eq!(c.config.len(), 3);
    let rebuilt = CohortConfig::build(&c.registry, &c.ids);
    assert!(matches!(rebuilt, Err(DkgError::UseAfterRelease { identity }) if identity == c.ids[0]));
}

#[test]
fn final_share_is_bound_by_the_commitments() {
    for n in [3usize, 4, 5] {
        let mut c = cohort(n);
        let r1 = first_round(&mut c);
        let r2 = second_round(&mut c, &r1);
        for i in 0..n {
            third_round(&mut c, &r2, i).unwrap();
            let share = c.parties[i].secret_share().unwrap();
            assert!(share < Q);
            let mut bound: u64 = 1;
            for j in 0..n {
                bound = group_mul(bound, evaluate_commitment(&r1[j].coefficients, (i + 1) as u64));
            }
            assert_eq!(group_pow(G, share), bound);
        }
    }
}

#[test]
fn every_member_of_a_built_cohort_is_admitted() {
    let c = cohort(5);
    for (i, id) in c.ids.iter().enumerate() {
        let p = Participant::new(&c.registry, *id, &c.config).unwrap();
        assert_eq!(p.index(), i);
        assert_eq!(p.identity(), *id);
        assert_eq!(p.state(), SessionState::Created);
        assert_eq!(c.config.position(*id), Some(i));
    }
}

#[test]
fn same_entropy_gives_the_same_run() {
    let mut a = cohort(3);
    let mut b = cohort(3);
    let a1 = first_round(&mut a);
    let b1 = first_round(&mut b);
    assert_eq!(a1, b1);
    let a2 = second_round(&mut a, &a1);
    let b2 = second_round(&mut b, &b1);
    assert_eq!(a2, b2);
    assert_eq!(third_round(&mut a, &a2, 1), third_round(&mut b, &b2, 1));
}

#[test]
fn cloned_artifacts_equal_what_they_were_cloned_from() {
    let mut c = cohort(3);
    let r1 = first_round(&mut c);
    let r2 = second_round(&mut c, &r1);
    assert_eq!(r1[0].clone(), r1[0]);
    assert_eq!(r2[0].clone(), r2[0]);
    assert_eq!(r2[0].p2p.clone(), r2[0].p2p);
    assert_ne!(r1[0].clone(), r1[1]);
}
