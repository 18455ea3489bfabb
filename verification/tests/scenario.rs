#![allow(non_snake_case)]

use frost_dkg::artifacts::{Commitment, P2pPackage, PublicKey, Round2Broadcast, Round2Output};
use frost_dkg::cohort::CohortConfig;
use frost_dkg::engine::DkgEngine;
use frost_dkg::entropy::EntropyPool;
use frost_dkg::error::DkgError;
use frost_dkg::identity::{Identity, IdentityRegistry};
use frost_dkg::participant::{Participant, SessionState};

fn pool() -> EntropyPool {
    let mut words: Vec<u64> = Vec::new();
    let mut w: u64 = 0x9e37_79b9_7f4a_7c15;
    for _ in 0..64 {
        w = w.wrapping_mul(6364136223846793005).wrapping_add(1442695040888963407);
        words.push(w);
    }
    EntropyPool::new(words)
}

struct Run {
    keys: Vec<PublicKey>,
}

fn run_three(
    registry: &IdentityRegistry,
    entropy: &mut EntropyPool,
    ids: [Identity; 3],
) -> Run {
    let config = CohortConfig::build(registry, &ids.to_vec()).unwrap();
    let mut parties: Vec<Participant> =
        ids.iter().map(|id| Participant::new(registry, *id, &config).unwrap()).collect();
    let r1: Vec<Commitment> =
        parties.iter_mut().map(|p| DkgEngine::round1(p, entropy).unwrap()).collect();
    let mut r2: Vec<Round2Output> = Vec::new();
    for i in 0..3 {
        let (a, b) = ((i + 1) % 3, (i + 2) % 3);
        let out = DkgEngine::round2(
            &mut parties[i],
            &vec![ids[a], ids[b]],
            &vec![r1[a].clone(), r1[b].clone()],
        )
        .unwrap();
        r2.push(out);
    }
    let mut keys = Vec::new();
    for i in 0..3 {
        let (a, b) = ((i + 1) % 3, (i + 2) % 3);
        let broadcasts: Vec<Round2Broadcast> = vec![r2[a].broadcast, r2[b].broadcast];
        let packages: Vec<P2pPackage> = vec![r2[a].p2p.clone(), r2[b].p2p.clone()];
        let key =
            DkgEngine::round3(&mut parties[i], &vec![ids[a], ids[b]], &broadcasts, &packages)
                .unwrap();
        assert_eq!(parties[i].state(), SessionState::Round3Done);
        keys.push(key);
    }
    Run { keys }
}

#[test]
fn testTry() {
    let mut entropy = pool();
    let mut registry = IdentityRegistry::new();
    let alice = registry.create_identity(&mut entropy).unwrap();
    let bob = registry.create_identity(&mut entropy).unwrap();
    let charlie = registry.create_identity(&mut entropy).unwrap();
    let d = registry.create_identity(&mut entropy).unwrap();

    let config = CohortConfig::build(&registry, &vec![alice, bob, charlie]).unwrap();
    let excluded = Participant::new(&registry, d, &config);
    let err = match excluded {
        Ok(_) => panic!("an identity outside the cohort was admitted"),
        Err(e) => e,
    };
    assert_eq!(err, DkgError::IdentityNotInCohort);
    let text = err.describe();
    assert!(!text.is_empty());
    assert!(text.contains("not in cohort"));
    println!("{}", text);

    let run = run_three(&registry, &mut entropy, [alice, bob, charlie]);
    let s1 = run.keys[0].to_text();
    let s2 = run.keys[1].to_text();
    let s3 = run.keys[2].to_text();
    assert!(!s1.is_empty());
    assert_eq!(s1, s2);
    assert_eq!(s2, s3);

    assert_eq!(registry.release_identity(alice), Ok(()));
    assert_eq!(registry.release_identity(bob), Ok(()));

    println!("{}", s1);
    println!("{}", s2);
    println!("{}", s3);
}
