use frost_dkg::group::{group_mul, group_pow, scalar_add, scalar_mul, scalar_sub, G, P, Q};
use frost_dkg::knowledge::{derive_challenge, prove_knowledge, verify_knowledge, KnowledgeProof};
use frost_dkg::polynomial::{
    check_commitment, check_share, commit_polynomial, evaluate_commitment, evaluate_polynomial,
};
use frost_dkg::sealing::{derive_pair_key, seal_share, unseal_share};
use frost_dkg::text::{to_decimal, to_hexadecimal};

#[test]
fn parameters_are_a_safe_prime_pair() {
    assert_eq!(P, 4294967087);
    assert_eq!(Q, 2147483543);
    assert_eq!(P, 2 * Q + 1);
    assert_eq!(G, 4);
}

#[test]
fn generator_has_order_q() {
    assert_eq!(group_pow(G, Q), 1);
    assert_eq!(group_pow(G, 1), 4);
    assert_ne!(group_pow(G, Q - 1), 1);
    assert_eq!(group_pow(G, Q - 1), 1073741772);
    assert_eq!(group_mul(group_pow(G, Q - 1), G), 1);
}

#[test]
fn group_operations_give_exact_values() {
    assert_eq!(group_pow(2, 10), 1024);
    assert_eq!(group_pow(7, 0), 1);
    assert_eq!(group_pow(0, 0), 1);
    assert_eq!(group_pow(0, 5), 0);
    assert_eq!(group_mul(123456789, 987654321), 1571317371);
    assert_eq!(group_mul(P - 1, P - 1), 1);
    assert_eq!(group_mul(P + 5, 3), 15);
    assert_eq!(group_mul(u64::MAX, u64::MAX), ((u64::MAX % P) * (u64::MAX % P)) % P);
}

#[test]
fn exponents_add_and_multiply() {
    let (a, b) = (1909722723u64, 1283204568u64);
    assert_eq!(group_pow(G, a + b), group_mul(group_pow(G, a), group_pow(G, b)));
    assert_eq!(group_pow(group_pow(G, a), b), group_pow(group_pow(G, b), a));
    assert_eq!(group_pow(G, a + Q), group_pow(G, a));
}

#[test]
fn scalar_operations_wrap_at_q() {
    assert_eq!(scalar_add(Q - 1, 1), 0);
    assert_eq!(scalar_add(Q - 1, Q - 1), Q - 2);
    assert_eq!(scalar_sub(0, 1), Q - 1);
    assert_eq!(scalar_sub(5, 3), 2);
    assert_eq!(scalar_sub(3, 5), Q - 2);
    assert_eq!(scalar_mul(Q - 1, Q - 1), 1);
    assert_eq!(scalar_mul(2, 3), 6);
    assert_eq!(scalar_add(u64::MAX, u64::MAX), ((u64::MAX % Q) * 2) % Q);
}

#[test]
fn polynomial_values_are_exact() {
    assert_eq!(evaluate_polynomial(&vec![5, 7, 11], 3), 125);
    assert_eq!(evaluate_polynomial(&vec![1, 2, 3, 4], 10), 4321);
    assert_eq!(evaluate_polynomial(&vec![Q - 1, Q - 1], Q - 1), 0);
    assert_eq!(evaluate_polynomial(&vec![], 9), 0);
    assert_eq!(evaluate_polynomial(&vec![42], 9), 42);
    assert_eq!(evaluate_polynomial(&vec![1835562945, 607441550], 0), 1835562945);
}

#[test]
fn commitment_is_the_generator_to_each_coefficient() {
    let commitment = commit_polynomial(&vec![1835562945, 607441550]);
    assert_eq!(commitment, vec![3750624737, 4052956724]);
    assert_eq!(commit_polynomial(&vec![]), Vec::<u64>::new());
    assert_eq!(commit_polynomial(&vec![0, 1]), vec![1, 4]);
}

#[test]
fn commitment_opens_to_the_values_of_its_polynomial() {
    let polynomial = vec![1961206986u64, 546640198, 77];
    let commitment = commit_polynomial(&polynomial);
    for x in 0..6u64 {
        let share = evaluate_polynomial(&polynomial, x);
        assert_eq!(evaluate_commitment(&commitment, x), group_pow(G, share));
        assert!(check_share(&commitment, x, share));
        assert!(!check_share(&commitment, x, scalar_add(share, 1)));
        assert!(!check_share(&commitment, x, share + Q));
        assert!(!check_share(&commitment, x + 1, share));
    }
    assert_eq!(evaluate_commitment(&vec![], 3), 1);
}

#[test]
fn commitment_shape_is_checked() {
    assert!(check_commitment(&vec![1, P - 1], 2));
    assert!(!check_commitment(&vec![1, P - 1], 3));
    assert!(!check_commitment(&vec![1], 2));
    assert!(!check_commitment(&vec![0, 5], 2));
    assert!(!check_commitment(&vec![5, P], 2));
    assert!(check_commitment(&vec![], 0));
}

#[test]
fn challenge_is_exact() {
    assert_eq!(derive_challenge(1, 2, 3), 1344389770);
    assert_eq!(derive_challenge(P - 1, P - 1, P - 1), 755431702);
    assert_ne!(derive_challenge(1, 2, 3), derive_challenge(1, 3, 2));
}

#[test]
fn proof_of_knowledge_is_exact_and_verifies() {
    let secret = 1835562945u64;
    let nonce = 12953637077557676338u64 % Q;
    let _ = nonce;
    let prover_key = 297099743u64;
    let constant = group_pow(G, secret);
    let proof = prove_knowledge(secret, 1073741824, prover_key);
    assert_eq!(proof.nonce_commitment, group_pow(G, 1073741824));
    let c = derive_challenge(prover_key, constant, proof.nonce_commitment);
    assert_eq!(proof.response, scalar_add(1073741824, scalar_mul(c, secret)));
    assert!(verify_knowledge(prover_key, constant, &proof));
}

#[test]
fn proof_of_knowledge_is_bound_to_key_commitment_and_nonce() {
    let secret = 607441550u64;
    let prover_key = 3218523696u64;
    let constant = group_pow(G, secret);
    let proof = prove_knowledge(secret, 99, prover_key);
    assert!(verify_knowledge(prover_key, constant, &proof));
    assert!(!verify_knowledge(prover_key + 1, constant, &proof));
    assert!(!verify_knowledge(prover_key, group_mul(constant, G), &proof));
    let shifted = KnowledgeProof { response: scalar_add(proof.response, 1), ..proof };
    assert!(!verify_knowledge(prover_key, constant, &shifted));
    let moved = KnowledgeProof { nonce_commitment: group_mul(proof.nonce_commitment, G), ..proof };
    assert!(!verify_knowledge(prover_key, constant, &moved));
    let wide = KnowledgeProof { response: proof.response + Q, ..proof };
    assert!(!verify_knowledge(prover_key, constant, &wide));
    let zero = KnowledgeProof { nonce_commitment: 0, response: 0 };
    assert!(!verify_knowledge(prover_key, constant, &zero));
    let large = KnowledgeProof { nonce_commitment: proof.nonce_commitment + P, ..proof };
    assert!(!verify_knowledge(prover_key, constant, &large));
}

#[test]
fn pair_key_is_the_same_at_both_ends() {
    let (a, b) = (1909722723u64, 1283204568u64);
    let (pa, pb) = (group_pow(G, a), group_pow(G, b));
    assert_eq!(pa, 297099743);
    assert_eq!(pb, 3218523696);
    assert_eq!(derive_pair_key(a, pb), derive_pair_key(b, pa));
    assert_ne!(derive_pair_key(a, pb), derive_pair_key(a + 1, pb));
}

#[test]
fn sealing_round_trips_and_is_exact() {
    let key = derive_pair_key(1909722723, 3218523696);
    let share = evaluate_polynomial(&vec![1835562945, 607441550], 2);
    let fragment = seal_share(share, key);
    assert_eq!(fragment, 1167296609);
    assert_eq!(unseal_share(fragment, key), share);
    assert_ne!(unseal_share(fragment, key + 1), share);
    assert_eq!(seal_share(Q - 1, 1), 0);
    assert_eq!(unseal_share(0, 1), Q - 1);
}

#[test]
fn numbers_render_as_digits() {
    assert_eq!(to_decimal(0), "0");
    assert_eq!(to_decimal(7), "7");
    assert_eq!(to_decimal(10), "10");
    assert_eq!(to_decimal(12345), "12345");
    assert_eq!(to_decimal(u64::MAX), "18446744073709551615");
    assert_eq!(to_hexadecimal(0), "0");
    assert_eq!(to_hexadecimal(255), "ff");
    assert_eq!(to_hexadecimal(4096), "1000");
    assert_eq!(to_hexadecimal(3007033155), "b33baf43");
    assert_eq!(to_hexadecimal(u64::MAX), "ffffffffffffffff");
}
