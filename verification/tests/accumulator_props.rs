use accumulator_ads::accumulator::{batch_add, digest_set_from_set, DynamicAccumulator};
use accumulator_ads::group::{g1_eq, g2_eq};
use accumulator_ads::keyset::KeySet;
use accumulator_ads::params::{init_public_parameters, pp_to_bytes, PublicParameters};
use accumulator_ads::proofs::{
    key_to_scalar, AddProof, DeleteProof, DisjointnessProof, IntersectionProof, MembershipProof,
    NonMembershipProof, UnionProof, UpdateProof,
};
use accumulator_ads::scalar::{fr_from_u128, Scalar};
use accumulator_ads::Error;

fn setup(max_degree: usize) -> (PublicParameters, Scalar) {
    let secret = fr_from_u128(123456789u128);
    (PublicParameters::generate_for_testing(&secret, max_degree), secret)
}

fn set_of(items: &[&str]) -> KeySet {
    KeySet::from_vec(items.iter().map(|s| s.to_string()).collect())
}

fn commit(pp: &PublicParameters, items: &[&str]) -> accumulator_ads::group::G1Point {
    DynamicAccumulator::calculate_commitment(pp, &set_of(items)).unwrap()
}

#[test]
fn test_membership_proof_accepts_member() {
    let (pp, secret) = setup(16);
    let acc_value = commit(&pp, &["a", "b", "c"]);
    let acc = DynamicAccumulator { acc_value };
    let elem = key_to_scalar("b");
    let proof = MembershipProof::new(&acc, &secret, &elem).unwrap();
    assert!(proof.verify(&pp, &acc.acc_value));
}

#[test]
fn test_membership_proof_rejects_wrong_witness() {
    // a witness cut for one element does not prove another, and a witness
    // against one commitment does not transfer to another
    let (pp, secret) = setup(16);
    let acc = DynamicAccumulator { acc_value: commit(&pp, &["a", "b", "c"]) };
    let witness_for_b = MembershipProof::new(&acc, &secret, &key_to_scalar("b")).unwrap();
    let forged = MembershipProof { witness: witness_for_b.witness, element: key_to_scalar("c") };
    assert!(!forged.verify(&pp, &acc.acc_value));

    let other = commit(&pp, &["a", "b", "c", "d"]);
    let honest = MembershipProof::new(&acc, &secret, &key_to_scalar("b")).unwrap();
    assert!(!honest.verify(&pp, &other));
}

#[test]
fn test_nonmembership_proof_accepts_absent_key() {
    let (pp, _) = setup(16);
    let keys = set_of(&["1", "2", "3"]);
    let ds = digest_set_from_set(&keys);
    let absent = key_to_scalar("4");
    let proof = NonMembershipProof::new(&pp, &absent, &ds).unwrap();
    let acc_value = commit(&pp, &["1", "2", "3"]);
    assert!(proof.verify(&pp, &acc_value));
}

#[test]
fn test_nonmembership_proof_fails_for_member() {
    let (pp, _) = setup(16);
    let keys = set_of(&["1", "2", "3"]);
    let ds = digest_set_from_set(&keys);
    let member = key_to_scalar("2");
    assert!(matches!(NonMembershipProof::new(&pp, &member, &ds), Err(Error::NotCoprime)));
}

#[test]
fn test_nonmembership_proof_tamper_fails() {
    let (pp, _) = setup(16);
    let keys = set_of(&["1", "2", "3"]);
    let ds = digest_set_from_set(&keys);
    let absent = key_to_scalar("4");
    let proof = NonMembershipProof::new(&pp, &absent, &ds).unwrap();
    let acc_value = commit(&pp, &["1", "2", "3"]);
    // swap the two witnesses: the pairing equation must reject
    let tampered = NonMembershipProof {
        element: proof.element,
        witness: proof.g2_a,
        g2_a: proof.witness,
    };
    assert!(!tampered.verify(&pp, &acc_value));
}

#[test]
fn test_disjointness_proof() {
    let (pp, _) = setup(16);
    let s1 = digest_set_from_set(&set_of(&["1", "2", "3"]));
    let s2 = digest_set_from_set(&set_of(&["4", "5", "6"]));
    let s3 = digest_set_from_set(&set_of(&["1"]));

    let proof = DisjointnessProof::new(&pp, &s1, &s2).unwrap();
    let acc1 = commit(&pp, &["1", "2", "3"]);
    let acc2 = commit(&pp, &["4", "5", "6"]);
    assert!(proof.verify(&pp, &acc1, &acc2));

    assert!(matches!(DisjointnessProof::new(&pp, &s1, &s3), Err(Error::NotCoprime)));
}

#[test]
fn test_add_matches_fresh_commitment() {
    // adding one element under the trapdoor lands on the fresh commitment
    let (pp, secret) = setup(16);
    let acc = DynamicAccumulator { acc_value: commit(&pp, &["x", "y"]) };
    let grown = acc.compute_add(&secret, &key_to_scalar("z"));
    let fresh = commit(&pp, &["x", "y", "z"]);
    assert!(g1_eq(&grown, &fresh));
}

#[test]
fn test_delete_matches_fresh_commitment() {
    let (pp, secret) = setup(16);
    let acc = DynamicAccumulator { acc_value: commit(&pp, &["x", "y", "z"]) };
    let shrunk = acc.compute_delete(&secret, &key_to_scalar("z")).unwrap();
    let fresh = commit(&pp, &["x", "y"]);
    assert!(g1_eq(&shrunk, &fresh));
}

#[test]
fn test_batch_add_equivalence() {
    // one scalar product and one group operation equal the fresh commitment
    let (pp, secret) = setup(16);
    let base = commit(&pp, &["a", "b"]);
    let delta = digest_set_from_set(&set_of(&["c", "d", "e"]));
    let grown = batch_add(&base, &secret, &delta);
    let fresh = commit(&pp, &["a", "b", "c", "d", "e"]);
    assert!(g1_eq(&grown, &fresh));
}

#[test]
fn test_add_delete_flow() {
    let (pp, secret) = setup(16);
    let mut acc = DynamicAccumulator::new(&pp);
    let elem = key_to_scalar("42");

    let add_proof = AddProof::new(&mut acc, &secret, &elem);
    assert!(add_proof.verify(&pp));

    let mem_proof = MembershipProof::new(&acc, &secret, &elem).unwrap();
    assert!(mem_proof.verify(&pp, &acc.acc_value));

    let del_proof = DeleteProof::new(&mut acc, &secret, &elem).unwrap();
    assert!(del_proof.verify(&pp));

    let empty = digest_set_from_set(&KeySet::new());
    let non_mem = NonMembershipProof::new(&pp, &elem, &empty).unwrap();
    assert!(non_mem.verify(&pp, &acc.acc_value));
}

#[test]
fn test_update_proof() {
    let (pp, secret) = setup(16);
    let mut acc = DynamicAccumulator {
        acc_value: commit(&pp, &["1", "2", "3", "4", "5"]),
    };
    let initial = accumulator_ads::group::g1_clone(&acc.acc_value);
    let old_element = key_to_scalar("3");
    let new_element = key_to_scalar("10");

    let proof = UpdateProof::new(&mut acc, &secret, &old_element, &new_element).unwrap();
    assert!(proof.verify(&pp));
    assert!(g1_eq(&proof.old_acc_value, &initial));
    assert!(g1_eq(&proof.new_acc_value, &acc.acc_value));
}

#[test]
fn test_update_equals_delete_then_add() {
    let (pp, secret) = setup(16);
    let start = commit(&pp, &["10", "20", "30"]);
    let mut acc1 = DynamicAccumulator { acc_value: start };
    let mut acc2 = DynamicAccumulator { acc_value: commit(&pp, &["10", "20", "30"]) };

    let old_element = key_to_scalar("20");
    let new_element = key_to_scalar("25");

    UpdateProof::new(&mut acc1, &secret, &old_element, &new_element).unwrap();
    DeleteProof::new(&mut acc2, &secret, &old_element).unwrap();
    AddProof::new(&mut acc2, &secret, &new_element);

    assert!(g1_eq(&acc1.acc_value, &acc2.acc_value));
}

#[test]
fn test_intersection_and_union() {
    let (pp, _) = setup(16);
    let s1 = digest_set_from_set(&set_of(&["1", "2", "3", "4"]));
    let s2 = digest_set_from_set(&set_of(&["3", "4", "5", "6"]));
    let s_inter = digest_set_from_set(&set_of(&["3", "4"]));
    let s_union = digest_set_from_set(&set_of(&["1", "2", "3", "4", "5", "6"]));

    let acc1 = commit(&pp, &["1", "2", "3", "4"]);
    let acc2 = commit(&pp, &["3", "4", "5", "6"]);
    let inter_val = commit(&pp, &["3", "4"]);
    let union_val = commit(&pp, &["1", "2", "3", "4", "5", "6"]);

    let (inter_acc, inter_proof) =
        IntersectionProof::new(&pp, &s1, &s2, &s_inter).unwrap();
    assert!(g1_eq(&inter_acc.acc_value, &inter_val));
    assert!(inter_proof.verify(&pp, &acc1, &acc2, &inter_acc.acc_value));

    let (union_acc, union_proof) =
        UnionProof::new(&pp, &inter_acc, inter_proof, &s_union).unwrap();
    assert!(g1_eq(&union_acc.acc_value, &union_val));
    assert!(union_proof.verify(&pp, &acc1, &acc2, &union_acc.acc_value));
}

#[test]
fn test_commitment_degree_limit() {
    let (pp, _) = setup(2);
    let big = set_of(&["1", "2", "3", "4", "5"]);
    assert!(matches!(
        DynamicAccumulator::calculate_commitment(&pp, &big),
        Err(Error::ParamsOutOfRange)
    ));
}

#[test]
fn test_acc_proof_sum() {
    // proofs of the same element combine by adding their witness points,
    // and the sum verifies against the sum of the accumulators
    let (pp, secret) = setup(16);
    let acc_a = DynamicAccumulator { acc_value: commit(&pp, &["1", "2", "7"]) };
    let acc_b = DynamicAccumulator { acc_value: commit(&pp, &["4", "5", "7"]) };
    let elem = key_to_scalar("7");
    let mut proof1 = MembershipProof::new(&acc_a, &secret, &elem).unwrap();
    let proof2 = MembershipProof::new(&acc_b, &secret, &elem).unwrap();
    proof1.combine_proof(&proof2);
    let sum_acc = accumulator_ads::group::g1_add(&acc_a.acc_value, &acc_b.acc_value);
    assert!(proof1.verify(&pp, &sum_acc));
    // against only one of the accumulators the combined proof fails
    assert!(!proof1.verify(&pp, &acc_a.acc_value));
}

#[test]
fn test_empty_accumulator_is_empty_commitment() {
    let (pp, _) = setup(8);
    let fresh = DynamicAccumulator::new(&pp);
    let empty_set = DynamicAccumulator::calculate_commitment(&pp, &KeySet::new()).unwrap();
    assert!(g1_eq(&fresh.acc_value, &empty_set));
    assert!(g1_eq(&accumulator_ads::accumulator::empty_acc(&pp), &empty_set));
}

#[test]
fn test_params_round_trip() {
    let (pp, _) = setup(4);
    let bytes = pp_to_bytes(&pp);
    let back = init_public_parameters(&bytes).unwrap();
    assert_eq!(bytes, pp_to_bytes(&back));
    assert!(g1_eq(&pp.g1, &back.g1));
    assert!(g2_eq(&pp.g2, &back.g2));
    assert_eq!(back.g1_s_vec.len(), 5);
    assert!(g1_eq(&pp.g1_s_vec[3], &back.g1_s_vec[3]));
}

#[test]
fn test_params_reject_corrupt_bytes() {
    let (pp, _) = setup(4);
    let mut bytes = pp_to_bytes(&pp);
    bytes.pop();
    assert!(matches!(init_public_parameters(&bytes), Err(Error::SerializationError)));
    let short = vec![1u8, 2, 3];
    assert!(matches!(init_public_parameters(&short), Err(Error::SerializationError)));
}
