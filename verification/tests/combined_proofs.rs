use accumulator_ads::group::g1_eq;
use accumulator_ads::node::Node;
use accumulator_ads::hashes::empty_hash;
use accumulator_ads::keyset::KeySet;
use accumulator_ads::params::PublicParameters;
use accumulator_ads::scalar::fr_from_u128;
use accumulator_ads::tree::AccumulatorTree;

fn make_tree(max_degree: usize) -> AccumulatorTree {
    let secret = fr_from_u128(123456789u128);
    let pp = PublicParameters::generate_for_testing(&secret, max_degree);
    AccumulatorTree::new(pp, secret)
}

#[test]
fn test_select_with_proof_verifies() {
    let mut tree = make_tree(32);
    for i in 1..=8 {
        tree.insert(format!("{}", i), format!("F{}", i)).unwrap();
    }
    for i in 1..=8 {
        let key = format!("{}", i);
        let qr = tree.select_with_proof(&key);
        let fids = KeySet::from_vec(vec![format!("F{}", i)]);
        assert!(qr.verify_full(&tree.pp, &key, &fids));
        // the wrong identifier set must not verify
        let wrong = KeySet::from_vec(vec!["other".to_string()]);
        assert!(!qr.verify_full(&tree.pp, &key, &wrong));
    }
}

#[test]
fn test_select_with_proof_absent_key() {
    let mut tree = make_tree(32);
    for i in 1..=8 {
        tree.insert(format!("{}", i), format!("F{}", i)).unwrap();
    }
    let qr = tree.select_with_proof("9");
    assert!(qr.fids.is_none());
    let nm = qr.nonmembership.expect("a non-membership response");
    assert!(nm.verify(&tree.pp, "9"));
    assert!(!nm.verify(&tree.pp, "8"));

    // the carried accumulator is the global commitment of all live keys
    let all = KeySet::from_vec((1..=8).map(|i| format!("{}", i)).collect());
    let fresh =
        accumulator_ads::accumulator::DynamicAccumulator::calculate_commitment(&tree.pp, &all)
            .unwrap();
    assert!(g1_eq(&nm.accumulator, &fresh));
}

#[test]
fn test_insert_with_proof_verifies() {
    let mut tree = make_tree(32);
    tree.insert("a".to_string(), "x".to_string()).unwrap();
    let resp = tree.insert_with_proof("b".to_string(), "y".to_string()).unwrap();
    assert!(resp.verify_insert(&tree.pp));
    assert!(resp.pre_nonmembership.is_some());
    assert_eq!(resp.pre_roots.len(), 1);
}

#[test]
fn test_update_with_proof_preserves_structure() {
    let mut tree = make_tree(32);
    tree.insert("a".to_string(), "x".to_string()).unwrap();
    tree.insert("b".to_string(), "y".to_string()).unwrap();
    let resp = tree.update_with_proof("a", "x", "z".to_string()).unwrap();

    assert!(resp.verify_update(&tree.pp));

    // sibling arrays identical, element for element
    let pre = resp.pre_proof.as_ref().expect("pre proof");
    assert_eq!(pre.path.len(), resp.post_proof.path.len());
    for (p, q) in pre.path.iter().zip(resp.post_proof.path.iter()) {
        assert_eq!(p, q);
    }

    // the accumulator did not move: the key set is unchanged
    let pre_acc = resp.pre_accumulator.as_ref().expect("pre accumulator");
    assert!(g1_eq(pre_acc, &resp.post_accumulator));
}

#[test]
fn test_delete_with_proof_tombstones() {
    let mut tree = make_tree(32);
    tree.insert("a".to_string(), "x".to_string()).unwrap();
    tree.insert("b".to_string(), "y".to_string()).unwrap();
    let resp = tree.delete_with_proof("a", "x").unwrap();

    assert!(resp.verify_delete(&tree.pp));
    // the key was emptied, so the post leaf is the canonical empty leaf
    assert!(resp.new_fids.is_empty());
    assert_eq!(resp.post_proof.leaf_hash, empty_hash());
    assert!(tree.select("a").is_none());
}

#[test]
fn test_delete_with_proof_partial() {
    let mut tree = make_tree(32);
    tree.insert("a".to_string(), "x".to_string()).unwrap();
    tree.insert("a".to_string(), "y".to_string()).unwrap();
    let resp = tree.delete_with_proof("a", "x").unwrap();
    assert!(resp.verify_delete(&tree.pp));
    assert_eq!(resp.new_fids.elems().clone(), vec!["y".to_string()]);
    assert!(tree.select("a").is_some());
}

#[test]
fn test_single_key_lifecycle() {
    let mut tree = make_tree(32);
    tree.insert("k".to_string(), "f1".to_string()).unwrap();
    assert_eq!(tree.select("k").unwrap().elems().clone(), vec!["f1".to_string()]);

    tree.insert("k".to_string(), "f2".to_string()).unwrap();
    assert_eq!(
        tree.select("k").unwrap().elems().clone(),
        vec!["f1".to_string(), "f2".to_string()]
    );

    tree.delete("k", "f1").unwrap();
    assert_eq!(tree.select("k").unwrap().elems().clone(), vec!["f2".to_string()]);

    tree.delete("k", "f2").unwrap();
    assert!(tree.select("k").is_none());

    // the tombstoned leaf presents the canonical empty-leaf hash
    let resp = tree.select_with_proof("k");
    assert!(resp.fids.is_none());
    assert_eq!(tree.roots.len(), 1);
}

#[test]
fn test_forged_query_response_fails() {
    let mut tree = make_tree(32);
    tree.insert("a".to_string(), "x".to_string()).unwrap();
    tree.insert("b".to_string(), "y".to_string()).unwrap();
    let qr = tree.select_with_proof("a");
    // true statement passes
    let fids = KeySet::from_vec(vec!["x".to_string()]);
    assert!(qr.verify_full(&tree.pp, "a", &fids));
    // forged identifier set fails
    let forged = KeySet::from_vec(vec!["stolen".to_string()]);
    assert!(!qr.verify_full(&tree.pp, "a", &forged));
    // forged key fails
    assert!(!qr.verify_full(&tree.pp, "b", &fids));
    // a forged witness fails: reuse the accumulator value itself
    let mut forged_qr = qr;
    forged_qr.membership_witness =
        Some(accumulator_ads::group::g1_clone(forged_qr.accumulator.as_ref().unwrap()));
    assert!(!forged_qr.verify_full(&tree.pp, "a", &fids));
}

#[test]
fn test_merge_seam() {
    let tree = make_tree(16);
    let left = Box::new(Node::Leaf {
        key: "a".to_string(),
        fids: KeySet::from_vec(vec!["fa".to_string()]),
        level: 0,
        deleted: false,
    });
    let right = Box::new(Node::Leaf {
        key: "b".to_string(),
        fids: KeySet::from_vec(vec!["fb".to_string()]),
        level: 0,
        deleted: false,
    });
    let merged = tree.test_merge_nodes(left, right);
    assert_eq!(merged.level(), 1);
    assert!(merged.has_key("a"));
    assert!(merged.has_key("b"));
    let leaves = merged.collect_leaves(None);
    assert_eq!(leaves.len(), 2);
    let excluded = merged.collect_leaves(Some("a"));
    assert_eq!(excluded.len(), 1);
    assert_eq!(excluded[0].0, "b");
}
