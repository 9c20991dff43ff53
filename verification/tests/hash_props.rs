use accumulator_ads::hashes::{empty_hash, leaf_hash, nonleaf_hash};
use accumulator_ads::keyset::KeySet;

fn set_of(items: &[&str]) -> KeySet {
    KeySet::from_vec(items.iter().map(|s| s.to_string()).collect())
}

#[test]
fn test_leaf_hash_deterministic() {
    let fids = set_of(&["fid"]);
    let hash1 = leaf_hash("key", &fids, 0, false);
    let hash2 = leaf_hash("key", &fids, 0, false);
    assert_eq!(hash1, hash2);
}

#[test]
fn test_leaf_hash_different_keys() {
    let fids = set_of(&["fid"]);
    let hash1 = leaf_hash("key1", &fids, 0, false);
    let hash2 = leaf_hash("key2", &fids, 0, false);
    assert_ne!(hash1, hash2);
}

#[test]
fn test_leaf_hash_different_fids() {
    let fids1 = set_of(&["fid1"]);
    let fids2 = set_of(&["fid2"]);
    let hash1 = leaf_hash("key", &fids1, 0, false);
    let hash2 = leaf_hash("key", &fids2, 0, false);
    assert_ne!(hash1, hash2);
}

#[test]
fn test_leaf_hash_empty_set() {
    let empty_fids = KeySet::new();
    let hash = leaf_hash("", &empty_fids, 0, false);
    assert_eq!(hash, empty_hash());
}

#[test]
fn test_leaf_hash_set_order_independence() {
    let fids1 = set_of(&["a", "b", "c"]);
    let fids2 = set_of(&["c", "a", "b"]);
    let hash1 = leaf_hash("key", &fids1, 0, false);
    let hash2 = leaf_hash("key", &fids2, 0, false);
    assert_eq!(hash1, hash2);
}

#[test]
fn test_leaf_hash_level_and_tombstone_matter() {
    let fids = set_of(&["fid"]);
    let live = leaf_hash("key", &fids, 0, false);
    let lifted = leaf_hash("key", &fids, 1, false);
    let dead = leaf_hash("key", &fids, 0, true);
    assert_ne!(live, lifted);
    assert_ne!(live, dead);
}

#[test]
fn utils_test_nonleaf_hash_deterministic() {
    let left = leaf_hash("a", &set_of(&["fa"]), 0, false);
    let right = leaf_hash("b", &set_of(&["fb"]), 0, false);
    let hash1 = nonleaf_hash(&left, &right);
    let hash2 = nonleaf_hash(&left, &right);
    assert_eq!(hash1, hash2);
}

#[test]
fn utils_test_nonleaf_hash_order_matters() {
    let left = leaf_hash("a", &set_of(&["fa"]), 0, false);
    let right = leaf_hash("b", &set_of(&["fb"]), 0, false);
    let hash1 = nonleaf_hash(&left, &right);
    let hash2 = nonleaf_hash(&right, &left);
    assert_ne!(hash1, hash2);
}

#[test]
fn utils_test_empty_hash_is_cached() {
    let hash1 = empty_hash();
    let hash2 = empty_hash();
    assert_eq!(hash1, hash2);
}

#[test]
fn crypto_test_empty_hash_is_cached() {
    let hash1 = empty_hash();
    let hash2 = empty_hash();
    assert_eq!(hash1, hash2);
}

#[test]
fn utils_test_hash_output_length() {
    let fids = set_of(&["test"]);
    let hash = leaf_hash("test", &fids, 0, false);
    assert_eq!(hash.len(), 32);
}
