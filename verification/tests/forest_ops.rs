use accumulator_ads::keyset::KeySet;
use accumulator_ads::Error;
use accumulator_ads::params::PublicParameters;
use accumulator_ads::scalar::fr_from_u128;
use accumulator_ads::tree::AccumulatorTree;
use std::collections::HashMap;

fn make_tree(max_degree: usize) -> AccumulatorTree {
    let secret = fr_from_u128(123456789u128);
    let pp = PublicParameters::generate_for_testing(&secret, max_degree);
    AccumulatorTree::new(pp, secret)
}

fn fids_of(tree: &AccumulatorTree, key: &str) -> Option<Vec<String>> {
    tree.select(key).map(|fs| fs.elems().clone())
}

/// Remove a key outright by deleting each of its identifiers.
fn delete_key(tree: &mut AccumulatorTree, key: &str) {
    while let Some(fs) = tree.select(key) {
        let fid = fs.elems()[0].clone();
        tree.delete(key, &fid).unwrap();
    }
}

fn live_keys(tree: &AccumulatorTree) -> Vec<String> {
    let mut keys: Vec<String> = Vec::new();
    for root in &tree.roots {
        for (k, _) in root.collect_leaves(None) {
            keys.push(k);
        }
    }
    keys.sort();
    keys.dedup();
    keys
}

#[test]
fn test_tree_lifecycle() {
    let mut tree = make_tree(32);
    for i in 0..8 {
        tree.insert(format!("K{}", i), format!("F{}", i)).unwrap();
    }

    assert_eq!(fids_of(&tree, "K3"), Some(vec!["F3".to_string()]));

    tree.update("K3", "F3", "F3_upd".to_string()).unwrap();
    assert_eq!(fids_of(&tree, "K3"), Some(vec!["F3_upd".to_string()]));

    tree.delete("K2", "F2").unwrap();
    assert_eq!(fids_of(&tree, "K2"), None);

    let keys = live_keys(&tree);
    assert_eq!(keys.len(), 7);
    assert!(keys.contains(&"K3".to_string()));
    assert!(!keys.contains(&"K2".to_string()));
}

#[test]
fn test_bulk_kv_operations() {
    let mut tree = make_tree(256);
    let n: usize = 200;

    for i in 0..n {
        tree.insert(format!("K{}", i), format!("F{}", i)).unwrap();
    }

    for i in 0..n {
        assert_eq!(fids_of(&tree, &format!("K{}", i)), Some(vec![format!("F{}", i)]));
    }

    for i in (0..n).step_by(10) {
        tree.update(&format!("K{}", i), &format!("F{}", i), format!("F{}_upd", i)).unwrap();
    }
    for i in (0..n).step_by(10) {
        assert_eq!(fids_of(&tree, &format!("K{}", i)), Some(vec![format!("F{}_upd", i)]));
    }

    let mut deleted = 0usize;
    for i in (0..n).step_by(7) {
        delete_key(&mut tree, &format!("K{}", i));
        deleted += 1;
    }

    let keys = live_keys(&tree);
    assert_eq!(keys.len(), n - deleted);

    for i in (0..n).step_by(7) {
        assert_eq!(tree.select(&format!("K{}", i)).map(|_| ()), None);
    }
}

#[test]
fn test_randomized_property_operations() {
    // deterministic simple LCG
    let mut seed: u64 = 0x1234_5678_abcd_eu64;
    fn lcg(s: &mut u64) -> u64 {
        *s = s.wrapping_mul(6364136223846793005).wrapping_add(1);
        *s
    }

    let mut tree = make_tree(350);
    let mut reference: HashMap<String, Vec<String>> = HashMap::new();

    let ops = 2000usize;
    let key_space = 300usize;

    for step in 0..ops {
        let r = lcg(&mut seed);
        let op = (r % 3) as u8;
        let kidx = (lcg(&mut seed) as usize) % key_space;
        let key = format!("K{}", kidx);

        match op {
            0 => {
                let v = format!("F{}", lcg(&mut seed) % 10000);
                tree.insert(key.clone(), v.clone()).unwrap();
                let entry = reference.entry(key.clone()).or_default();
                if !entry.contains(&v) {
                    entry.push(v);
                }
            },
            1 => {
                let v = format!("U{}", lcg(&mut seed) % 10000);
                if let Some(fids) = reference.get(&key).cloned() {
                    let old = fids[0].clone();
                    tree.update(&key, &old, v.clone()).unwrap();
                    let entry = reference.get_mut(&key).unwrap();
                    entry.retain(|f| *f != old);
                    if !entry.contains(&v) {
                        entry.push(v);
                    }
                } else {
                    tree.insert(key.clone(), v.clone()).unwrap();
                    reference.insert(key.clone(), vec![v]);
                }
            },
            _ => {
                delete_key(&mut tree, &key);
                reference.remove(&key);
            },
        }

        let keys_in_tree = live_keys(&tree);
        let mut ref_keys: Vec<String> = reference.keys().cloned().collect();
        ref_keys.sort();
        assert_eq!(keys_in_tree, ref_keys, "divergence at step {}", step);
    }

    // final full check of the identifier sets, not only the keys
    for (k, fids) in &reference {
        let mut expect = fids.clone();
        expect.sort();
        let mut got = fids_of(&tree, k).unwrap();
        got.sort();
        assert_eq!(got, expect);
    }
}

#[test]
fn test_insert_idempotent() {
    let mut t1 = make_tree(16);
    t1.insert("k".to_string(), "f".to_string()).unwrap();
    let once_hash = t1.roots[0].hash();
    t1.insert("k".to_string(), "f".to_string()).unwrap();
    assert_eq!(t1.roots.len(), 1);
    assert_eq!(t1.roots[0].hash(), once_hash);
}

#[test]
fn test_revival_matches_fresh_leaf_hash() {
    // delete-then-insert yields the same leaf hash as a never-deleted insert
    let mut revived = make_tree(16);
    revived.insert("k".to_string(), "f1".to_string()).unwrap();
    revived.delete("k", "f1").unwrap();
    revived.insert("k".to_string(), "f2".to_string()).unwrap();

    let mut fresh = make_tree(16);
    fresh.insert("k".to_string(), "f2".to_string()).unwrap();

    assert_eq!(revived.roots.len(), 1);
    assert_eq!(fresh.roots.len(), 1);
    assert_eq!(revived.roots[0].hash(), fresh.roots[0].hash());
}

#[test]
fn test_update_and_delete_errors() {
    let mut tree = make_tree(16);
    tree.insert("a".to_string(), "x".to_string()).unwrap();
    assert_eq!(tree.update("b", "x", "y".to_string()), Err(Error::KeyNotPresent));
    assert_eq!(tree.update("a", "zz", "y".to_string()), Err(Error::FidNotPresent));
    assert_eq!(tree.delete("b", "x"), Err(Error::KeyNotPresent));
    assert_eq!(tree.delete("a", "zz"), Err(Error::FidNotPresent));
    // the key is untouched by the failures
    assert_eq!(fids_of(&tree, "a"), Some(vec!["x".to_string()]));
}

#[test]
fn test_binomial_merges() {
    // 2^k distinct keys leave exactly one root, at level k
    let mut tree = make_tree(32);
    for i in 0..16 {
        tree.insert(format!("K{}", i), format!("F{}", i)).unwrap();
    }
    assert_eq!(tree.roots.len(), 1);
    assert_eq!(tree.roots[0].level(), 4);

    // and the root accumulator is the commitment of all live keys
    let all = KeySet::from_vec((0..16).map(|i| format!("K{}", i)).collect());
    let fresh = accumulator_ads::accumulator::DynamicAccumulator::calculate_commitment(
        &tree.pp, &all,
    )
    .unwrap();
    let stored = tree.roots[0].acc(&tree.pp);
    assert!(accumulator_ads::group::g1_eq(&stored, &fresh));
}

#[test]
fn test_forest_invariant_accumulators() {
    // after a mixed history every root accumulator equals the commitment of
    // its live keys, and root levels are distinct
    let mut tree = make_tree(64);
    for i in 0..11 {
        tree.insert(format!("K{}", i), format!("F{}", i)).unwrap();
    }
    tree.delete("K3", "F3").unwrap();
    tree.update("K4", "F4", "F4b".to_string()).unwrap();
    tree.insert("K3".to_string(), "F3b".to_string()).unwrap();

    let mut levels: Vec<usize> = Vec::new();
    for root in &tree.roots {
        levels.push(root.level());
        let keys = root.keys();
        let fresh = accumulator_ads::accumulator::DynamicAccumulator::calculate_commitment(
            &tree.pp, &keys,
        )
        .unwrap();
        let stored = root.acc(&tree.pp);
        assert!(accumulator_ads::group::g1_eq(&stored, &fresh));
    }
    let mut sorted = levels.clone();
    sorted.sort();
    sorted.dedup();
    assert_eq!(levels.len(), sorted.len());
}
