//! Merkle path proofs: a leaf hash, a root hash, and the sibling hashes
//! between them. Verification refolds the path and compares against the
//! root; nothing else is trusted.

use vstd::prelude::*;

use crate::bytestr::bytes_clone;
use crate::hashes::{hash_eq, internal_hash_of, leaf_hash, leaf_hash_of, nonleaf_hash};
use crate::keyset::{str_bytes, KeySet};

verus! {

/// The views of a sibling path's entries.
pub open spec fn path_view(p: Seq<(Vec<u8>, bool)>) -> Seq<(Seq<u8>, bool)> {
    p.map_values(|e: (Vec<u8>, bool)| (e.0@, e.1))
}

/// Refold a leaf hash up a sibling path: each entry hashes the running
/// value with its sibling, on the side the flag names (`true` puts the
/// sibling on the left).
pub open spec fn merkle_fold(leaf: Seq<u8>, path: Seq<(Seq<u8>, bool)>) -> Seq<u8>
    decreases path.len(),
{
    if path.len() == 0 {
        leaf
    } else {
        let e = path.last();
        if e.1 {
            internal_hash_of(e.0, merkle_fold(leaf, path.drop_last()))
        } else {
            internal_hash_of(merkle_fold(leaf, path.drop_last()), e.0)
        }
    }
}

/// A Merkle path proof: the claimed root, the claimed leaf, and the sibling
/// hashes from the leaf's parent up to the root.
#[derive(Debug)]
pub struct Proof {
    /// The hash of the subtree root the proof leads to.
    pub root_hash: Vec<u8>,
    /// The hash of the leaf the proof starts from.
    pub leaf_hash: Vec<u8>,
    /// Sibling hashes bottom-up; the flag says the sibling is the left child.
    pub path: Vec<(Vec<u8>, bool)>,
}

impl Proof {
    pub fn new(root_hash: Vec<u8>, leaf_hash: Vec<u8>, path: Vec<(Vec<u8>, bool)>) -> (r: Proof)
        ensures
            r.root_hash == root_hash,
            r.leaf_hash == leaf_hash,
            r.path == path,
    {
        Proof { root_hash, leaf_hash, path }
    }

    /// Whether refolding the stored leaf hash up the path gives the stored
    /// root hash.
    pub fn verify(&self) -> (r: bool)
        ensures
            r == (merkle_fold(self.leaf_hash@, path_view(self.path@)) == self.root_hash@),
    {
        let mut cur = bytes_clone(&self.leaf_hash);
        let n = self.path.len();
        let ghost pv = path_view(self.path@);
        let mut i: usize = 0;
        while i < n
            invariant
                n == self.path@.len() == pv.len(),
                pv == path_view(self.path@),
                i <= n,
                cur@ == merkle_fold(self.leaf_hash@, pv.take(i as int)),
            decreases n - i,
        {
            let (sib, sib_left) = &self.path[i];
            proof {
                assert(pv[i as int] == (self.path@[i as int].0@, self.path@[i as int].1));
                assert(pv.take(i + 1).drop_last() =~= pv.take(i as int));
                assert(pv.take(i + 1).last() == pv[i as int]);
            }
            if *sib_left {
                cur = nonleaf_hash(sib, &cur);
            } else {
                cur = nonleaf_hash(&cur, sib);
            }
            i += 1;
        }
        proof {
            assert(pv.take(n as int) =~= pv);
        }
        hash_eq(&cur, &self.root_hash)
    }

    /// Whether the path proves that a live leaf holding exactly `key` and
    /// `fids` sits under the stored root hash.
    pub fn verify_with_kv(&self, key: &str, fids: &KeySet) -> (r: bool)
        requires
            fids.wf(),
        ensures
            r == (merkle_fold(
                leaf_hash_of(str_bytes(key@), fids.byte_seq(), 0, false),
                path_view(self.path@),
            ) == self.root_hash@),
    {
        let lh = leaf_hash(key, fids, 0, false);
        let sub = Proof {
            root_hash: bytes_clone(&self.root_hash),
            leaf_hash: lh,
            path: self_clone_path(&self.path),
        };
        sub.verify()
    }
}

/// Clone of a sibling path, with the views kept.
pub fn self_clone_path(p: &Vec<(Vec<u8>, bool)>) -> (r: Vec<(Vec<u8>, bool)>)
    ensures
        r@.len() == p@.len(),
        path_view(r@) == path_view(p@),
{
    let mut r: Vec<(Vec<u8>, bool)> = Vec::new();
    let n = p.len();
    let mut i: usize = 0;
    while i < n
        invariant
            n == p@.len(),
            i <= n,
            r@.len() == i,
            forall|j: int|
                0 <= j < i ==> (#[trigger] r@[j]).0@ == p@[j].0@ && r@[j].1 == p@[j].1,
        decreases n - i,
    {
        let (h, b) = &p[i];
        r.push((bytes_clone(h), *b));
        i += 1;
    }
    proof {
        assert forall|j: int| 0 <= j < n implies path_view(r@)[j] == path_view(p@)[j] by {
            assert(path_view(r@)[j] == (r@[j].0@, r@[j].1));
            assert(path_view(p@)[j] == (p@[j].0@, p@[j].1));
        }
        assert(path_view(r@) =~= path_view(p@));
    }
    r
}

} // verus!
