//! A node of the Merkle-accumulator forest. A leaf carries one key with its
//! document identifiers and a tombstone bit; an internal node carries the
//! hash of its children, the set of live keys below it and that set's
//! accumulator commitment. Well-formedness ties every stored field to the
//! children, and every operation preserves it.

use vstd::prelude::*;

use crate::accumulator::{commit_of_set, DynamicAccumulator};
use crate::bytestr::canon_seq;
use crate::group::{g1_clone, g1_mul_of, G1Point};
use crate::hashes::{empty_hash, empty_hash_of, internal_hash_of, leaf_hash, leaf_hash_of, nonleaf_hash};
use crate::keyset::{self_clone_keyset, self_clone_string, str_bytes, KeySet};
use crate::merkle::{merkle_fold, path_view};
use crate::params::PublicParameters;
use crate::poly::{mul_mod, sub_mod};
use crate::proofs::key_to_scalar;
use crate::scalar::fr_modulus;
use crate::group::scalar_vals;
use crate::scalar::Scalar;
use vstd::string::StrSliceExecFns;

verus! {

/// The views of collected leaf pairs.
pub open spec fn pairs_view(p: Seq<(String, KeySet)>) -> Seq<(Seq<u8>, Set<Seq<u8>>)> {
    p.map_values(|e: (String, KeySet)| (str_bytes(e.0@), e.1@))
}

/// The view of an optional excluded key.
pub open spec fn opt_view(ex: Option<&str>) -> Option<Seq<u8>> {
    match ex {
        Some(e) => Some(str_bytes(e@)),
        None => None,
    }
}

/// A node of the forest.
#[derive(Debug)]
pub enum Node {
    Leaf { key: String, fids: KeySet, level: usize, deleted: bool },
    NonLeaf {
        hash: Vec<u8>,
        keys: KeySet,
        acc: G1Point,
        level: usize,
        left: Box<Node>,
        right: Box<Node>,
    },
}

impl Node {
    /// The level of the node; a leaf sits at zero.
    pub open spec fn level_spec(self) -> nat {
        match self {
            Node::Leaf { level, .. } => level as nat,
            Node::NonLeaf { level, .. } => level as nat,
        }
    }

    /// The live keys of the subtree: tombstoned leaves contribute nothing.
    pub open spec fn keys_spec(self) -> Set<Seq<u8>>
        decreases self,
    {
        match self {
            Node::Leaf { key, deleted, .. } => if deleted {
                Set::<Seq<u8>>::empty()
            } else {
                Set::<Seq<u8>>::empty().insert(str_bytes(key@))
            },
            Node::NonLeaf { left, right, .. } => (*left).keys_spec().union((*right).keys_spec()),
        }
    }

    /// Every key of the subtree, tombstoned or live.
    pub open spec fn all_keys_spec(self) -> Set<Seq<u8>>
        decreases self,
    {
        match self {
            Node::Leaf { key, .. } => Set::<Seq<u8>>::empty().insert(str_bytes(key@)),
            Node::NonLeaf { left, right, .. } => (*left).all_keys_spec().union(
                (*right).all_keys_spec(),
            ),
        }
    }

    /// The hash the node presents: a live leaf hashes its contents, a
    /// tombstoned leaf the canonical empty leaf, an internal node carries
    /// its stored hash.
    pub open spec fn hash_spec(self) -> Seq<u8> {
        match self {
            Node::Leaf { key, fids, level, deleted } => if deleted {
                empty_hash_of()
            } else {
                leaf_hash_of(str_bytes(key@), fids.byte_seq(), level as nat, false)
            },
            Node::NonLeaf { hash, .. } => hash@,
        }
    }

    /// The document identifiers of a live key in the subtree.
    pub open spec fn fids_of(self, kb: Seq<u8>) -> Set<Seq<u8>>
        decreases self,
    {
        match self {
            Node::Leaf { key, fids, deleted, .. } => if !deleted && str_bytes(key@) == kb {
                fids@
            } else {
                Set::<Seq<u8>>::empty()
            },
            Node::NonLeaf { left, right, .. } => if (*left).keys_spec().contains(kb) {
                (*left).fids_of(kb)
            } else {
                (*right).fids_of(kb)
            },
        }
    }

    /// Whether the subtree holds a tombstoned leaf for the key.
    pub open spec fn has_tomb_spec(self, kb: Seq<u8>) -> bool
        decreases self,
    {
        match self {
            Node::Leaf { key, deleted, .. } => deleted && str_bytes(key@) == kb,
            Node::NonLeaf { left, right, .. } => (*left).has_tomb_spec(kb) || (*right).has_tomb_spec(
                kb,
            ),
        }
    }

    /// Well-formedness: a leaf sits at level zero with a canonical
    /// identifier set; an internal node sits one level above its two
    /// children, stores exactly the union of their live keys, the hash of
    /// their hashes, and splits the key space between them.
    pub open spec fn wf(self) -> bool
        decreases self,
    {
        match self {
            Node::Leaf { key, fids, level, deleted } => level == 0 && fids.wf(),
            Node::NonLeaf { hash, keys, acc, level, left, right } => {
                &&& (*left).wf()
                &&& (*right).wf()
                &&& level >= 1
                &&& (*left).level_spec() == level - 1
                &&& (*right).level_spec() == level - 1
                &&& keys.wf()
                &&& keys@ == (*left).keys_spec().union((*right).keys_spec())
                &&& hash@ == internal_hash_of((*left).hash_spec(), (*right).hash_spec())
                &&& hash@.len() == 32
                &&& (*left).all_keys_spec().disjoint((*right).all_keys_spec())
            },
        }
    }

    /// A live key is a key.
    pub proof fn lemma_keys_sub_all(self, kb: Seq<u8>)
        ensures
            self.keys_spec().contains(kb) ==> self.all_keys_spec().contains(kb),
        decreases self,
    {
        match self {
            Node::Leaf { .. } => {},
            Node::NonLeaf { left, right, .. } => {
                (*left).lemma_keys_sub_all(kb);
                (*right).lemma_keys_sub_all(kb);
            },
        }
    }

    /// A tombstoned key is a key.
    pub proof fn lemma_tomb_sub_all(self, kb: Seq<u8>)
        ensures
            self.has_tomb_spec(kb) ==> self.all_keys_spec().contains(kb),
        decreases self,
    {
        match self {
            Node::Leaf { .. } => {},
            Node::NonLeaf { left, right, .. } => {
                (*left).lemma_tomb_sub_all(kb);
                (*right).lemma_tomb_sub_all(kb);
            },
        }
    }

    /// A live key is not tombstoned: each key has one leaf.
    pub proof fn lemma_live_not_tomb(self, kb: Seq<u8>)
        requires
            self.wf(),
        ensures
            self.keys_spec().contains(kb) ==> !self.has_tomb_spec(kb),
        decreases self,
    {
        match self {
            Node::Leaf { .. } => {},
            Node::NonLeaf { left, right, .. } => {
                (*left).lemma_live_not_tomb(kb);
                (*right).lemma_live_not_tomb(kb);
                (*left).lemma_keys_sub_all(kb);
                (*right).lemma_keys_sub_all(kb);
                (*left).lemma_tomb_sub_all(kb);
                (*right).lemma_tomb_sub_all(kb);
            },
        }
    }

    /// Two subtrees of the same shape carry the same stored accumulators.
    pub open spec fn same_accs(self, other: Node) -> bool
        decreases self,
    {
        match self {
            Node::Leaf { .. } => other is Leaf,
            Node::NonLeaf { acc, left, right, .. } => match other {
                Node::NonLeaf { acc: oacc, left: oleft, right: oright, .. } => acc == oacc && (
                *left).same_accs(*oleft) && (*right).same_accs(*oright),
                Node::Leaf { .. } => false,
            },
        }
    }

    /// Every subtree carries its own accumulators.
    pub proof fn lemma_same_accs_refl(self)
        ensures
            self.same_accs(self),
        decreases self,
    {
        match self {
            Node::Leaf { .. } => {},
            Node::NonLeaf { left, right, .. } => {
                (*left).lemma_same_accs_refl();
                (*right).lemma_same_accs_refl();
            },
        }
    }

    /// The sibling path a lookup of `kb` gathers: bottom-up, each entry the
    /// hash of the subtree not descended into, flagged when it is the left
    /// child.
    pub open spec fn path_of(self, kb: Seq<u8>) -> Seq<(Seq<u8>, bool)>
        decreases self,
    {
        match self {
            Node::Leaf { .. } => Seq::<(Seq<u8>, bool)>::empty(),
            Node::NonLeaf { left, right, .. } => if (*left).all_keys_spec().contains(kb) {
                (*left).path_of(kb).push(((*right).hash_spec(), false))
            } else {
                (*right).path_of(kb).push(((*left).hash_spec(), true))
            },
        }
    }

    /// The sibling path of any key has one entry per level.
    pub proof fn lemma_path_of_len(self, kb: Seq<u8>)
        requires
            self.wf(),
        ensures
            self.path_of(kb).len() == self.level_spec(),
        decreases self,
    {
        match self {
            Node::Leaf { .. } => {},
            Node::NonLeaf { left, right, .. } => {
                (*left).lemma_path_of_len(kb);
                (*right).lemma_path_of_len(kb);
            },
        }
    }

    /// The level.
    pub fn level(&self) -> (r: usize)
        ensures
            r == self.level_spec(),
    {
        match self {
            Node::Leaf { level, .. } => *level,
            Node::NonLeaf { level, .. } => *level,
        }
    }

    /// The hash the node presents.
    pub fn hash(&self) -> (r: Vec<u8>)
        requires
            self.wf(),
        ensures
            r@ == self.hash_spec(),
            r@.len() == 32,
    {
        match self {
            Node::Leaf { key, fids, level, deleted } => {
                if *deleted {
                    empty_hash()
                } else {
                    leaf_hash(key.as_str(), fids, *level, false)
                }
            },
            Node::NonLeaf { hash, .. } => crate::bytestr::bytes_clone(hash),
        }
    }

    /// The accumulator value a node stands for: internal nodes store it, a
    /// tombstoned leaf stands for the empty-set commitment, a live leaf for
    /// its own key's commitment.
    pub open spec fn acc_spec(self, pp: PublicParameters) -> G1Point {
        match self {
            Node::Leaf { deleted, .. } => if deleted {
                commit_of_set(pp, Set::<Seq<u8>>::empty())
            } else {
                commit_of_set(pp, self.keys_spec())
            },
            Node::NonLeaf { acc, .. } => acc,
        }
    }

    /// The accumulator value of the subtree's live keys: stored on internal
    /// nodes, the empty commitment on tombstoned leaves, computed from the
    /// public parameters on live leaves.
    pub fn acc(&self, pp: &PublicParameters) -> (r: G1Point)
        requires
            self.wf(),
            pp.wf(),
        ensures
            r == self.acc_spec(*pp),
    {
        match self {
            Node::Leaf { key, deleted, .. } => {
                if *deleted {
                    DynamicAccumulator::empty_commitment(pp)
                } else {
                    let mut single = KeySet::new();
                    single.insert(self_clone_string(key));
                    proof {
                        crate::keyset::lemma_keyset_len(single);
                        assert(single@ =~= self.keys_spec());
                        assert(single@.len() == 1);
                    }
                    match DynamicAccumulator::calculate_commitment(pp, &single) {
                        Ok(c) => c,
                        Err(_) => {
                            proof {
                                assert(false);
                            }
                            crate::group::g1_generator()
                        },
                    }
                }
            },
            Node::NonLeaf { acc, .. } => g1_clone(acc),
        }
    }

    /// The set of live keys of the subtree.
    pub fn keys(&self) -> (r: KeySet)
        requires
            self.wf(),
        ensures
            r.wf(),
            r@ == self.keys_spec(),
    {
        match self {
            Node::Leaf { key, deleted, .. } => {
                let mut r = KeySet::new();
                if !*deleted {
                    r.insert(self_clone_string(key));
                }
                proof {
                    assert(r@ =~= self.keys_spec());
                }
                r
            },
            Node::NonLeaf { keys, .. } => self_clone_keyset(keys),
        }
    }

    /// Whether the subtree holds the key live.
    pub fn has_key(&self, target_key: &str) -> (r: bool)
        requires
            self.wf(),
        ensures
            r == self.keys_spec().contains(str_bytes(target_key@)),
    {
        match self {
            Node::Leaf { key, deleted, .. } => {
                if *deleted {
                    false
                } else {
                    let kb = key.as_str().as_bytes_vec();
                    let tb = target_key.as_bytes_vec();
                    crate::bytestr::bytes_eq(&kb, &tb)
                }
            },
            Node::NonLeaf { keys, .. } => keys.contains(target_key),
        }
    }

    /// Whether the subtree holds the key tombstoned.
    pub fn has_tombstone(&self, target_key: &str) -> (r: bool)
        requires
            self.wf(),
        ensures
            r == self.has_tomb_spec(str_bytes(target_key@)),
        decreases *self,
    {
        match self {
            Node::Leaf { key, deleted, .. } => {
                if !*deleted {
                    false
                } else {
                    let kb = key.as_str().as_bytes_vec();
                    let tb = target_key.as_bytes_vec();
                    crate::bytestr::bytes_eq(&kb, &tb)
                }
            },
            Node::NonLeaf { left, right, .. } => {
                let l = left.has_tombstone(target_key);
                if l {
                    true
                } else {
                    right.has_tombstone(target_key)
                }
            },
        }
    }

    /// Keys outside the subtree have no identifiers in it.
    pub proof fn lemma_fids_empty_outside(self, kb: Seq<u8>)
        ensures
            !self.all_keys_spec().contains(kb) ==> self.fids_of(kb) == Set::<Seq<u8>>::empty(),
        decreases self,
    {
        match self {
            Node::Leaf { .. } => {},
            Node::NonLeaf { left, right, .. } => {
                (*left).lemma_fids_empty_outside(kb);
                (*right).lemma_fids_empty_outside(kb);
                (*left).lemma_keys_sub_all(kb);
                (*right).lemma_keys_sub_all(kb);
            },
        }
    }

    /// Every key of the subtree is live or tombstoned, and nothing else is.
    pub proof fn lemma_all_keys_split(self, kb: Seq<u8>)
        ensures
            self.all_keys_spec().contains(kb) <==> (self.keys_spec().contains(kb)
                || self.has_tomb_spec(kb)),
        decreases self,
    {
        match self {
            Node::Leaf { .. } => {},
            Node::NonLeaf { left, right, .. } => {
                (*left).lemma_all_keys_split(kb);
                (*right).lemma_all_keys_split(kb);
            },
        }
    }

    /// Add a document identifier to a live key's set; the result says
    /// whether the subtree changed. Nothing else of the subtree moves.
    pub fn insert_fid(self: Box<Node>, target_key: &str, fid: String) -> (r: (Box<Node>, bool))
        requires
            (*self).wf(),
        ensures
            (*r.0).wf(),
            (*r.0).level_spec() == (*self).level_spec(),
            (*r.0).all_keys_spec() == (*self).all_keys_spec(),
            (*r.0).keys_spec() == (*self).keys_spec(),
            forall|k2: Seq<u8>| (*r.0).has_tomb_spec(k2) == (*self).has_tomb_spec(k2),
            forall|k2: Seq<u8>|
                k2 != str_bytes(target_key@) ==> (*r.0).fids_of(k2) == (*self).fids_of(k2),
            (*self).keys_spec().contains(str_bytes(target_key@)) ==> (*r.0).fids_of(
                str_bytes(target_key@),
            ) == (*self).fids_of(str_bytes(target_key@)).insert(str_bytes(fid@)),
            r.1 == ((*self).keys_spec().contains(str_bytes(target_key@)) && !(*self).fids_of(
                str_bytes(target_key@),
            ).contains(str_bytes(fid@))),
            !r.1 ==> *r.0 == *self,
            (*r.0).same_accs(*self),
            (*r.0).path_of(str_bytes(target_key@)) == (*self).path_of(str_bytes(target_key@)),
        decreases *self,
    {
        let ghost kb = str_bytes(target_key@);
        let ghost fb = str_bytes(fid@);
        match *self {
            Node::Leaf { key, mut fids, level, deleted } => {
                let kb_exec = key.as_str().as_bytes_vec();
                let tb = target_key.as_bytes_vec();
                if !deleted && crate::bytestr::bytes_eq(&kb_exec, &tb) {
                    let grew = fids.insert(fid);
                    let n = Box::new(Node::Leaf { key, fids, level, deleted });
                    proof {
                        if !grew {
                            assert((*n).fids_of(kb) =~= (*self).fids_of(kb).insert(fb));
                        }
                    }
                    (n, grew)
                } else {
                    (Box::new(Node::Leaf { key, fids, level, deleted }), false)
                }
                // a leaf has no stored accumulator and an empty path
            },
            Node::NonLeaf { hash, keys, acc, level, left, right } => {
                let ghost oldl = *left;
                let ghost oldr = *right;
                let go_left = left.has_key(target_key);
                let (l2, r2, changed) = if go_left {
                    let (l2, changed) = left.insert_fid(target_key, fid);
                    (l2, right, changed)
                } else {
                    let (r2, changed) = right.insert_fid(target_key, fid);
                    (left, r2, changed)
                };
                let new_hash = if changed {
                    nonleaf_hash(&l2.hash(), &r2.hash())
                } else {
                    hash
                };
                let n = Box::new(
                    Node::NonLeaf { hash: new_hash, keys, acc, level, left: l2, right: r2 },
                );
                proof {
                    assert((*n).keys_spec() =~= (*self).keys_spec());
                    assert((*n).all_keys_spec() =~= (*self).all_keys_spec());
                    assert forall|k2: Seq<u8>| (*n).has_tomb_spec(k2) == (*self).has_tomb_spec(
                        k2,
                    ) by {
                        if go_left {
                            assert((*l2).has_tomb_spec(k2) == oldl.has_tomb_spec(k2));
                            assert(*r2 == oldr);
                        } else {
                            assert(*l2 == oldl);
                            assert((*r2).has_tomb_spec(k2) == oldr.has_tomb_spec(k2));
                        }
                    }
                    assert forall|k2: Seq<u8>| k2 != kb implies (*n).fids_of(k2) == (*self).fids_of(
                        k2,
                    ) by {
                        if go_left {
                            assert((*l2).fids_of(k2) == oldl.fids_of(k2));
                            assert((*l2).keys_spec() == oldl.keys_spec());
                            assert(*r2 == oldr);
                        } else {
                            assert(*l2 == oldl);
                            assert((*r2).fids_of(k2) == oldr.fids_of(k2));
                        }
                    }
                    if !changed {
                        assert(*n == *self);
                    }
                    assert((*n).same_accs(*self)) by {
                        if go_left {
                            assert((*l2).same_accs(oldl));
                            assert(*r2 == oldr);
                            oldr.lemma_same_accs_refl();
                        } else {
                            assert(*l2 == oldl);
                            oldl.lemma_same_accs_refl();
                            assert((*r2).same_accs(oldr));
                        }
                    }
                    assert((*n).path_of(kb) == (*self).path_of(kb)) by {
                        if go_left {
                            oldl.lemma_keys_sub_all(kb);
                            assert(oldl.all_keys_spec().contains(kb));
                            assert((*l2).all_keys_spec() == oldl.all_keys_spec());
                            assert((*l2).path_of(kb) == oldl.path_of(kb));
                            assert(*r2 == oldr);
                        } else {
                            assert(*l2 == oldl);
                            assert((*r2).all_keys_spec() == oldr.all_keys_spec());
                            assert((*r2).path_of(kb) == oldr.path_of(kb));
                            if oldl.all_keys_spec().contains(kb) {
                                assert(oldl.all_keys_spec().disjoint(oldr.all_keys_spec()));
                                assert(!changed) by {
                                    if changed {
                                        assert(oldr.keys_spec().contains(kb));
                                        oldr.lemma_keys_sub_all(kb);
                                    }
                                }
                                assert(*r2 == oldr);
                            }
                        }
                    }
                }
                (n, changed)
            },
        }
    }

    /// Remove a document identifier from a live key's set; when the set
    /// empties, the leaf becomes a tombstone and the key leaves the live
    /// sets and accumulators along the path. The results say whether the
    /// subtree changed and whether the key was tombstoned.
    pub fn delete_fid(self: Box<Node>, secret: &Scalar, target_key: &str, fid: &str) -> (t: (
        Box<Node>,
        bool,
        bool,
    ))
        requires
            (*self).wf(),
            secret.wf(),
            crate::accumulator::key_scalar(str_bytes(target_key@)) != secret.val(),
        ensures
            (*t.0).wf(),
            (*t.0).level_spec() == (*self).level_spec(),
            (*t.0).all_keys_spec() == (*self).all_keys_spec(),
            t.1 == ((*self).keys_spec().contains(str_bytes(target_key@)) && (*self).fids_of(
                str_bytes(target_key@),
            ).contains(str_bytes(fid@))),
            t.2 == ((*self).keys_spec().contains(str_bytes(target_key@)) && (*self).fids_of(
                str_bytes(target_key@),
            ) == Set::<Seq<u8>>::empty().insert(str_bytes(fid@))),
            (*t.0).keys_spec() == if t.2 {
                (*self).keys_spec().remove(str_bytes(target_key@))
            } else {
                (*self).keys_spec()
            },
            forall|k2: Seq<u8>|
                (*t.0).has_tomb_spec(k2) == ((*self).has_tomb_spec(k2) || (t.2 && k2 == str_bytes(
                    target_key@,
                ))),
            forall|k2: Seq<u8>|
                k2 != str_bytes(target_key@) ==> (*t.0).fids_of(k2) == (*self).fids_of(k2),
            (*t.0).fids_of(str_bytes(target_key@)) == if t.2 {
                Set::<Seq<u8>>::empty()
            } else if t.1 {
                (*self).fids_of(str_bytes(target_key@)).remove(str_bytes(fid@))
            } else {
                (*self).fids_of(str_bytes(target_key@))
            },
            !t.1 ==> *t.0 == *self,
            !t.2 ==> (*t.0).same_accs(*self),
            (*t.0).path_of(str_bytes(target_key@)) == (*self).path_of(str_bytes(target_key@)),
            *self matches Node::NonLeaf { acc: a1, .. } ==> (*t.0 matches Node::NonLeaf {
                acc: a2,
                ..
            } && (t.2 ==> exists|iv: nat|
                iv < fr_modulus() && mul_mod(
                    iv,
                    sub_mod(secret.val(), crate::accumulator::key_scalar(str_bytes(target_key@))),
                ) == 1 && a2 == g1_mul_of(a1, iv)) && (!t.2 ==> a2 == a1)),
        decreases *self,
    {
        let ghost kb = str_bytes(target_key@);
        let ghost fb = str_bytes(fid@);
        match *self {
            Node::Leaf { key, mut fids, level, deleted } => {
                let kb_exec = key.as_str().as_bytes_vec();
                let tb = target_key.as_bytes_vec();
                if !deleted && crate::bytestr::bytes_eq(&kb_exec, &tb) && fids.contains(fid) {
                    let ghost oldf = fids@;
                    fids.delete(fid);
                    let now_empty = fids.is_empty();
                    let n = Box::new(
                        Node::Leaf { key, fids, level, deleted: now_empty },
                    );
                    proof {
                        if now_empty {
                            assert(oldf =~= Set::<Seq<u8>>::empty().insert(fb));
                            assert((*n).keys_spec() =~= (*self).keys_spec().remove(kb));
                        } else {
                            assert(oldf != Set::<Seq<u8>>::empty().insert(fb)) by {
                                if oldf == Set::<Seq<u8>>::empty().insert(fb) {
                                    assert(oldf.remove(fb) =~= Set::<Seq<u8>>::empty());
                                }
                            }
                            assert((*n).keys_spec() =~= (*self).keys_spec());
                        }
                    }
                    (n, true, now_empty)
                } else {
                    let n = Box::new(Node::Leaf { key, fids, level, deleted });
                    (n, false, false)
                }
            },
            Node::NonLeaf { hash, keys, acc, level, left, right } => {
                let ghost oldl = *left;
                let ghost oldr = *right;
                let go_left = left.has_key(target_key);
                let (l2, r2, changed, tombstoned) = if go_left {
                    let (l2, changed, tombstoned) = left.delete_fid(secret, target_key, fid);
                    (l2, right, changed, tombstoned)
                } else {
                    let (r2, changed, tombstoned) = right.delete_fid(secret, target_key, fid);
                    (left, r2, changed, tombstoned)
                };
                let keys2 = if tombstoned {
                    l2.keys().union(&r2.keys())
                } else {
                    keys
                };
                let hash2 = if changed {
                    nonleaf_hash(&l2.hash(), &r2.hash())
                } else {
                    hash
                };
                let acc2 = if tombstoned {
                    let elem = key_to_scalar(target_key);
                    let holder = DynamicAccumulator { acc_value: acc };
                    match holder.compute_delete(secret, &elem) {
                        Ok(c) => c,
                        Err(_) => {
                            proof {
                                assert(false);
                            }
                            crate::group::g1_generator()
                        },
                    }
                } else {
                    acc
                };
                let n = Box::new(
                    Node::NonLeaf { hash: hash2, keys: keys2, acc: acc2, level, left: l2, right: r2 },
                );
                proof {
                    assert((*n).all_keys_spec() =~= (*self).all_keys_spec());
                    if tombstoned {
                        assert((*n).keys_spec() =~= (*self).keys_spec().remove(kb)) by {
                            if go_left {
                                oldr.lemma_keys_sub_all(kb);
                                oldr.lemma_tomb_sub_all(kb);
                                oldl.lemma_keys_sub_all(kb);
                            } else {
                                oldl.lemma_keys_sub_all(kb);
                                oldr.lemma_keys_sub_all(kb);
                            }
                        }
                    } else {
                        assert((*n).keys_spec() =~= (*self).keys_spec());
                    }
                    assert forall|k2: Seq<u8>| (*n).has_tomb_spec(k2) == ((*self).has_tomb_spec(k2)
                        || (tombstoned && k2 == kb)) by {
                        if go_left {
                            assert((*l2).has_tomb_spec(k2) == (oldl.has_tomb_spec(k2) || (
                            tombstoned && k2 == kb)));
                            assert(*r2 == oldr);
                        } else {
                            assert(*l2 == oldl);
                            assert((*r2).has_tomb_spec(k2) == (oldr.has_tomb_spec(k2) || (
                            tombstoned && k2 == kb)));
                        }
                    }
                    assert forall|k2: Seq<u8>| k2 != kb implies (*n).fids_of(k2) == (*self).fids_of(
                        k2,
                    ) by {
                        if go_left {
                            assert((*l2).fids_of(k2) == oldl.fids_of(k2));
                            assert((*l2).keys_spec().contains(k2) == oldl.keys_spec().contains(k2));
                            assert(*r2 == oldr);
                        } else {
                            assert(*l2 == oldl);
                            assert((*r2).fids_of(k2) == oldr.fids_of(k2));
                        }
                    }
                    assert((*n).fids_of(kb) == if tombstoned {
                        Set::<Seq<u8>>::empty()
                    } else if changed {
                        (*self).fids_of(kb).remove(fb)
                    } else {
                        (*self).fids_of(kb)
                    }) by {
                        if go_left {
                            assert(*r2 == oldr);
                            if tombstoned {
                                oldr.lemma_keys_sub_all(kb);
                                oldl.lemma_keys_sub_all(kb);
                                oldr.lemma_all_keys_split(kb);
                                oldr.lemma_fids_empty_outside(kb);
                            }
                        } else {
                            assert(*l2 == oldl);
                            if tombstoned {
                                oldl.lemma_keys_sub_all(kb);
                                oldr.lemma_keys_sub_all(kb);
                            }
                        }
                    }
                    if !changed {
                        assert(*n == *self);
                    }
                    if !tombstoned {
                        assert((*n).same_accs(*self)) by {
                            if go_left {
                                assert((*l2).same_accs(oldl));
                                assert(*r2 == oldr);
                                oldr.lemma_same_accs_refl();
                            } else {
                                assert(*l2 == oldl);
                                oldl.lemma_same_accs_refl();
                                assert((*r2).same_accs(oldr));
                            }
                        }
                    }
                    assert((*n).path_of(kb) == (*self).path_of(kb)) by {
                        if go_left {
                            oldl.lemma_keys_sub_all(kb);
                            assert(oldl.all_keys_spec().contains(kb));
                            assert((*l2).all_keys_spec() == oldl.all_keys_spec());
                            assert((*l2).path_of(kb) == oldl.path_of(kb));
                            assert(*r2 == oldr);
                        } else {
                            assert(*l2 == oldl);
                            assert((*r2).all_keys_spec() == oldr.all_keys_spec());
                            assert((*r2).path_of(kb) == oldr.path_of(kb));
                            if oldl.all_keys_spec().contains(kb) {
                                assert(oldl.all_keys_spec().disjoint(oldr.all_keys_spec()));
                                assert(!changed) by {
                                    if changed {
                                        assert(oldr.keys_spec().contains(kb));
                                        oldr.lemma_keys_sub_all(kb);
                                    }
                                }
                                assert(*r2 == oldr);
                            }
                        }
                    }
                }
                (n, changed, tombstoned)
            },
        }
    }

    /// Replace one document identifier of a live key by another; the key
    /// set, the level and the accumulators do not move. The result says
    /// whether the subtree changed.
    pub fn update_fid(self: Box<Node>, target_key: &str, old_fid: &str, new_fid: String) -> (r: (
        Box<Node>,
        bool,
    ))
        requires
            (*self).wf(),
        ensures
            (*r.0).wf(),
            (*r.0).level_spec() == (*self).level_spec(),
            (*r.0).all_keys_spec() == (*self).all_keys_spec(),
            (*r.0).keys_spec() == (*self).keys_spec(),
            forall|k2: Seq<u8>| (*r.0).has_tomb_spec(k2) == (*self).has_tomb_spec(k2),
            forall|k2: Seq<u8>|
                k2 != str_bytes(target_key@) ==> (*r.0).fids_of(k2) == (*self).fids_of(k2),
            r.1 == ((*self).keys_spec().contains(str_bytes(target_key@)) && (*self).fids_of(
                str_bytes(target_key@),
            ).contains(str_bytes(old_fid@))),
            r.1 ==> (*r.0).fids_of(str_bytes(target_key@)) == (*self).fids_of(
                str_bytes(target_key@),
            ).remove(str_bytes(old_fid@)).insert(str_bytes(new_fid@)),
            !r.1 ==> *r.0 == *self,
            (*r.0).same_accs(*self),
            (*r.0).path_of(str_bytes(target_key@)) == (*self).path_of(str_bytes(target_key@)),
        decreases *self,
    {
        let ghost kb = str_bytes(target_key@);
        match *self {
            Node::Leaf { key, mut fids, level, deleted } => {
                let kb_exec = key.as_str().as_bytes_vec();
                let tb = target_key.as_bytes_vec();
                if !deleted && crate::bytestr::bytes_eq(&kb_exec, &tb) && fids.contains(old_fid) {
                    fids.delete(old_fid);
                    fids.insert(new_fid);
                    let n = Box::new(Node::Leaf { key, fids, level, deleted });
                    (n, true)
                } else {
                    let n = Box::new(Node::Leaf { key, fids, level, deleted });
                    (n, false)
                }
            },
            Node::NonLeaf { hash, keys, acc, level, left, right } => {
                let ghost oldl = *left;
                let ghost oldr = *right;
                let go_left = left.has_key(target_key);
                let (l2, r2, changed) = if go_left {
                    let (l2, changed) = left.update_fid(target_key, old_fid, new_fid);
                    (l2, right, changed)
                } else {
                    let (r2, changed) = right.update_fid(target_key, old_fid, new_fid);
                    (left, r2, changed)
                };
                let hash2 = if changed {
                    nonleaf_hash(&l2.hash(), &r2.hash())
                } else {
                    hash
                };
                let n = Box::new(
                    Node::NonLeaf { hash: hash2, keys, acc, level, left: l2, right: r2 },
                );
                proof {
                    assert((*n).keys_spec() =~= (*self).keys_spec());
                    assert((*n).all_keys_spec() =~= (*self).all_keys_spec());
                    assert forall|k2: Seq<u8>| (*n).has_tomb_spec(k2) == (*self).has_tomb_spec(
                        k2,
                    ) by {
                        if go_left {
                            assert((*l2).has_tomb_spec(k2) == oldl.has_tomb_spec(k2));
                            assert(*r2 == oldr);
                        } else {
                            assert(*l2 == oldl);
                            assert((*r2).has_tomb_spec(k2) == oldr.has_tomb_spec(k2));
                        }
                    }
                    assert forall|k2: Seq<u8>| k2 != kb implies (*n).fids_of(k2) == (*self).fids_of(
                        k2,
                    ) by {
                        if go_left {
                            assert((*l2).fids_of(k2) == oldl.fids_of(k2));
                            assert((*l2).keys_spec() == oldl.keys_spec());
                            assert(*r2 == oldr);
                        } else {
                            assert(*l2 == oldl);
                            assert((*r2).fids_of(k2) == oldr.fids_of(k2));
                        }
                    }
                    if !changed {
                        assert(*n == *self);
                    }
                    assert((*n).same_accs(*self)) by {
                        if go_left {
                            assert((*l2).same_accs(oldl));
                            assert(*r2 == oldr);
                            oldr.lemma_same_accs_refl();
                        } else {
                            assert(*l2 == oldl);
                            oldl.lemma_same_accs_refl();
                            assert((*r2).same_accs(oldr));
                        }
                    }
                    assert((*n).path_of(kb) == (*self).path_of(kb)) by {
                        if go_left {
                            oldl.lemma_keys_sub_all(kb);
                            assert(oldl.all_keys_spec().contains(kb));
                            assert((*l2).all_keys_spec() == oldl.all_keys_spec());
                            assert((*l2).path_of(kb) == oldl.path_of(kb));
                            assert(*r2 == oldr);
                        } else {
                            assert(*l2 == oldl);
                            assert((*r2).all_keys_spec() == oldr.all_keys_spec());
                            assert((*r2).path_of(kb) == oldr.path_of(kb));
                            if oldl.all_keys_spec().contains(kb) {
                                assert(oldl.all_keys_spec().disjoint(oldr.all_keys_spec()));
                                assert(!changed) by {
                                    if changed {
                                        assert(oldr.keys_spec().contains(kb));
                                        oldr.lemma_keys_sub_all(kb);
                                    }
                                }
                                assert(*r2 == oldr);
                            }
                        }
                    }
                }
                (n, changed)
            },
        }
    }

    /// Bring a tombstoned key back to life with a single document
    /// identifier; the key rejoins the live sets and accumulators along the
    /// path.
    pub fn revive(self: Box<Node>, secret: &Scalar, target_key: &str, new_fid: &str) -> (r: Box<
        Node,
    >)
        requires
            (*self).wf(),
            secret.wf(),
            (*self).has_tomb_spec(str_bytes(target_key@)),
        ensures
            (*r).wf(),
            (*r).level_spec() == (*self).level_spec(),
            (*r).all_keys_spec() == (*self).all_keys_spec(),
            (*r).keys_spec() == (*self).keys_spec().insert(str_bytes(target_key@)),
            forall|k2: Seq<u8>|
                (*r).has_tomb_spec(k2) == ((*self).has_tomb_spec(k2) && k2 != str_bytes(
                    target_key@,
                )),
            forall|k2: Seq<u8>|
                k2 != str_bytes(target_key@) ==> (*r).fids_of(k2) == (*self).fids_of(k2),
            (*r).fids_of(str_bytes(target_key@)) == Set::<Seq<u8>>::empty().insert(
                str_bytes(new_fid@),
            ),
            (*r).path_of(str_bytes(target_key@)) == (*self).path_of(str_bytes(target_key@)),
            *self matches Node::NonLeaf { acc: a1, .. } ==> (*r matches Node::NonLeaf {
                acc: a2,
                ..
            } && a2 == g1_mul_of(
                a1,
                sub_mod(secret.val(), crate::accumulator::key_scalar(str_bytes(target_key@))),
            )),
        decreases *self,
    {
        let ghost kb = str_bytes(target_key@);
        match *self {
            Node::Leaf { key, fids, level, deleted } => {
                let mut nf = KeySet::new();
                nf.insert(String::from_str(new_fid));
                let n = Box::new(Node::Leaf { key, fids: nf, level, deleted: false });
                proof {
                    assert((*n).keys_spec() =~= (*self).keys_spec().insert(kb));
                    assert((*n).fids_of(kb) =~= Set::<Seq<u8>>::empty().insert(
                        str_bytes(new_fid@),
                    ));
                }
                n
            },
            Node::NonLeaf { hash, keys, acc, level, left, right } => {
                let ghost oldl = *left;
                let ghost oldr = *right;
                let go_left = left.has_tombstone(target_key);
                let (l2, r2) = if go_left {
                    let l2 = left.revive(secret, target_key, new_fid);
                    (l2, right)
                } else {
                    let r2 = right.revive(secret, target_key, new_fid);
                    (left, r2)
                };
                let keys2 = l2.keys().union(&r2.keys());
                let hash2 = nonleaf_hash(&l2.hash(), &r2.hash());
                let elem = key_to_scalar(target_key);
                let holder = DynamicAccumulator { acc_value: acc };
                let acc2 = holder.compute_add(secret, &elem);
                let n = Box::new(
                    Node::NonLeaf { hash: hash2, keys: keys2, acc: acc2, level, left: l2, right: r2 },
                );
                proof {
                    assert((*n).all_keys_spec() =~= (*self).all_keys_spec());
                    assert((*n).keys_spec() =~= (*self).keys_spec().insert(kb));
                    assert forall|k2: Seq<u8>| (*n).has_tomb_spec(k2) == ((*self).has_tomb_spec(k2)
                        && k2 != kb) by {
                        if go_left {
                            assert((*l2).has_tomb_spec(k2) == (oldl.has_tomb_spec(k2) && k2 != kb));
                            assert(*r2 == oldr);
                            if k2 == kb {
                                oldl.lemma_tomb_sub_all(kb);
                                oldr.lemma_tomb_sub_all(kb);
                            }
                        } else {
                            assert(*l2 == oldl);
                            assert((*r2).has_tomb_spec(k2) == (oldr.has_tomb_spec(k2) && k2 != kb));
                            if k2 == kb {
                                oldr.lemma_tomb_sub_all(kb);
                                oldl.lemma_tomb_sub_all(kb);
                            }
                        }
                    }
                    assert forall|k2: Seq<u8>| k2 != kb implies (*n).fids_of(k2) == (*self).fids_of(
                        k2,
                    ) by {
                        if go_left {
                            assert((*l2).fids_of(k2) == oldl.fids_of(k2));
                            assert((*l2).keys_spec().contains(k2) == oldl.keys_spec().contains(k2));
                            assert(*r2 == oldr);
                        } else {
                            assert(*l2 == oldl);
                            assert((*r2).fids_of(k2) == oldr.fids_of(k2));
                        }
                    }
                    assert((*n).fids_of(kb) == Set::<Seq<u8>>::empty().insert(
                        str_bytes(new_fid@),
                    )) by {
                        if go_left {
                            assert((*l2).keys_spec().contains(kb));
                        } else {
                            assert(*l2 == oldl);
                            oldl.lemma_keys_sub_all(kb);
                            oldr.lemma_tomb_sub_all(kb);
                            assert(!oldl.keys_spec().contains(kb));
                        }
                    }
                    assert((*n).path_of(kb) == (*self).path_of(kb)) by {
                        if go_left {
                            oldl.lemma_tomb_sub_all(kb);
                            assert(oldl.all_keys_spec().contains(kb));
                            assert((*l2).all_keys_spec() == oldl.all_keys_spec());
                            assert((*l2).path_of(kb) == oldl.path_of(kb));
                            assert(*r2 == oldr);
                        } else {
                            assert(*l2 == oldl);
                            oldr.lemma_tomb_sub_all(kb);
                            assert(oldr.all_keys_spec().contains(kb));
                            assert(oldl.all_keys_spec().disjoint(oldr.all_keys_spec()));
                            assert(!oldl.all_keys_spec().contains(kb));
                            assert((*r2).all_keys_spec() == oldr.all_keys_spec());
                            assert((*r2).path_of(kb) == oldr.path_of(kb));
                        }
                    }
                }
                n
            },
        }
    }

    /// Merge two subtrees of equal level into one node a level above: the
    /// live keys unite, the accumulator of the left side takes the right
    /// side's keys in one batch addition under the trapdoor, and the new
    /// hash binds the two children's hashes.
    pub fn merge(
        pp: &PublicParameters,
        secret: &Scalar,
        left: Box<Node>,
        right: Box<Node>,
    ) -> (r: Box<Node>)
        requires
            pp.wf(),
            secret.wf(),
            (*left).wf(),
            (*right).wf(),
            (*left).level_spec() == (*right).level_spec(),
            (*left).level_spec() < usize::MAX - 1,
            (*left).all_keys_spec().disjoint((*right).all_keys_spec()),
        ensures
            (*r).wf(),
            (*r).level_spec() == (*left).level_spec() + 1,
            (*r).keys_spec() == (*left).keys_spec().union((*right).keys_spec()),
            (*r).all_keys_spec() == (*left).all_keys_spec().union((*right).all_keys_spec()),
            (*r).hash_spec() == internal_hash_of((*left).hash_spec(), (*right).hash_spec()),
            forall|k2: Seq<u8>|
                (*r).has_tomb_spec(k2) == ((*left).has_tomb_spec(k2) || (*right).has_tomb_spec(
                    k2,
                )),
            forall|k2: Seq<u8>|
                (*r).fids_of(k2) == if (*left).keys_spec().contains(k2) {
                    (*left).fids_of(k2)
                } else {
                    (*right).fids_of(k2)
                },
            *r matches Node::NonLeaf { acc: racc, .. } && racc == g1_mul_of(
                (*left).acc_spec(*pp),
                crate::accumulator::prod_s_minus(
                    secret.val(),
                    crate::accumulator::key_scalars(
                        canon_seq((*right).keys_spec().difference((*left).keys_spec())),
                    ),
                ),
            ),
    {
        let keys = left.keys().union(&right.keys());
        let left_acc = left.acc(pp);
        let delta = right.keys().difference(&left.keys());
        proof {
            crate::keyset::lemma_keyset_canonical(delta);
        }
        let ds = crate::accumulator::digest_set_from_set(&delta);
        let new_acc = crate::accumulator::batch_add(&left_acc, secret, &ds);
        let hash = nonleaf_hash(&left.hash(), &right.hash());
        let level = right.level() + 1;
        Box::new(Node::NonLeaf { hash, keys, acc: new_acc, level, left, right })
    }

    /// What `collect_leaves` lists: the live leaves in order, without the
    /// excluded key.
    pub open spec fn collect_spec(self, ex: Option<Seq<u8>>) -> Seq<(Seq<u8>, Set<Seq<u8>>)>
        decreases self,
    {
        match self {
            Node::Leaf { key, fids, deleted, .. } => {
                if deleted || (ex matches Some(e) && e == str_bytes(key@)) {
                    Seq::<(Seq<u8>, Set<Seq<u8>>)>::empty()
                } else {
                    seq![(str_bytes(key@), fids@)]
                }
            },
            Node::NonLeaf { left, right, .. } => (*left).collect_spec(ex) + (*right).collect_spec(
                ex,
            ),
        }
    }

    /// Append the live leaves of the subtree, in order, leaving out the
    /// excluded key.
    pub fn collect_into(&self, exclude_key: Option<&str>, out: &mut Vec<(String, KeySet)>)
        requires
            self.wf(),
        ensures
            final(out)@.len() >= old(out)@.len(),
            final(out)@.take(old(out)@.len() as int) == old(out)@,
            pairs_view(final(out)@) == pairs_view(old(out)@) + self.collect_spec(
                opt_view(exclude_key),
            ),
            forall|j: int|
                old(out)@.len() <= j < final(out)@.len() ==> (#[trigger] final(out)@[j]).1.wf(),
        decreases *self,
    {
        match self {
            Node::Leaf { key, fids, deleted, .. } => {
                if *deleted {
                    proof {
                        assert(pairs_view(out@) =~= pairs_view(out@) + self.collect_spec(
                            opt_view(exclude_key),
                        ));
                        assert(out@.take(out@.len() as int) =~= out@);
                    }
                    return ;
                }
                let skip_it = match exclude_key {
                    Some(ex) => {
                        let eb = ex.as_bytes_vec();
                        let kb = key.as_str().as_bytes_vec();
                        crate::bytestr::bytes_eq(&eb, &kb)
                    },
                    None => false,
                };
                if skip_it {
                    proof {
                        assert(pairs_view(out@) =~= pairs_view(out@) + self.collect_spec(
                            opt_view(exclude_key),
                        ));
                        assert(out@.take(out@.len() as int) =~= out@);
                    }
                    return ;
                }
                let ghost before = out@;
                out.push((self_clone_string(key), self_clone_keyset(fids)));
                proof {
                    assert(pairs_view(out@) =~= pairs_view(before) + self.collect_spec(
                        opt_view(exclude_key),
                    ));
                    assert(out@.take(before.len() as int) =~= before);
                }
            },
            Node::NonLeaf { left, right, .. } => {
                let ghost before = out@;
                left.collect_into(exclude_key, out);
                let ghost mid = out@;
                right.collect_into(exclude_key, out);
                proof {
                    assert(pairs_view(out@) =~= pairs_view(before) + self.collect_spec(
                        opt_view(exclude_key),
                    ));
                    assert(out@.take(before.len() as int) =~= before);
                    assert forall|j: int| before.len() <= j < out@.len() implies (#[trigger] out@[j]).1.wf() by {
                        if j < mid.len() {
                            assert(out@[j] == mid[j]);
                        }
                    }
                }
            },
        }
    }

    /// The live leaves of the subtree in order, leaving out the excluded
    /// key: each with its key and document identifiers.
    pub fn collect_leaves(&self, exclude_key: Option<&str>) -> (r: Vec<(String, KeySet)>)
        requires
            self.wf(),
        ensures
            pairs_view(r@) == self.collect_spec(opt_view(exclude_key)),
            forall|j: int| 0 <= j < r@.len() ==> (#[trigger] r@[j]).1.wf(),
    {
        let mut out: Vec<(String, KeySet)> = Vec::new();
        proof {
            assert(pairs_view(out@) =~= Seq::<(Seq<u8>, Set<Seq<u8>>)>::empty());
        }
        self.collect_into(exclude_key, &mut out);
        proof {
            assert(pairs_view(out@) =~= self.collect_spec(opt_view(exclude_key)));
        }
        out
    }

    /// Look a key up and gather the Merkle path: on success the returned
    /// identifiers are the leaf's, and refolding the leaf's hash up the
    /// entries appended to `path` yields this subtree's hash.
    pub fn recurse_select_with_proof(
        &self,
        target_key: &str,
        path: &mut Vec<(Vec<u8>, bool)>,
    ) -> (r: Option<KeySet>)
        requires
            self.wf(),
        ensures
            r is Some <==> self.keys_spec().contains(str_bytes(target_key@)),
            r is None ==> *final(path) == *old(path),
            r matches Some(fs) ==> {
                &&& fs.wf()
                &&& fs@ == self.fids_of(str_bytes(target_key@))
                &&& final(path)@.len() == old(path)@.len() + self.level_spec()
                &&& path_view(final(path)@).take(old(path)@.len() as int) == path_view(old(path)@)
                &&& path_view(final(path)@).skip(old(path)@.len() as int) == self.path_of(
                    str_bytes(target_key@),
                )
                &&& merkle_fold(
                    leaf_hash_of(
                        str_bytes(target_key@),
                        canon_seq(self.fids_of(str_bytes(target_key@))),
                        0,
                        false,
                    ),
                    path_view(final(path)@).skip(old(path)@.len() as int),
                ) == self.hash_spec()
            },
        decreases *self,
    {
        let ghost kb = str_bytes(target_key@);
        let ghost oldlen = old(path)@.len() as int;
        match self {
            Node::Leaf { key, fids, level, deleted } => {
                if *deleted {
                    None
                } else {
                    let kb_exec = key.as_str().as_bytes_vec();
                    let tb = target_key.as_bytes_vec();
                    if crate::bytestr::bytes_eq(&kb_exec, &tb) {
                        let fs = self_clone_keyset(fids);
                        proof {
                            crate::keyset::lemma_keyset_canonical(*fids);
                            assert(path_view(path@).skip(oldlen) =~= Seq::<
                                (Seq<u8>, bool),
                            >::empty());
                            assert(path_view(path@).take(oldlen) =~= path_view(path@));
                        }
                        Some(fs)
                    } else {
                        None
                    }
                }
            },
            Node::NonLeaf { left, right, .. } => {
                if left.has_key(target_key) {
                    let r = left.recurse_select_with_proof(target_key, path);
                    let fs = match r {
                        Some(fs) => fs,
                        None => {
                            proof {
                                assert(false);
                            }
                            return None;
                        },
                    };
                    let ghost mid = path@;
                    let sib = right.hash();
                    path.push((sib, false));
                    proof {
                        let added = path_view(path@).skip(oldlen);
                        assert(added.drop_last() =~= path_view(mid).skip(oldlen));
                        assert(added.last() == ((*right).hash_spec(), false));
                        assert(path_view(path@).take(oldlen) =~= path_view(mid).take(oldlen));
                        assert(self.fids_of(kb) == (*left).fids_of(kb));
                        (*left).lemma_keys_sub_all(kb);
                        assert((*left).all_keys_spec().contains(kb));
                        assert(added =~= (*left).path_of(kb).push(((*right).hash_spec(), false)));
                    }
                    Some(fs)
                } else if right.has_key(target_key) {
                    let r = right.recurse_select_with_proof(target_key, path);
                    let fs = match r {
                        Some(fs) => fs,
                        None => {
                            proof {
                                assert(false);
                            }
                            return None;
                        },
                    };
                    let ghost mid = path@;
                    let sib = left.hash();
                    path.push((sib, true));
                    proof {
                        let added = path_view(path@).skip(oldlen);
                        assert(added.drop_last() =~= path_view(mid).skip(oldlen));
                        assert(added.last() == ((*left).hash_spec(), true));
                        assert(path_view(path@).take(oldlen) =~= path_view(mid).take(oldlen));
                        assert(self.fids_of(kb) == (*right).fids_of(kb));
                        (*right).lemma_keys_sub_all(kb);
                        assert((*right).all_keys_spec().contains(kb));
                        assert(!(*left).all_keys_spec().contains(kb));
                        assert(added =~= (*right).path_of(kb).push(((*left).hash_spec(), true)));
                    }
                    Some(fs)
                } else {
                    None
                }
            },
        }
    }

    /// As `recurse_select_with_proof`, but a tombstoned leaf is found too;
    /// for a tombstoned key, refolding the canonical empty-leaf hash up the
    /// appended entries yields this subtree's hash.
    pub fn recurse_select_proof_including_deleted(
        &self,
        target_key: &str,
        path: &mut Vec<(Vec<u8>, bool)>,
    ) -> (r: Option<KeySet>)
        requires
            self.wf(),
        ensures
            r is Some <==> self.all_keys_spec().contains(str_bytes(target_key@)),
            r is None ==> *final(path) == *old(path),
            r is Some ==> final(path)@.len() == old(path)@.len() + self.level_spec()
                && path_view(final(path)@).take(old(path)@.len() as int) == path_view(old(path)@)
                && path_view(final(path)@).skip(old(path)@.len() as int) == self.path_of(
                str_bytes(target_key@),
            ),
            (r is Some && self.has_tomb_spec(str_bytes(target_key@))) ==> merkle_fold(
                empty_hash_of(),
                path_view(final(path)@).skip(old(path)@.len() as int),
            ) == self.hash_spec(),
            (r is Some && self.keys_spec().contains(str_bytes(target_key@))) ==> merkle_fold(
                leaf_hash_of(
                    str_bytes(target_key@),
                    canon_seq(self.fids_of(str_bytes(target_key@))),
                    0,
                    false,
                ),
                path_view(final(path)@).skip(old(path)@.len() as int),
            ) == self.hash_spec(),
        decreases *self,
    {
        let ghost kb = str_bytes(target_key@);
        let ghost oldlen = old(path)@.len() as int;
        match self {
            Node::Leaf { key, fids, level, deleted } => {
                let kb_exec = key.as_str().as_bytes_vec();
                let tb = target_key.as_bytes_vec();
                if crate::bytestr::bytes_eq(&kb_exec, &tb) {
                    let fs = self_clone_keyset(fids);
                    proof {
                        assert(path_view(path@).skip(oldlen) =~= Seq::<(Seq<u8>, bool)>::empty());
                        assert(path_view(path@).take(oldlen) =~= path_view(path@));
                        crate::keyset::lemma_keyset_canonical(*fids);
                    }
                    Some(fs)
                } else {
                    None
                }
            },
            Node::NonLeaf { left, right, .. } => {
                proof {
                    (*left).lemma_all_keys_split(kb);
                    (*right).lemma_all_keys_split(kb);
                    (*left).lemma_tomb_sub_all(kb);
                    (*right).lemma_tomb_sub_all(kb);
                    (*left).lemma_keys_sub_all(kb);
                    (*right).lemma_keys_sub_all(kb);
                }
                let in_left = left.has_key(target_key) || left.has_tombstone(target_key);
                if in_left {
                    let r = left.recurse_select_proof_including_deleted(target_key, path);
                    let fs = match r {
                        Some(fs) => fs,
                        None => {
                            proof {
                                assert(false);
                            }
                            return None;
                        },
                    };
                    let ghost mid = path@;
                    let sib = right.hash();
                    path.push((sib, false));
                    proof {
                        let added = path_view(path@).skip(oldlen);
                        assert(added.drop_last() =~= path_view(mid).skip(oldlen));
                        assert(added.last() == ((*right).hash_spec(), false));
                        assert(added =~= (*left).path_of(kb).push(((*right).hash_spec(), false)));
                        assert(path_view(path@).take(oldlen) =~= path_view(mid).take(oldlen));
                        if self.keys_spec().contains(kb) {
                            assert((*left).keys_spec().contains(kb)) by {
                                if (*right).keys_spec().contains(kb) {
                                    assert((*right).all_keys_spec().contains(kb));
                                }
                            }
                            assert(self.fids_of(kb) == (*left).fids_of(kb));
                        }
                    }
                    Some(fs)
                } else {
                    let in_right = right.has_key(target_key) || right.has_tombstone(target_key);
                    if in_right {
                        let r = right.recurse_select_proof_including_deleted(target_key, path);
                        let fs = match r {
                            Some(fs) => fs,
                            None => {
                                proof {
                                    assert(false);
                                }
                                return None;
                            },
                        };
                        let ghost mid = path@;
                        let sib = left.hash();
                        path.push((sib, true));
                        proof {
                            let added = path_view(path@).skip(oldlen);
                            assert(added.drop_last() =~= path_view(mid).skip(oldlen));
                            assert(added.last() == ((*left).hash_spec(), true));
                            assert(added =~= (*right).path_of(kb).push((
                                (*left).hash_spec(),
                                true,
                            )));
                            assert(path_view(path@).take(oldlen) =~= path_view(mid).take(oldlen));
                            if self.keys_spec().contains(kb) {
                                assert((*right).keys_spec().contains(kb));
                                assert(!(*left).keys_spec().contains(kb));
                                assert(self.fids_of(kb) == (*right).fids_of(kb));
                            }
                        }
                        Some(fs)
                    } else {
                        None
                    }
                }
            },
        }
    }

    /// The live document identifiers of a key, or nothing.
    pub fn select(&self, target_key: &str) -> (r: Option<KeySet>)
        requires
            self.wf(),
        ensures
            r is Some <==> self.keys_spec().contains(str_bytes(target_key@)),
            r matches Some(fs) ==> fs.wf() && fs@ == self.fids_of(str_bytes(target_key@)),
        decreases *self,
    {
        match self {
            Node::Leaf { key, fids, deleted, .. } => {
                if *deleted {
                    None
                } else {
                    let kb = key.as_str().as_bytes_vec();
                    let tb = target_key.as_bytes_vec();
                    if crate::bytestr::bytes_eq(&kb, &tb) {
                        Some(self_clone_keyset(fids))
                    } else {
                        None
                    }
                }
            },
            Node::NonLeaf { left, right, .. } => {
                if left.has_key(target_key) {
                    left.select(target_key)
                } else {
                    let r = right.select(target_key);
                    proof {
                        let tb = str_bytes(target_key@);
                        assert(self.keys_spec().contains(tb) <==> (*right).keys_spec().contains(
                            tb,
                        ));
                    }
                    r
                }
            },
        }
    }
}

} // verus!
