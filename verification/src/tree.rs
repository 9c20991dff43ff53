//! The binomial Merkle forest: a list of perfect binary trees with strictly
//! increasing levels and pairwise disjoint key spaces. Inserting a fresh key
//! pushes a new leaf and merges trees of equal level; deleting tombstones a
//! leaf and never reshapes the forest.

use vstd::prelude::*;

use crate::accumulator::{key_scalar, DynamicAccumulator};
use crate::bytestr::canon_seq;
use crate::group::{g1_clone, G1Point};
use crate::keyset::{self_clone_string, str_bytes, KeySet};
use crate::merkle::{merkle_fold, path_view, Proof};
use crate::accumulator::commit_of_set;
use crate::response::{DeleteResponse, InsertResponse, QueryResponse, UpdateResponse};
use crate::node::Node;
use crate::params::PublicParameters;
use crate::scalar::Scalar;
use crate::hashes::leaf_hash_of;
use crate::Error;
use vstd::string::StrSliceExecFns;
use vstd::string::StringExecFns;

verus! {

/// Some tree of the list holds the key live.
pub open spec fn seq_has_live(roots: Seq<Box<Node>>, kb: Seq<u8>) -> bool {
    exists|i: int| 0 <= i < roots.len() && (*roots[i]).keys_spec().contains(kb)
}

/// Some tree of the list holds the key tombstoned.
pub open spec fn seq_has_tomb(roots: Seq<Box<Node>>, kb: Seq<u8>) -> bool {
    exists|i: int| 0 <= i < roots.len() && (*roots[i]).has_tomb_spec(kb)
}

/// The document identifiers of a live key, wherever it sits.
pub open spec fn seq_fids(roots: Seq<Box<Node>>, kb: Seq<u8>) -> Set<Seq<u8>> {
    if seq_has_live(roots, kb) {
        let i = choose|i: int| 0 <= i < roots.len() && (*roots[i]).keys_spec().contains(kb);
        (*roots[i]).fids_of(kb)
    } else {
        Set::<Seq<u8>>::empty()
    }
}

/// Every tree of the list is well formed.
pub open spec fn seq_all_wf(roots: Seq<Box<Node>>) -> bool {
    forall|i: int| 0 <= i < roots.len() ==> (#[trigger] (*roots[i])).wf()
}

/// The trees' key spaces are pairwise disjoint.
pub open spec fn seq_disjoint(roots: Seq<Box<Node>>) -> bool {
    forall|i: int, j: int|
        0 <= i < j < roots.len() ==> (*roots[i]).all_keys_spec().disjoint(
            (*roots[j]).all_keys_spec(),
        )
}

/// The trees' levels are strictly increasing.
pub open spec fn seq_levels_inc(roots: Seq<Box<Node>>) -> bool {
    forall|i: int, j: int|
        0 <= i < j < roots.len() ==> (*roots[i]).level_spec() < (*roots[j]).level_spec()
}

/// When one tree holds the key live, its identifiers are the list's.
pub proof fn lemma_seq_fids_at(roots: Seq<Box<Node>>, kb: Seq<u8>, i: int)
    requires
        seq_all_wf(roots),
        seq_disjoint(roots),
        0 <= i < roots.len(),
        (*roots[i]).keys_spec().contains(kb),
    ensures
        seq_has_live(roots, kb),
        seq_fids(roots, kb) == (*roots[i]).fids_of(kb),
{
    assert(seq_has_live(roots, kb));
    let j = choose|j: int| 0 <= j < roots.len() && (*roots[j]).keys_spec().contains(kb);
    lemma_seq_live_unique(roots, kb, i, j);
}

/// A live key sits in exactly one tree.
pub proof fn lemma_seq_live_unique(roots: Seq<Box<Node>>, kb: Seq<u8>, i: int, j: int)
    requires
        seq_disjoint(roots),
        0 <= i < roots.len(),
        0 <= j < roots.len(),
        (*roots[i]).keys_spec().contains(kb),
        (*roots[j]).keys_spec().contains(kb),
    ensures
        i == j,
{
    if i != j {
        (*roots[i]).lemma_keys_sub_all(kb);
        (*roots[j]).lemma_keys_sub_all(kb);
        if i < j {
            assert((*roots[i]).all_keys_spec().disjoint((*roots[j]).all_keys_spec()));
            assert(!(*roots[j]).all_keys_spec().contains(kb));
        } else {
            assert((*roots[j]).all_keys_spec().disjoint((*roots[i]).all_keys_spec()));
            assert(!(*roots[i]).all_keys_spec().contains(kb));
        }
    }
}

/// A key sits in the key space of at most one tree.
pub proof fn lemma_seq_all_unique(roots: Seq<Box<Node>>, kb: Seq<u8>, i: int, j: int)
    requires
        seq_disjoint(roots),
        0 <= i < roots.len(),
        0 <= j < roots.len(),
        (*roots[i]).all_keys_spec().contains(kb),
        (*roots[j]).all_keys_spec().contains(kb),
    ensures
        i == j,
{
    if i < j {
        assert((*roots[i]).all_keys_spec().disjoint((*roots[j]).all_keys_spec()));
    } else if j < i {
        assert((*roots[j]).all_keys_spec().disjoint((*roots[i]).all_keys_spec()));
    }
}

/// Replacing one tree in place, leaving every other key's standing in that
/// tree as it was, leaves every other key's lookup over the whole list as
/// it was.
pub proof fn lemma_replace_keeps_other_fids(
    pre: Seq<Box<Node>>,
    post: Seq<Box<Node>>,
    idx: int,
    kb: Seq<u8>,
)
    requires
        seq_all_wf(pre),
        seq_disjoint(pre),
        seq_all_wf(post),
        seq_disjoint(post),
        0 <= idx < pre.len(),
        post.len() == pre.len(),
        forall|j: int| 0 <= j < pre.len() && j != idx ==> post[j] == pre[j],
        forall|k2: Seq<u8>|
            k2 != kb ==> (*post[idx]).keys_spec().contains(k2) == (*pre[idx]).keys_spec().contains(
                k2,
            ),
        forall|k2: Seq<u8>| k2 != kb ==> (*post[idx]).fids_of(k2) == (*pre[idx]).fids_of(k2),
    ensures
        forall|k2: Seq<u8>|
            k2 != kb ==> #[trigger] seq_has_live(post, k2) == seq_has_live(pre, k2),
        forall|k2: Seq<u8>| k2 != kb ==> #[trigger] seq_fids(post, k2) == seq_fids(pre, k2),
{
    assert forall|k2: Seq<u8>| k2 != kb implies #[trigger] seq_has_live(post, k2) == seq_has_live(
        pre,
        k2,
    ) by {
        if seq_has_live(post, k2) {
            let w = choose|w: int| 0 <= w < post.len() && (*post[w]).keys_spec().contains(k2);
            assert((*pre[w]).keys_spec().contains(k2));
        }
        if seq_has_live(pre, k2) {
            let w = choose|w: int| 0 <= w < pre.len() && (*pre[w]).keys_spec().contains(k2);
            assert((*post[w]).keys_spec().contains(k2));
        }
    }
    assert forall|k2: Seq<u8>| k2 != kb implies #[trigger] seq_fids(post, k2) == seq_fids(
        pre,
        k2,
    ) by {
        if seq_has_live(pre, k2) {
            let w = choose|w: int| 0 <= w < pre.len() && (*pre[w]).keys_spec().contains(k2);
            assert((*post[w]).keys_spec().contains(k2));
            assert((*post[w]).fids_of(k2) == (*pre[w]).fids_of(k2));
            lemma_seq_fids_at(pre, k2, w);
            lemma_seq_fids_at(post, k2, w);
        } else {
            assert(!seq_has_live(post, k2));
        }
    }
}

/// The accumulator-augmented binomial Merkle forest.
pub struct AccumulatorTree {
    /// The public parameters every commitment and verification reads.
    pub pp: PublicParameters,
    /// The trapdoor, held by the manager role that owns the forest.
    pub secret: Scalar,
    /// The roots, by strictly increasing level.
    pub roots: Vec<Box<Node>>,
}

impl AccumulatorTree {
    /// The forest invariant: parameters and trapdoor in canonical form,
    /// every tree well formed, levels strictly increasing, key spaces
    /// pairwise disjoint.
    pub open spec fn wf(self) -> bool {
        &&& self.pp.wf()
        &&& self.secret.wf()
        &&& seq_all_wf(self.roots@)
        &&& seq_levels_inc(self.roots@)
        &&& seq_disjoint(self.roots@)
    }

    /// The key is live somewhere in the forest.
    pub open spec fn has_live(self, kb: Seq<u8>) -> bool {
        seq_has_live(self.roots@, kb)
    }

    /// The key is tombstoned somewhere in the forest.
    pub open spec fn has_tomb(self, kb: Seq<u8>) -> bool {
        seq_has_tomb(self.roots@, kb)
    }

    /// The live document identifiers of a key.
    pub open spec fn fids(self, kb: Seq<u8>) -> Set<Seq<u8>> {
        seq_fids(self.roots@, kb)
    }

    /// An empty forest over the given parameters and trapdoor.
    pub fn new(pp: PublicParameters, secret: Scalar) -> (r: AccumulatorTree)
        requires
            pp.wf(),
            secret.wf(),
        ensures
            r.wf(),
            r.pp == pp,
            forall|kb: Seq<u8>| !r.has_live(kb) && !r.has_tomb(kb),
            r.roots@.len() == 0,
    {
        AccumulatorTree { pp, secret, roots: Vec::new() }
    }

    /// The index of the tree holding the key live, if any.
    fn find_live(&self, key: &str) -> (r: Option<usize>)
        requires
            self.wf(),
        ensures
            r is Some <==> self.has_live(str_bytes(key@)),
            r matches Some(i) ==> i < self.roots@.len() && (*self.roots@[i as int]).keys_spec()
                .contains(str_bytes(key@)),
    {
        let n = self.roots.len();
        for i in 0..n
            invariant
                n == self.roots@.len(),
                self.wf(),
                forall|j: int|
                    0 <= j < i ==> !(*self.roots@[j]).keys_spec().contains(str_bytes(key@)),
        {
            if self.roots[i].has_key(key) {
                return Some(i);
            }
        }
        proof {
            if self.has_live(str_bytes(key@)) {
                let j = choose|j: int|
                    0 <= j < self.roots@.len() && (*self.roots@[j]).keys_spec().contains(
                        str_bytes(key@),
                    );
            }
        }
        None
    }

    /// The index of the tree holding the key tombstoned, if any.
    fn find_tomb(&self, key: &str) -> (r: Option<usize>)
        requires
            self.wf(),
        ensures
            r is Some <==> self.has_tomb(str_bytes(key@)),
            r matches Some(i) ==> i < self.roots@.len() && (*self.roots@[i as int]).has_tomb_spec(
                str_bytes(key@),
            ),
    {
        let n = self.roots.len();
        for i in 0..n
            invariant
                n == self.roots@.len(),
                self.wf(),
                forall|j: int| 0 <= j < i ==> !(*self.roots@[j]).has_tomb_spec(str_bytes(key@)),
        {
            if self.roots[i].has_tombstone(key) {
                return Some(i);
            }
        }
        proof {
            if self.has_tomb(str_bytes(key@)) {
                let j = choose|j: int|
                    0 <= j < self.roots@.len() && (*self.roots@[j]).has_tomb_spec(str_bytes(key@));
            }
        }
        None
    }

    /// The live document identifiers of a key, or nothing.
    pub fn select(&self, key: &str) -> (r: Option<KeySet>)
        requires
            self.wf(),
        ensures
            r is Some <==> self.has_live(str_bytes(key@)),
            r matches Some(fs) ==> fs.wf() && fs@ == self.fids(str_bytes(key@)),
    {
        let idx = match self.find_live(key) {
            Some(i) => i,
            None => {
                return None;
            },
        };
        let r = self.roots[idx].select(key);
        proof {
            lemma_seq_fids_at(self.roots@, str_bytes(key@), idx as int);
        }
        r
    }

    /// A replaced tree keeps the list invariants when its level and key
    /// space do not move.
    proof fn lemma_update_wf(self, other: Seq<Box<Node>>, idx: int)
        requires
            self.wf(),
            0 <= idx < self.roots@.len(),
            other == self.roots@.update(idx, other[idx]),
            other.len() == self.roots@.len(),
            (*other[idx]).wf(),
            (*other[idx]).level_spec() == (*self.roots@[idx]).level_spec(),
            (*other[idx]).all_keys_spec() == (*self.roots@[idx]).all_keys_spec(),
        ensures
            seq_all_wf(other),
            seq_levels_inc(other),
            seq_disjoint(other),
    {
        assert forall|i: int| 0 <= i < other.len() implies (#[trigger] (*other[i])).wf() by {
            if i != idx {
                assert(other[i] == self.roots@[i]);
            }
        }
        assert forall|i: int, j: int| 0 <= i < j < other.len() implies (*other[i]).level_spec() < (
        *other[j]).level_spec() by {
            assert((*self.roots@[i]).level_spec() < (*self.roots@[j]).level_spec());
            if i != idx {
                assert(other[i] == self.roots@[i]);
            }
            if j != idx {
                assert(other[j] == self.roots@[j]);
            }
        }
        assert forall|i: int, j: int| 0 <= i < j < other.len() implies (*other[i]).all_keys_spec()
            .disjoint((*other[j]).all_keys_spec()) by {
            assert((*self.roots@[i]).all_keys_spec().disjoint((*self.roots@[j]).all_keys_spec()));
            if i != idx {
                assert(other[i] == self.roots@[i]);
            }
            if j != idx {
                assert(other[j] == self.roots@[j]);
            }
        }
    }

    #[verifier::rlimit(100)]
    /// Insert a document identifier under a key. A live key gains the
    /// identifier; a tombstoned key comes back to life with exactly this
    /// identifier; a fresh key becomes a new leaf and the forest merges
    /// trees of equal level. Fails only when the forest has no room for
    /// another tree, and then changes nothing.
    #[verifier::rlimit(100)]
    pub fn insert(&mut self, key: String, fid: String) -> (r: Result<(), Error>)
        requires
            old(self).wf(),
        ensures
            final(self).wf(),
            final(self).pp == old(self).pp,
            final(self).secret == old(self).secret,
            r is Ok <==> (old(self).has_live(str_bytes(key@)) || old(self).has_tomb(
                str_bytes(key@),
            ) || old(self).roots@.len() < usize::MAX - 1),
            r matches Err(e) ==> e == Error::ParamsOutOfRange && final(self).roots@ == old(
                self,
            ).roots@,
            r is Ok ==> {
                &&& final(self).has_live(str_bytes(key@))
                &&& !final(self).has_tomb(str_bytes(key@))
                &&& final(self).fids(str_bytes(key@)) == if old(self).has_live(str_bytes(key@)) {
                    old(self).fids(str_bytes(key@)).insert(str_bytes(fid@))
                } else {
                    Set::<Seq<u8>>::empty().insert(str_bytes(fid@))
                }
                &&& forall|k2: Seq<u8>|
                    k2 != str_bytes(key@) ==> final(self).has_live(k2) == old(self).has_live(k2)
                        && final(self).has_tomb(k2) == old(self).has_tomb(k2) && final(self).fids(
                        k2,
                    ) == old(self).fids(k2)
            },
            (old(self).has_live(str_bytes(key@)) && old(self).fids(str_bytes(key@)).contains(
                str_bytes(fid@),
            )) ==> final(self).roots@ == old(self).roots@,
    {
        let ghost kb = str_bytes(key@);
        let ghost fb = str_bytes(fid@);
        if let Some(idx) = self.find_live(key.as_str()) {
            let root = self.roots.remove(idx);
            let ghost groot = *root;
            let (n2, changed) = root.insert_fid(key.as_str(), fid);
            let ghost gn2 = *n2;
            self.roots.insert(idx, n2);
            proof {
                assert(self.roots@ =~= old(self).roots@.update(idx as int, self.roots@[idx as int]));
                old(self).lemma_update_wf(self.roots@, idx as int);
                if !changed {
                    assert(gn2 == groot);
                    assert(self.roots@ =~= old(self).roots@);
                }
                let post = self.roots@;
                let pre = old(self).roots@;
                assert forall|k2: Seq<u8>|
                    #![all_triggers]
                    seq_has_live(post, k2) == seq_has_live(pre, k2) && seq_has_tomb(post, k2)
                        == seq_has_tomb(pre, k2) by {
                    if seq_has_live(post, k2) {
                        let w = choose|w: int|
                            0 <= w < post.len() && (*post[w]).keys_spec().contains(k2);
                        assert((*pre[w]).keys_spec().contains(k2));
                    }
                    if seq_has_live(pre, k2) {
                        let w = choose|w: int|
                            0 <= w < pre.len() && (*pre[w]).keys_spec().contains(k2);
                        assert((*post[w]).keys_spec().contains(k2));
                    }
                    if seq_has_tomb(post, k2) {
                        let w = choose|w: int|
                            0 <= w < post.len() && (*post[w]).has_tomb_spec(k2);
                        assert((*pre[w]).has_tomb_spec(k2));
                    }
                    if seq_has_tomb(pre, k2) {
                        let w = choose|w: int| 0 <= w < pre.len() && (*pre[w]).has_tomb_spec(k2);
                        assert((*post[w]).has_tomb_spec(k2));
                    }
                }
                lemma_replace_keeps_other_fids(pre, post, idx as int, kb);
                lemma_seq_fids_at(pre, kb, idx as int);
                lemma_seq_fids_at(post, kb, idx as int);
                assert(!seq_has_tomb(pre, kb)) by {
                    if seq_has_tomb(pre, kb) {
                        let w = choose|w: int| 0 <= w < pre.len() && (*pre[w]).has_tomb_spec(kb);
                        if w == idx {
                            groot.lemma_live_not_tomb(kb);
                        } else {
                            (*pre[w]).lemma_tomb_sub_all(kb);
                            groot.lemma_keys_sub_all(kb);
                            if w < idx {
                                assert((*pre[w]).all_keys_spec().disjoint(
                                    (*pre[idx as int]).all_keys_spec(),
                                ));
                            } else {
                                assert((*pre[idx as int]).all_keys_spec().disjoint(
                                    (*pre[w]).all_keys_spec(),
                                ));
                            }
                        }
                    }
                }
                assert(final(self).has_live(kb));
                assert(!final(self).has_tomb(kb));
                assert(final(self).fids(kb) == if old(self).has_live(kb) {
                    old(self).fids(kb).insert(fb)
                } else {
                    Set::<Seq<u8>>::empty().insert(fb)
                });
                assert(forall|k2: Seq<u8>|
                    k2 != kb ==> final(self).has_live(k2) == old(self).has_live(k2) && final(
                    self).has_tomb(k2) == old(self).has_tomb(k2) && final(self).fids(k2) == old(
                    self).fids(k2));
            }
            Ok(())
        } else if let Some(idx) = self.find_tomb(key.as_str()) {
            let root = self.roots.remove(idx);
            let ghost groot = *root;
            let n2 = root.revive(&self.secret, key.as_str(), fid.as_str());
            self.roots.insert(idx, n2);
            proof {
                assert(self.roots@ =~= old(self).roots@.update(idx as int, self.roots@[idx as int]));
                old(self).lemma_update_wf(self.roots@, idx as int);
                let post = self.roots@;
                let pre = old(self).roots@;
                assert(seq_has_live(post, kb)) by {
                    assert((*post[idx as int]).keys_spec().contains(kb));
                }
                assert(!seq_has_tomb(post, kb)) by {
                    if seq_has_tomb(post, kb) {
                        let w = choose|w: int|
                            0 <= w < post.len() && (*post[w]).has_tomb_spec(kb);
                        assert(w != idx);
                        assert((*pre[w]).has_tomb_spec(kb));
                        (*pre[w]).lemma_tomb_sub_all(kb);
                        groot.lemma_tomb_sub_all(kb);
                        if w < idx {
                            assert((*pre[w]).all_keys_spec().disjoint(
                                (*pre[idx as int]).all_keys_spec(),
                            ));
                        } else {
                            assert((*pre[idx as int]).all_keys_spec().disjoint(
                                (*pre[w]).all_keys_spec(),
                            ));
                        }
                    }
                }
                lemma_seq_fids_at(post, kb, idx as int);
                assert(!old(self).has_live(kb));
                lemma_replace_keeps_other_fids(pre, post, idx as int, kb);
                assert forall|k2: Seq<u8>|
                    #![all_triggers]
                    k2 != kb implies seq_has_tomb(post, k2) == seq_has_tomb(pre, k2) by {
                    if seq_has_tomb(post, k2) {
                        let w = choose|w: int|
                            0 <= w < post.len() && (*post[w]).has_tomb_spec(k2);
                        assert((*pre[w]).has_tomb_spec(k2));
                    }
                    if seq_has_tomb(pre, k2) {
                        let w = choose|w: int| 0 <= w < pre.len() && (*pre[w]).has_tomb_spec(k2);
                        assert((*post[w]).has_tomb_spec(k2));
                    }
                }
                assert(final(self).has_live(kb));
                assert(!final(self).has_tomb(kb));
                assert(final(self).fids(kb) == if old(self).has_live(kb) {
                    old(self).fids(kb).insert(fb)
                } else {
                    Set::<Seq<u8>>::empty().insert(fb)
                });
                assert(forall|k2: Seq<u8>|
                    k2 != kb ==> final(self).has_live(k2) == old(self).has_live(k2) && final(
                    self).has_tomb(k2) == old(self).has_tomb(k2) && final(self).fids(k2) == old(
                    self).fids(k2));
            }
            Ok(())
        } else {
            if self.roots.len() >= usize::MAX - 1 {
                return Err(Error::ParamsOutOfRange);
            }
            let mut fids = KeySet::new();
            fids.insert(fid);
            let leaf = Box::new(Node::Leaf { key, fids, level: 0, deleted: false });
            proof {
                assert((*leaf).wf());
                assert((*leaf).keys_spec() =~= Set::<Seq<u8>>::empty().insert(kb));
                assert((*leaf).all_keys_spec() =~= Set::<Seq<u8>>::empty().insert(kb));
                assert forall|i: int| 0 <= i < self.roots@.len() implies (*leaf).all_keys_spec()
                    .disjoint(#[trigger] (*self.roots@[i]).all_keys_spec()) by {
                    (*self.roots@[i]).lemma_all_keys_split(kb);
                    assert(!(*self.roots@[i]).keys_spec().contains(kb));
                    assert(!(*self.roots@[i]).has_tomb_spec(kb));
                    assert forall|e: Seq<u8>| (*leaf).all_keys_spec().contains(e) implies !(
                    *self.roots@[i]).all_keys_spec().contains(e) by {
                        assert(e == kb);
                    }
                }
            }
            let ghost gleaf = *leaf;
            self.insert_root(leaf);
            proof {
                assert(final(self).fids(kb) =~= Set::<Seq<u8>>::empty().insert(fb));
                assert(final(self).has_live(kb));
                assert(!gleaf.has_tomb_spec(kb));
                assert(final(self).has_tomb(kb) == (old(self).has_tomb(kb)
                    || gleaf.has_tomb_spec(kb)));
                assert(!final(self).has_tomb(kb));
                assert forall|k2: Seq<u8>|
                    k2 != kb implies final(self).has_live(k2) == old(self).has_live(k2) && final(
                self).has_tomb(k2) == old(self).has_tomb(k2) && final(self).fids(k2) == old(
                self).fids(k2) by {
                    assert(!gleaf.keys_spec().contains(k2));
                    assert(!gleaf.has_tomb_spec(k2));
                    assert(gleaf.fids_of(k2) == gleaf.fids_of(k2));
                    assert(final(self).has_live(k2) == (old(self).has_live(k2)
                        || gleaf.keys_spec().contains(k2)));
                    assert(final(self).has_tomb(k2) == (old(self).has_tomb(k2)
                        || gleaf.has_tomb_spec(k2)));
                }
            }
            Ok(())
        }
    }

    /// Replace one document identifier of a live key by another; the key
    /// sets, the accumulators and the shape of the forest do not move.
    /// Fails with the key or identifier that is not present, and then
    /// changes nothing.
    #[verifier::rlimit(100)]
    pub fn update(&mut self, key: &str, old_fid: &str, new_fid: String) -> (r: Result<(), Error>)
        requires
            old(self).wf(),
        ensures
            final(self).wf(),
            final(self).pp == old(self).pp,
            final(self).secret == old(self).secret,
            r is Ok <==> (old(self).has_live(str_bytes(key@)) && old(self).fids(
                str_bytes(key@),
            ).contains(str_bytes(old_fid@))),
            r matches Err(e) ==> final(self).roots@ == old(self).roots@ && ((e
                == Error::KeyNotPresent && !old(self).has_live(str_bytes(key@))) || (e
                == Error::FidNotPresent && old(self).has_live(str_bytes(key@)) && !old(self).fids(
                str_bytes(key@),
            ).contains(str_bytes(old_fid@)))),
            r is Ok ==> {
                &&& final(self).fids(str_bytes(key@)) == old(self).fids(str_bytes(key@)).remove(
                    str_bytes(old_fid@),
                ).insert(str_bytes(new_fid@))
                &&& forall|k2: Seq<u8>|
                    final(self).has_live(k2) == old(self).has_live(k2) && final(self).has_tomb(k2)
                        == old(self).has_tomb(k2)
                &&& forall|k2: Seq<u8>|
                    k2 != str_bytes(key@) ==> final(self).fids(k2) == old(self).fids(k2)
            },
            r is Ok ==> final(self).roots@.len() == old(self).roots@.len() && exists|idx: int|
                #![trigger old(self).roots@[idx]]
                {
                    &&& 0 <= idx < old(self).roots@.len()
                    &&& (*old(self).roots@[idx]).keys_spec().contains(str_bytes(key@))
                    &&& (*final(self).roots@[idx]).keys_spec().contains(str_bytes(key@))
                    &&& (forall|j: int|
                        0 <= j < old(self).roots@.len() && j != idx ==> final(self).roots@[j]
                            == old(self).roots@[j])
                    &&& (*final(self).roots@[idx]).same_accs(*old(self).roots@[idx])
                    &&& (*final(self).roots@[idx]).path_of(str_bytes(key@)) == (*old(
                        self,
                    ).roots@[idx]).path_of(str_bytes(key@))
                    &&& (*final(self).roots@[idx]).acc_spec(old(self).pp) == (*old(
                        self,
                    ).roots@[idx]).acc_spec(old(self).pp)
                },
    {
        let ghost kb = str_bytes(key@);
        let ghost ofb = str_bytes(old_fid@);
        let ghost nfb = str_bytes(new_fid@);
        let idx = match self.find_live(key) {
            Some(i) => i,
            None => {
                return Err(Error::KeyNotPresent);
            },
        };
        let root = self.roots.remove(idx);
        let ghost groot = *root;
        let (n2, changed) = root.update_fid(key, old_fid, new_fid);
        let ghost gn2 = *n2;
        self.roots.insert(idx, n2);
        proof {
            assert(self.roots@ =~= old(self).roots@.update(idx as int, self.roots@[idx as int]));
            old(self).lemma_update_wf(self.roots@, idx as int);
            let post = self.roots@;
            let pre = old(self).roots@;
            lemma_seq_fids_at(pre, kb, idx as int);
            if !changed {
                assert(gn2 == groot);
                assert(self.roots@ =~= old(self).roots@);
            } else {
                lemma_seq_fids_at(post, kb, idx as int);
            }
            assert(gn2.same_accs(groot));
            assert(gn2.path_of(kb) == groot.path_of(kb));
            assert(gn2.acc_spec(old(self).pp) == groot.acc_spec(old(self).pp)) by {
                match gn2 {
                    Node::NonLeaf { .. } => {
                        assert(groot is NonLeaf);
                    },
                    Node::Leaf { key: k2, deleted: d2, .. } => {
                        match groot {
                            Node::Leaf { key: k1, deleted: d1, .. } => {
                                assert(gn2.keys_spec() == groot.keys_spec());
                                if d1 != d2 {
                                    if d1 {
                                        assert(gn2.keys_spec().contains(str_bytes(k2@)));
                                        assert(!groot.keys_spec().contains(str_bytes(k2@)));
                                    } else {
                                        assert(groot.keys_spec().contains(str_bytes(k1@)));
                                        assert(!gn2.keys_spec().contains(str_bytes(k1@)));
                                    }
                                }
                            },
                            Node::NonLeaf { .. } => {
                                assert(false);
                            },
                        }
                    },
                }
            }
            assert forall|k2: Seq<u8>|
                #![all_triggers]
                seq_has_live(post, k2) == seq_has_live(pre, k2) && seq_has_tomb(post, k2)
                    == seq_has_tomb(pre, k2) by {
                if seq_has_live(post, k2) {
                    let w = choose|w: int|
                        0 <= w < post.len() && (*post[w]).keys_spec().contains(k2);
                    assert((*pre[w]).keys_spec().contains(k2));
                }
                if seq_has_live(pre, k2) {
                    let w = choose|w: int| 0 <= w < pre.len() && (*pre[w]).keys_spec().contains(k2);
                    assert((*post[w]).keys_spec().contains(k2));
                }
                if seq_has_tomb(post, k2) {
                    let w = choose|w: int| 0 <= w < post.len() && (*post[w]).has_tomb_spec(k2);
                    assert((*pre[w]).has_tomb_spec(k2));
                }
                if seq_has_tomb(pre, k2) {
                    let w = choose|w: int| 0 <= w < pre.len() && (*pre[w]).has_tomb_spec(k2);
                    assert((*post[w]).has_tomb_spec(k2));
                }
            }
            lemma_replace_keeps_other_fids(pre, post, idx as int, kb);
        }
        if changed {
            Ok(())
        } else {
            Err(Error::FidNotPresent)
        }
    }

    /// Remove one document identifier from a live key. When the last one
    /// goes, the leaf becomes a tombstone: the key leaves the live sets and
    /// the accumulators along its path, and the shape of the forest stays.
    /// Fails with the key or identifier that is not present — or, on the
    /// negligible chance that the key's digest equals the trapdoor, with a
    /// collision — and then changes nothing.
    #[verifier::rlimit(100)]
    #[verifier::spinoff_prover]
    pub fn delete(&mut self, key: &str, fid: &str) -> (r: Result<(), Error>)
        requires
            old(self).wf(),
        ensures
            final(self).wf(),
            final(self).pp == old(self).pp,
            final(self).secret == old(self).secret,
            r is Ok <==> (old(self).has_live(str_bytes(key@)) && old(self).fids(
                str_bytes(key@),
            ).contains(str_bytes(fid@)) && crate::accumulator::key_scalar(str_bytes(key@)) != old(
                self,
            ).secret.val()),
            r matches Err(e) ==> final(self).roots@ == old(self).roots@ && ((e
                == Error::TrapdoorCollision && crate::accumulator::key_scalar(str_bytes(key@))
                == old(self).secret.val()) || (e == Error::KeyNotPresent && !old(self).has_live(
                str_bytes(key@),
            )) || (e == Error::FidNotPresent && old(self).has_live(str_bytes(key@)) && !old(
                self,
            ).fids(str_bytes(key@)).contains(str_bytes(fid@)))),
            r is Ok ==> {
                &&& final(self).has_live(str_bytes(key@)) == (old(self).fids(str_bytes(key@))
                    != Set::<Seq<u8>>::empty().insert(str_bytes(fid@)))
                &&& final(self).has_tomb(str_bytes(key@)) == (old(self).fids(str_bytes(key@))
                    == Set::<Seq<u8>>::empty().insert(str_bytes(fid@)))
                &&& final(self).fids(str_bytes(key@)) == if old(self).fids(str_bytes(key@)) == Set::<
                    Seq<u8>,
                >::empty().insert(str_bytes(fid@)) {
                    Set::<Seq<u8>>::empty()
                } else {
                    old(self).fids(str_bytes(key@)).remove(str_bytes(fid@))
                }
                &&& forall|k2: Seq<u8>|
                    k2 != str_bytes(key@) ==> final(self).has_live(k2) == old(self).has_live(k2)
                        && final(self).has_tomb(k2) == old(self).has_tomb(k2) && final(self).fids(
                        k2,
                    ) == old(self).fids(k2)
                &&& final(self).roots@.len() == old(self).roots@.len()
            },
            r is Ok ==> exists|idx: int|
                #![trigger old(self).roots@[idx]]
                {
                    &&& 0 <= idx < old(self).roots@.len()
                    &&& (*old(self).roots@[idx]).keys_spec().contains(str_bytes(key@))
                    &&& (*final(self).roots@[idx]).all_keys_spec().contains(str_bytes(key@))
                    &&& (forall|j: int|
                        0 <= j < old(self).roots@.len() && j != idx ==> final(self).roots@[j]
                            == old(self).roots@[j])
                    &&& (*final(self).roots@[idx]).path_of(str_bytes(key@)) == (*old(
                        self,
                    ).roots@[idx]).path_of(str_bytes(key@))
                },
    {
        let ghost kb = str_bytes(key@);
        let ghost fb = str_bytes(fid@);
        let elem = crate::proofs::key_to_scalar(key);
        if elem.eq_scalar(&self.secret) {
            return Err(Error::TrapdoorCollision);
        }
        let idx = match self.find_live(key) {
            Some(i) => i,
            None => {
                return Err(Error::KeyNotPresent);
            },
        };
        let root = self.roots.remove(idx);
        let ghost groot = *root;
        let (n2, changed, tombstoned) = root.delete_fid(&self.secret, key, fid);
        let ghost gn2 = *n2;
        proof {
            assert(changed == (groot.keys_spec().contains(kb) && groot.fids_of(kb).contains(fb)));
            assert forall|k2: Seq<u8>| gn2.has_tomb_spec(k2) == (groot.has_tomb_spec(k2) || (
            tombstoned && k2 == kb)) by {}
            assert(gn2.has_tomb_spec(kb) == (groot.has_tomb_spec(kb) || (tombstoned && kb == kb)));
        }
        self.roots.insert(idx, n2);
        proof {
            assert(self.roots@ =~= old(self).roots@.update(idx as int, self.roots@[idx as int]));
            old(self).lemma_update_wf(self.roots@, idx as int);
            let post = self.roots@;
            let pre = old(self).roots@;
            lemma_seq_fids_at(pre, kb, idx as int);
            if !changed {
                assert(gn2 == groot);
                assert(self.roots@ =~= old(self).roots@);
            }
            if changed && !tombstoned {
                lemma_seq_fids_at(post, kb, idx as int);
            }
            assert(gn2.path_of(kb) == groot.path_of(kb));
            assert(gn2.all_keys_spec().contains(kb)) by {
                groot.lemma_keys_sub_all(kb);
            }
            if tombstoned {
                assert(!seq_has_live(post, kb)) by {
                    if seq_has_live(post, kb) {
                        let w = choose|w: int|
                            0 <= w < post.len() && (*post[w]).keys_spec().contains(kb);
                        assert(w != idx);
                        assert((*pre[w]).keys_spec().contains(kb));
                        (*pre[w]).lemma_keys_sub_all(kb);
                        groot.lemma_keys_sub_all(kb);
                        if w < idx {
                            assert((*pre[w]).all_keys_spec().disjoint(
                                (*pre[idx as int]).all_keys_spec(),
                            ));
                        } else {
                            assert((*pre[idx as int]).all_keys_spec().disjoint(
                                (*pre[w]).all_keys_spec(),
                            ));
                        }
                    }
                }
                assert(seq_has_tomb(post, kb)) by {
                    assert(gn2.has_tomb_spec(kb) == (groot.has_tomb_spec(kb) || (tombstoned && kb
                        == kb)));
                    assert((*post[idx as int]).has_tomb_spec(kb));
                }
            }
            if changed && !tombstoned {
                assert(!seq_has_tomb(post, kb)) by {
                    if seq_has_tomb(post, kb) {
                        let w = choose|w: int|
                            0 <= w < post.len() && (*post[w]).has_tomb_spec(kb);
                        if w == idx {
                            gn2.lemma_live_not_tomb(kb);
                        } else {
                            assert((*pre[w]).has_tomb_spec(kb));
                            (*pre[w]).lemma_tomb_sub_all(kb);
                            groot.lemma_keys_sub_all(kb);
                            if w < idx {
                                assert((*pre[w]).all_keys_spec().disjoint(
                                    (*pre[idx as int]).all_keys_spec(),
                                ));
                            } else {
                                assert((*pre[idx as int]).all_keys_spec().disjoint(
                                    (*pre[w]).all_keys_spec(),
                                ));
                            }
                        }
                    }
                }
            }
            lemma_replace_keeps_other_fids(pre, post, idx as int, kb);
            assert forall|k2: Seq<u8>|
                #![all_triggers]
                k2 != kb implies seq_has_tomb(post, k2) == seq_has_tomb(pre, k2) by {
                if seq_has_tomb(post, k2) {
                    let w = choose|w: int| 0 <= w < post.len() && (*post[w]).has_tomb_spec(k2);
                    assert((*pre[w]).has_tomb_spec(k2));
                }
                if seq_has_tomb(pre, k2) {
                    let w = choose|w: int| 0 <= w < pre.len() && (*pre[w]).has_tomb_spec(k2);
                    assert((*post[w]).has_tomb_spec(k2));
                }
            }
        }
        if changed {
            Ok(())
        } else {
            Err(Error::FidNotPresent)
        }
    }

    /// The set of every live key of the forest.
    pub open spec fn live_keys(self) -> Set<Seq<u8>> {
        Set::new(|kb: Seq<u8>| self.has_live(kb))
    }

    /// Every live key of the forest, as one set.
    fn collect_all_keys(&self) -> (r: KeySet)
        requires
            self.wf(),
        ensures
            r.wf(),
            r@ == self.live_keys(),
    {
        let mut un = KeySet::new();
        let n = self.roots.len();
        let mut i: usize = 0;
        while i < n
            invariant
                self.wf(),
                n == self.roots@.len(),
                i <= n,
                un.wf(),
                forall|e: Seq<u8>|
                    #![trigger un@.contains(e)]
                    un@.contains(e) <==> exists|j: int|
                        0 <= j < i && (*self.roots@[j]).keys_spec().contains(e),
            decreases n - i,
        {
            let ks = self.roots[i].keys();
            let un2 = un.union(&ks);
            proof {
                assert forall|e: Seq<u8>| un2@.contains(e) implies exists|j: int|
                    0 <= j < i + 1 && (*self.roots@[j]).keys_spec().contains(e) by {
                    if un@.contains(e) {
                        let j = choose|j: int|
                            0 <= j < i && (*self.roots@[j]).keys_spec().contains(e);
                        assert(0 <= j < i + 1 && (*self.roots@[j]).keys_spec().contains(e));
                    } else {
                        assert((*self.roots@[i as int]).keys_spec().contains(e));
                    }
                }
            }
            un = un2;
            i += 1;
        }
        proof {
            assert forall|e: Seq<u8>| un@.contains(e) == self.live_keys().contains(e) by {
                assert(self.live_keys().contains(e) == self.has_live(e));
                if un@.contains(e) {
                    let j = choose|j: int|
                        0 <= j < n && (*self.roots@[j]).keys_spec().contains(e);
                }
                if self.has_live(e) {
                    let j = choose|j: int|
                        0 <= j < self.roots@.len() && (*self.roots@[j]).keys_spec().contains(e);
                }
            }
            assert(un@ =~= self.live_keys());
        }
        un
    }

    /// A non-membership response for an absent key, against the commitment
    /// of every live key; nothing for a live key. Construction failures are
    /// surfaced, never folded into the absent case.
    pub fn select_nonmembership_proof(&self, key: &str) -> (r: Result<
        Option<crate::response::NonMembershipProof>,
        Error,
    >)
        requires
            self.wf(),
        ensures
            self.has_live(str_bytes(key@)) ==> (r matches Ok(o) && o is None),
            r matches Ok(o) ==> (o is None <==> self.has_live(str_bytes(key@))),
            r matches Ok(o) ==> (o matches Some(p) ==> {
                &&& str_bytes(p.key@) == str_bytes(key@)
                &&& p.acc_proof.element.wf()
                &&& p.acc_proof.element.val() == key_scalar(str_bytes(key@))
                &&& p.accumulator == commit_of_set(self.pp, self.live_keys())
            }),
            r matches Err(e) ==> !self.has_live(str_bytes(key@)) && (e == Error::NotCoprime || e
                == Error::ParamsOutOfRange),
    {
        if self.find_live(key).is_some() {
            return Ok(None);
        }
        let all_keys = self.collect_all_keys();
        let global_acc = match DynamicAccumulator::calculate_commitment(&self.pp, &all_keys) {
            Ok(c) => c,
            Err(e) => {
                return Err(e);
            },
        };
        proof {
            crate::keyset::lemma_keyset_canonical(all_keys);
        }
        let ds = crate::accumulator::digest_set_from_set(&all_keys);
        let elem = crate::proofs::key_to_scalar(key);
        match crate::proofs::NonMembershipProof::new(&self.pp, &elem, &ds) {
            Ok(acc_proof) => Ok(
                Some(
                    crate::response::NonMembershipProof {
                        key: String::from_str(key),
                        accumulator: global_acc,
                        acc_proof,
                    },
                ),
            ),
            Err(e) => Err(e),
        }
    }

    /// The lookup result with its evidence: for a live key the identifiers,
    /// the Merkle path to the root holding it, that root's accumulator and a
    /// membership witness; for an absent key a non-membership response.
    #[verifier::rlimit(100)]
    #[verifier::spinoff_prover]
    pub fn select_with_proof(&self, key: &str) -> (r: QueryResponse)
        requires
            self.wf(),
        ensures
            r.fids is Some <==> self.has_live(str_bytes(key@)),
            r.fids matches Some(fs) ==> fs.wf() && fs@ == self.fids(str_bytes(key@)),
            self.has_live(str_bytes(key@)) ==> r.proof is Some && r.root_hash is Some
                && r.accumulator is Some && r.membership_witness is Some,
            r.proof matches Some(p) ==> {
                &&& merkle_fold(
                    leaf_hash_of(
                        str_bytes(key@),
                        canon_seq(self.fids(str_bytes(key@))),
                        0,
                        false,
                    ),
                    path_view(p.path@),
                ) == p.root_hash@
                &&& exists|i: int|
                    #![trigger self.roots@[i]]
                    {
                        &&& 0 <= i < self.roots@.len()
                        &&& (*self.roots@[i]).keys_spec().contains(str_bytes(key@))
                        &&& p.root_hash@ == (*self.roots@[i]).hash_spec()
                        &&& path_view(p.path@) == (*self.roots@[i]).path_of(str_bytes(key@))
                        &&& p.path@.len() == (*self.roots@[i]).level_spec()
                        &&& (r.accumulator matches Some(a) ==> a == (*self.roots@[i]).acc_spec(
                            self.pp,
                        ) && (r.membership_witness matches Some(w) ==> (key_scalar(
                            str_bytes(key@),
                        ) != self.secret.val() ==> exists|iv: nat|
                            iv < crate::scalar::fr_modulus() && crate::poly::mul_mod(
                                iv,
                                crate::poly::sub_mod(self.secret.val(), key_scalar(str_bytes(key@))),
                            ) == 1 && w == crate::group::g1_mul_of(a, iv)) && (key_scalar(
                            str_bytes(key@),
                        ) == self.secret.val() ==> w == a)))
                    }
            },
            !self.has_live(str_bytes(key@)) ==> r.proof is None && r.root_hash is None
                && r.accumulator is None && r.membership_witness is None,
            r.nonmembership matches Some(p) ==> {
                &&& str_bytes(p.key@) == str_bytes(key@)
                &&& p.acc_proof.element.wf()
                &&& p.acc_proof.element.val() == key_scalar(str_bytes(key@))
                &&& p.accumulator == commit_of_set(self.pp, self.live_keys())
            },
    {
        let ghost kb = str_bytes(key@);
        let idx = match self.find_live(key) {
            Some(i) => i,
            None => {
                let nm = match self.select_nonmembership_proof(key) {
                    Ok(o) => o,
                    Err(_) => None,
                };
                return QueryResponse::new(None, None, None, None, None, nm);
            },
        };
        let mut path: Vec<(Vec<u8>, bool)> = Vec::new();
        let got = self.roots[idx].recurse_select_with_proof(key, &mut path);
        let fids = match got {
            Some(fs) => fs,
            None => {
                proof {
                    assert(false);
                }
                return QueryResponse::new(None, None, None, None, None, None);
            },
        };
        proof {
            lemma_seq_fids_at(self.roots@, kb, idx as int);
            assert(path_view(path@).skip(0) =~= path_view(path@));
            assert(path_view(path@).take(0) =~= Seq::<(Seq<u8>, bool)>::empty());
        }
        let leaf_h = crate::hashes::leaf_hash(key, &fids, 0, false);
        let root_h = self.roots[idx].hash();
        let proof_obj = Proof::new(crate::bytestr::bytes_clone(&root_h), leaf_h, path);
        let acc_val = self.roots[idx].acc(&self.pp);
        let elem = crate::proofs::key_to_scalar(key);
        let holder = DynamicAccumulator { acc_value: g1_clone(&acc_val) };
        let acc_witness = match holder.compute_membership_witness(&self.secret, &elem) {
            Ok(w) => w,
            Err(_) => g1_clone(&acc_val),
        };
        proof {
            crate::keyset::lemma_keyset_canonical(fids);
            assert((*self.roots@[idx as int]).keys_spec().contains(kb));
            assert(path_view(proof_obj.path@) == (*self.roots@[idx as int]).path_of(kb));
            assert(proof_obj.path@.len() == (*self.roots@[idx as int]).level_spec());
            assert(proof_obj.root_hash@ == (*self.roots@[idx as int]).hash_spec());
            assert(acc_val == (*self.roots@[idx as int]).acc_spec(self.pp));
            if key_scalar(kb) != self.secret.val() {
                assert(exists|iv: nat|
                    iv < crate::scalar::fr_modulus() && crate::poly::mul_mod(
                        iv,
                        crate::poly::sub_mod(self.secret.val(), key_scalar(kb)),
                    ) == 1 && acc_witness == crate::group::g1_mul_of(acc_val, iv));
            } else {
                assert(acc_witness == acc_val);
            }
        }
        QueryResponse::new(
            Some(fids),
            Some(proof_obj),
            Some(root_h),
            Some(acc_val),
            Some(acc_witness),
            None,
        )
    }

    /// Insert with its evidence: the pre-state roots, a pre-state
    /// non-membership response where the key was absent, and the post-state
    /// lookup evidence for the key. The forest changes exactly as `insert`
    /// changes it.
    pub fn insert_with_proof(&mut self, key: String, fid: String) -> (r: Result<
        InsertResponse,
        Error,
    >)
        requires
            old(self).wf(),
        ensures
            final(self).wf(),
            final(self).pp == old(self).pp,
            final(self).secret == old(self).secret,
            r is Ok <==> (old(self).has_live(str_bytes(key@)) || old(self).has_tomb(
                str_bytes(key@),
            ) || old(self).roots@.len() < usize::MAX - 1),
            r is Ok ==> {
                &&& final(self).has_live(str_bytes(key@))
                &&& !final(self).has_tomb(str_bytes(key@))
                &&& final(self).fids(str_bytes(key@)) == if old(self).has_live(str_bytes(key@)) {
                    old(self).fids(str_bytes(key@)).insert(str_bytes(fid@))
                } else {
                    Set::<Seq<u8>>::empty().insert(str_bytes(fid@))
                }
                &&& forall|k2: Seq<u8>|
                    k2 != str_bytes(key@) ==> final(self).has_live(k2) == old(self).has_live(k2)
                        && final(self).has_tomb(k2) == old(self).has_tomb(k2) && final(self).fids(
                        k2,
                    ) == old(self).fids(k2)
            },
            r matches Ok(resp) ==> str_bytes(resp.key@) == str_bytes(key@) && resp.fids.wf()
                && resp.fids@ == final(self).fids(str_bytes(key@)),
            r matches Ok(resp) ==> resp.post_proof is Some && resp.post_root_hash is Some
                && resp.post_accumulator is Some && resp.post_membership_witness is Some,
    {
        let ghost kb = str_bytes(key@);
        let mut pre_roots: Vec<(Vec<u8>, G1Point)> = Vec::new();
        let n = self.roots.len();
        let mut i: usize = 0;
        while i < n
            invariant
                self.wf(),
                n == self.roots@.len(),
                i <= n,
            decreases n - i,
        {
            let h = self.roots[i].hash();
            let a = self.roots[i].acc(&self.pp);
            pre_roots.push((h, a));
            i += 1;
        }
        let pre_nonmembership = match self.select_nonmembership_proof(key.as_str()) {
            Ok(o) => o,
            Err(_) => None,
        };
        match self.insert(self_clone_string(&key), self_clone_string(&fid)) {
            Ok(()) => {},
            Err(e) => {
                return Err(e);
            },
        }
        let qr = self.select_with_proof(key.as_str());
        let fids = match qr.fids {
            Some(fs) => fs,
            None => {
                proof {
                    assert(false);
                }
                KeySet::new()
            },
        };
        Ok(
            InsertResponse {
                key,
                fids,
                pre_roots,
                post_root_hash: qr.root_hash,
                post_accumulator: qr.accumulator,
                post_proof: qr.proof,
                post_membership_witness: qr.membership_witness,
                pre_nonmembership,
            },
        )
    }

    /// Update with its evidence: the pre and post lookup evidence for the
    /// key, whose sibling paths agree since the shape does not move. The
    /// forest changes exactly as `update` changes it.
    pub fn update_with_proof(&mut self, key: &str, old_fid: &str, new_fid: String) -> (r: Result<
        UpdateResponse,
        Error,
    >)
        requires
            old(self).wf(),
        ensures
            final(self).wf(),
            final(self).pp == old(self).pp,
            final(self).secret == old(self).secret,
            r is Ok <==> (old(self).has_live(str_bytes(key@)) && old(self).fids(
                str_bytes(key@),
            ).contains(str_bytes(old_fid@))),
            r matches Err(e) ==> final(self).roots@ == old(self).roots@,
            r is Ok ==> {
                &&& final(self).fids(str_bytes(key@)) == old(self).fids(str_bytes(key@)).remove(
                    str_bytes(old_fid@),
                ).insert(str_bytes(new_fid@))
                &&& forall|k2: Seq<u8>|
                    final(self).has_live(k2) == old(self).has_live(k2) && final(self).has_tomb(k2)
                        == old(self).has_tomb(k2)
                &&& forall|k2: Seq<u8>|
                    k2 != str_bytes(key@) ==> final(self).fids(k2) == old(self).fids(k2)
            },
            r matches Ok(resp) ==> {
                &&& str_bytes(resp.key@) == str_bytes(key@)
                &&& resp.old_fids matches Some(o) && o.wf() && o@ == old(self).fids(
                    str_bytes(key@),
                )
                &&& resp.new_fids.wf() && resp.new_fids@ == final(self).fids(str_bytes(key@))
            },
            r matches Ok(resp) ==> {
                &&& resp.pre_proof is Some && resp.pre_root_hash is Some
                    && resp.pre_accumulator is Some && resp.pre_membership_witness is Some
                &&& (resp.pre_proof matches Some(p) ==> path_view(p.path@) == path_view(
                    resp.post_proof.path@,
                ) && merkle_fold(
                    leaf_hash_of(
                        str_bytes(key@),
                        canon_seq(old(self).fids(str_bytes(key@))),
                        0,
                        false,
                    ),
                    path_view(p.path@),
                ) == p.root_hash@)
                &&& (resp.pre_accumulator matches Some(a) ==> a == resp.post_accumulator)
                &&& merkle_fold(
                    leaf_hash_of(
                        str_bytes(key@),
                        canon_seq(final(self).fids(str_bytes(key@))),
                        0,
                        false,
                    ),
                    path_view(resp.post_proof.path@),
                ) == resp.post_proof.root_hash@
            },
    {
        let ghost kb = str_bytes(key@);
        let pre_qr = self.select_with_proof(key);
        let old_fids = match pre_qr.fids {
            Some(fs) => fs,
            None => {
                return Err(Error::KeyNotPresent);
            },
        };
        match self.update(key, old_fid, new_fid.clone()) {
            Ok(()) => {},
            Err(e) => {
                return Err(e);
            },
        }
        let post_qr = self.select_with_proof(key);
        let (new_fids, post_proof, post_acc, post_witness, post_root_hash) = match (post_qr.fids,
        post_qr.proof, post_qr.accumulator, post_qr.membership_witness, post_qr.root_hash) {
            (Some(a), Some(b), Some(c), Some(d), Some(e)) => (a, b, c, d, e),
            _ => {
                proof {
                    assert(false);
                }
                return Err(Error::KeyNotPresent);
            },
        };
        proof {
            let preroots = old(self).roots@;
            let postroots = self.roots@;
            let idx = choose|idx: int|
                #![trigger old(self).roots@[idx]]
                {
                    &&& 0 <= idx < old(self).roots@.len()
                    &&& (*old(self).roots@[idx]).keys_spec().contains(kb)
                    &&& (*self.roots@[idx]).keys_spec().contains(kb)
                    &&& (forall|j: int|
                        0 <= j < old(self).roots@.len() && j != idx ==> self.roots@[j] == old(
                            self,
                        ).roots@[j])
                    &&& (*self.roots@[idx]).same_accs(*old(self).roots@[idx])
                    &&& (*self.roots@[idx]).path_of(kb) == (*old(self).roots@[idx]).path_of(kb)
                    &&& (*self.roots@[idx]).acc_spec(old(self).pp) == (*old(self).roots@[idx]).acc_spec(
                        old(self).pp,
                    )
                };
            let pp = pre_qr.proof.unwrap();
            let ip = choose|i: int|
                #![trigger preroots[i]]
                {
                    &&& 0 <= i < preroots.len()
                    &&& (*preroots[i]).keys_spec().contains(kb)
                    &&& pp.root_hash@ == (*preroots[i]).hash_spec()
                    &&& path_view(pp.path@) == (*preroots[i]).path_of(kb)
                    &&& pp.path@.len() == (*preroots[i]).level_spec()
                    &&& (pre_qr.accumulator matches Some(a) ==> a == (*preroots[i]).acc_spec(
                        old(self).pp,
                    ) && (pre_qr.membership_witness matches Some(w) ==> (key_scalar(kb) != old(
                        self,
                    ).secret.val() ==> exists|iv: nat|
                        iv < crate::scalar::fr_modulus() && crate::poly::mul_mod(
                            iv,
                            crate::poly::sub_mod(old(self).secret.val(), key_scalar(kb)),
                        ) == 1 && w == crate::group::g1_mul_of(a, iv)) && (key_scalar(kb) == old(
                        self,
                    ).secret.val() ==> w == a)))
                };
            lemma_seq_live_unique(preroots, kb, ip, idx);
            let jp = choose|i: int|
                #![trigger postroots[i]]
                {
                    &&& 0 <= i < postroots.len()
                    &&& (*postroots[i]).keys_spec().contains(kb)
                    &&& post_proof.root_hash@ == (*postroots[i]).hash_spec()
                    &&& path_view(post_proof.path@) == (*postroots[i]).path_of(kb)
                    &&& post_proof.path@.len() == (*postroots[i]).level_spec()
                    &&& (post_qr.accumulator matches Some(a) ==> a == (*postroots[i]).acc_spec(
                        self.pp,
                    ) && (post_qr.membership_witness matches Some(w) ==> (key_scalar(kb)
                        != self.secret.val() ==> exists|iv: nat|
                        iv < crate::scalar::fr_modulus() && crate::poly::mul_mod(
                            iv,
                            crate::poly::sub_mod(self.secret.val(), key_scalar(kb)),
                        ) == 1 && w == crate::group::g1_mul_of(a, iv)) && (key_scalar(kb)
                        == self.secret.val() ==> w == a)))
                };
            assert(jp == idx) by {
                if jp != idx {
                    assert(postroots[jp] == preroots[jp]);
                    lemma_seq_live_unique(preroots, kb, jp, idx);
                }
            }
            assert(path_view(pp.path@) == path_view(post_proof.path@));
            assert(post_acc == (*postroots[idx]).acc_spec(self.pp));
            assert((pre_qr.accumulator matches Some(a) ==> a == post_acc));
        }
        Ok(
            UpdateResponse {
                key: String::from_str(key),
                old_fid: String::from_str(old_fid),
                new_fid,
                old_fids: Some(old_fids),
                new_fids,
                pre_proof: pre_qr.proof,
                pre_accumulator: pre_qr.accumulator,
                pre_membership_witness: pre_qr.membership_witness,
                post_proof,
                post_accumulator: post_acc,
                post_membership_witness: post_witness,
                pre_root_hash: pre_qr.root_hash,
                post_root_hash,
            },
        )
    }

    /// The index of the tree holding the key in any state, if any.
    fn find_any(&self, key: &str) -> (r: Option<usize>)
        requires
            self.wf(),
        ensures
            r matches Some(i) ==> i < self.roots@.len() && (*self.roots@[i as int]).all_keys_spec()
                .contains(str_bytes(key@)),
            r is None ==> forall|i: int|
                0 <= i < self.roots@.len() ==> !(*self.roots@[i]).all_keys_spec().contains(
                    str_bytes(key@),
                ),
    {
        let n = self.roots.len();
        for i in 0..n
            invariant
                n == self.roots@.len(),
                self.wf(),
                forall|j: int|
                    0 <= j < i ==> !(*self.roots@[j]).all_keys_spec().contains(str_bytes(key@)),
        {
            let hit = self.roots[i].has_key(key) || self.roots[i].has_tombstone(key);
            if hit {
                proof {
                    (*self.roots@[i as int]).lemma_keys_sub_all(str_bytes(key@));
                    (*self.roots@[i as int]).lemma_tomb_sub_all(str_bytes(key@));
                }
                return Some(i);
            }
            proof {
                (*self.roots@[i as int]).lemma_all_keys_split(str_bytes(key@));
            }
        }
        None
    }

    /// Delete with its evidence: the pre-state lookup evidence and a
    /// post-state path to the leaf — the canonical empty leaf once the key
    /// is tombstoned. The forest changes exactly as `delete` changes it.
    #[verifier::rlimit(100)]
    #[verifier::spinoff_prover]
    pub fn delete_with_proof(&mut self, key: &str, fid: &str) -> (r: Result<DeleteResponse, Error>)
        requires
            old(self).wf(),
        ensures
            final(self).wf(),
            final(self).pp == old(self).pp,
            final(self).secret == old(self).secret,
            r is Ok <==> (old(self).has_live(str_bytes(key@)) && old(self).fids(
                str_bytes(key@),
            ).contains(str_bytes(fid@)) && key_scalar(str_bytes(key@)) != old(self).secret.val()),
            r is Ok ==> {
                &&& final(self).fids(str_bytes(key@)) == if old(self).fids(str_bytes(key@)) == Set::<
                    Seq<u8>,
                >::empty().insert(str_bytes(fid@)) {
                    Set::<Seq<u8>>::empty()
                } else {
                    old(self).fids(str_bytes(key@)).remove(str_bytes(fid@))
                }
                &&& forall|k2: Seq<u8>|
                    k2 != str_bytes(key@) ==> final(self).has_live(k2) == old(self).has_live(k2)
                        && final(self).has_tomb(k2) == old(self).has_tomb(k2) && final(self).fids(
                        k2,
                    ) == old(self).fids(k2)
            },
            r matches Ok(resp) ==> {
                &&& str_bytes(resp.key@) == str_bytes(key@)
                &&& resp.old_fids matches Some(o) && o.wf() && o@ == old(self).fids(
                    str_bytes(key@),
                )
                &&& resp.new_fids.wf() && resp.new_fids@ == final(self).fids(str_bytes(key@))
            },
            r matches Ok(resp) ==> {
                &&& resp.pre_proof is Some && resp.pre_root_hash is Some
                    && resp.pre_accumulator is Some && resp.pre_membership_witness is Some
                &&& (resp.pre_proof matches Some(p) ==> path_view(p.path@) == path_view(
                    resp.post_proof.path@,
                ) && merkle_fold(
                    leaf_hash_of(
                        str_bytes(key@),
                        canon_seq(old(self).fids(str_bytes(key@))),
                        0,
                        false,
                    ),
                    path_view(p.path@),
                ) == p.root_hash@)
                &&& (final(self).has_tomb(str_bytes(key@)) ==> merkle_fold(
                    crate::hashes::empty_hash_of(),
                    path_view(resp.post_proof.path@),
                ) == resp.post_proof.root_hash@ && resp.post_proof.leaf_hash@
                    == crate::hashes::empty_hash_of())
                &&& (final(self).has_live(str_bytes(key@)) ==> merkle_fold(
                    leaf_hash_of(
                        str_bytes(key@),
                        canon_seq(final(self).fids(str_bytes(key@))),
                        0,
                        false,
                    ),
                    path_view(resp.post_proof.path@),
                ) == resp.post_proof.root_hash@)
            },
    {
        let ghost kb = str_bytes(key@);
        let pre_qr = self.select_with_proof(key);
        let old_fids = match pre_qr.fids {
            Some(fs) => fs,
            None => {
                return Err(Error::KeyNotPresent);
            },
        };
        match self.delete(key, fid) {
            Ok(()) => {},
            Err(e) => {
                return Err(e);
            },
        }
        let new_fids = match self.select(key) {
            Some(fs) => fs,
            None => KeySet::new(),
        };
        let ghost gidx = choose|idx: int|
            #![trigger old(self).roots@[idx]]
            {
                &&& 0 <= idx < old(self).roots@.len()
                &&& (*old(self).roots@[idx]).keys_spec().contains(kb)
                &&& (*self.roots@[idx]).all_keys_spec().contains(kb)
                &&& (forall|j: int|
                    0 <= j < old(self).roots@.len() && j != idx ==> self.roots@[j] == old(
                        self,
                    ).roots@[j])
                &&& (*self.roots@[idx]).path_of(kb) == (*old(self).roots@[idx]).path_of(kb)
            };
        let i = match self.find_any(key) {
            Some(i) => i,
            None => {
                proof {
                    assert(false);
                }
                return Err(Error::KeyNotPresent);
            },
        };
        proof {
            lemma_seq_all_unique(self.roots@, kb, i as int, gidx);
        }
        let mut path: Vec<(Vec<u8>, bool)> = Vec::new();
        let got = self.roots[i].recurse_select_proof_including_deleted(key, &mut path);
        if got.is_none() {
            proof {
                assert(false);
            }
            return Err(Error::KeyNotPresent);
        }
        let root_h = self.roots[i].hash();
        let still_live = self.roots[i].has_key(key);
        proof {
            let preroots = old(self).roots@;
            let postroots = self.roots@;
            assert(path_view(path@).skip(0) =~= path_view(path@));
            assert(path_view(path@).take(0) =~= Seq::<(Seq<u8>, bool)>::empty());
            assert(path_view(path@) == (*postroots[i as int]).path_of(kb));
            let pp = pre_qr.proof.unwrap();
            let ip = choose|w: int|
                #![trigger preroots[w]]
                {
                    &&& 0 <= w < preroots.len()
                    &&& (*preroots[w]).keys_spec().contains(kb)
                    &&& pp.root_hash@ == (*preroots[w]).hash_spec()
                    &&& path_view(pp.path@) == (*preroots[w]).path_of(kb)
                    &&& pp.path@.len() == (*preroots[w]).level_spec()
                    &&& (pre_qr.accumulator matches Some(a) ==> a == (*preroots[w]).acc_spec(
                        old(self).pp,
                    ) && (pre_qr.membership_witness matches Some(wi) ==> (key_scalar(kb) != old(
                        self,
                    ).secret.val() ==> exists|iv: nat|
                        iv < crate::scalar::fr_modulus() && crate::poly::mul_mod(
                            iv,
                            crate::poly::sub_mod(old(self).secret.val(), key_scalar(kb)),
                        ) == 1 && wi == crate::group::g1_mul_of(a, iv)) && (key_scalar(kb) == old(
                        self,
                    ).secret.val() ==> wi == a)))
                };
            lemma_seq_live_unique(preroots, kb, ip, gidx);
            assert(path_view(pp.path@) == path_view(path@));
            if seq_has_tomb(postroots, kb) {
                let w = choose|w: int|
                    0 <= w < postroots.len() && (*postroots[w]).has_tomb_spec(kb);
                (*postroots[w]).lemma_tomb_sub_all(kb);
                lemma_seq_all_unique(postroots, kb, w, i as int);
                assert((*postroots[i as int]).has_tomb_spec(kb));
            }
            if seq_has_live(postroots, kb) {
                let w = choose|w: int|
                    0 <= w < postroots.len() && (*postroots[w]).keys_spec().contains(kb);
                (*postroots[w]).lemma_keys_sub_all(kb);
                lemma_seq_all_unique(postroots, kb, w, i as int);
                assert((*postroots[i as int]).keys_spec().contains(kb));
                lemma_seq_fids_at(postroots, kb, i as int);
            }
            (*postroots[i as int]).lemma_live_not_tomb(kb);
        }
        let leaf_h = if still_live {
            crate::hashes::leaf_hash(key, &new_fids, 0, false)
        } else {
            crate::hashes::empty_hash()
        };
        proof {
            crate::keyset::lemma_keyset_canonical(new_fids);
        }
        let post_proof = Proof::new(crate::bytestr::bytes_clone(&root_h), leaf_h, path);
        let post_acc = self.roots[i].acc(&self.pp);
        Ok(
            DeleteResponse {
                key: String::from_str(key),
                deleted_fid: String::from_str(fid),
                old_fids: Some(old_fids),
                new_fids,
                pre_proof: pre_qr.proof,
                pre_accumulator: pre_qr.accumulator,
                pre_membership_witness: pre_qr.membership_witness,
                post_proof,
                post_accumulator: post_acc,
                pre_root_hash: pre_qr.root_hash,
                post_root_hash: root_h,
            },
        )
    }

    /// Merge two trees as insertion does; a test seam.
    pub fn test_merge_nodes(&self, left: Box<Node>, right: Box<Node>) -> (r: Box<Node>)
        requires
            self.wf(),
            (*left).wf(),
            (*right).wf(),
            (*left).level_spec() == (*right).level_spec(),
            (*left).level_spec() < usize::MAX - 1,
            (*left).all_keys_spec().disjoint((*right).all_keys_spec()),
        ensures
            (*r).wf(),
            (*r).level_spec() == (*left).level_spec() + 1,
            (*r).keys_spec() == (*left).keys_spec().union((*right).keys_spec()),
    {
        Node::merge(&self.pp, &self.secret, left, right)
    }

    /// Remove one identifier from a subtree as deletion does; a test seam.
    pub fn test_delete_recursive(&self, node: Box<Node>, key: &str, fid: &str) -> (r: Box<Node>)
        requires
            self.wf(),
            (*node).wf(),
            key_scalar(str_bytes(key@)) != self.secret.val(),
        ensures
            (*r).wf(),
            (*r).level_spec() == (*node).level_spec(),
    {
        let (n, _, _) = node.delete_fid(&self.secret, key, fid);
        n
    }

    /// Replace one identifier in a subtree as update does; a test seam.
    pub fn test_update_recursive(&self, node: Box<Node>, key: &str, old_fid: &str, new_fid: String) -> (r:
        Box<Node>)
        requires
            self.wf(),
            (*node).wf(),
        ensures
            (*r).wf(),
            (*r).level_spec() == (*node).level_spec(),
    {
        let (n, _) = node.update_fid(key, old_fid, new_fid);
        n
    }

    /// Revive a tombstoned key in a subtree as insertion does; a test seam.
    pub fn test_revive_recursive(&self, node: Box<Node>, key: &str, fid: &str) -> (r: Box<Node>)
        requires
            self.wf(),
            (*node).wf(),
            (*node).has_tomb_spec(str_bytes(key@)),
        ensures
            (*r).wf(),
            (*r).level_spec() == (*node).level_spec(),
            (*r).fids_of(str_bytes(key@)) == Set::<Seq<u8>>::empty().insert(str_bytes(fid@)),
    {
        node.revive(&self.secret, key, fid)
    }

    /// Whether the forest's front tree sits at the same level as `cur`.
    fn front_level_matches(&self, cur: &Box<Node>) -> (r: bool)
        ensures
            r == (self.roots@.len() > 0 && (*self.roots@[0]).level_spec() == (**cur).level_spec()),
    {
        self.roots.len() > 0 && self.roots[0].level() == cur.level()
    }

    /// Insert one fresh tree into the forest: cascade-merge it with the
    /// front tree while their levels collide, then put it at the front.
    /// The inserted tree's level must not sit above the front tree's.
    fn insert_root(&mut self, node: Box<Node>)
        requires
            old(self).wf(),
            (*node).wf(),
            forall|i: int|
                0 <= i < old(self).roots@.len() ==> (*node).all_keys_spec().disjoint(
                    #[trigger] (*old(self).roots@[i]).all_keys_spec(),
                ),
            old(self).roots@.len() > 0 ==> (*node).level_spec() <= (*old(self).roots@[0]).level_spec(),
            (*node).level_spec() + old(self).roots@.len() < usize::MAX - 1,
        ensures
            final(self).wf(),
            final(self).pp == old(self).pp,
            final(self).secret == old(self).secret,
            forall|k2: Seq<u8>|
                final(self).has_live(k2) == (old(self).has_live(k2) || (*node).keys_spec().contains(
                    k2,
                )),
            forall|k2: Seq<u8>|
                final(self).has_tomb(k2) == (old(self).has_tomb(k2) || (*node).has_tomb_spec(k2)),
            forall|k2: Seq<u8>|
                #![trigger final(self).fids(k2)]
                final(self).fids(k2) == if (*node).keys_spec().contains(k2) {
                    (*node).fids_of(k2)
                } else {
                    old(self).fids(k2)
                },
    {
        let ghost orig = self.roots@;
        let ghost gnode = *node;
        proof {
            assert(orig == old(self).roots@);
        }
        let mut cur = node;
        let mut consumed: usize = 0;
        while self.front_level_matches(&cur)
            invariant
                orig == old(self).roots@,
                gnode.level_spec() + orig.len() < usize::MAX - 1,
                self.pp == old(self).pp,
                self.secret == old(self).secret,
                self.pp.wf(),
                self.secret.wf(),
                seq_all_wf(self.roots@),
                seq_levels_inc(self.roots@),
                seq_disjoint(self.roots@),
                (*cur).wf(),
                consumed <= orig.len(),
                self.roots@.len() == orig.len() - consumed,
                forall|i: int| 0 <= i < self.roots@.len() ==> self.roots@[i] == orig[i + consumed],
                (*cur).level_spec() <= gnode.level_spec() + consumed,
                self.roots@.len() > 0 ==> (*cur).level_spec() <= (*self.roots@[0]).level_spec(),
                forall|i: int|
                    0 <= i < self.roots@.len() ==> (*cur).all_keys_spec().disjoint(
                        #[trigger] (*self.roots@[i]).all_keys_spec(),
                    ),
                forall|k2: Seq<u8>|
                    #![trigger (*cur).keys_spec().contains(k2)]
                    ((*cur).keys_spec().contains(k2) || seq_has_live(self.roots@, k2)) == (
                    gnode.keys_spec().contains(k2) || seq_has_live(orig, k2)),
                forall|k2: Seq<u8>|
                    #![trigger (*cur).has_tomb_spec(k2)]
                    ((*cur).has_tomb_spec(k2) || seq_has_tomb(self.roots@, k2)) == (
                    gnode.has_tomb_spec(k2) || seq_has_tomb(orig, k2)),
                forall|k2: Seq<u8>|
                    #![all_triggers]
                    ((if (*cur).keys_spec().contains(k2) {
                        (*cur).fids_of(k2)
                    } else {
                        seq_fids(self.roots@, k2)
                    }) == (if gnode.keys_spec().contains(k2) {
                        gnode.fids_of(k2)
                    } else {
                        seq_fids(orig, k2)
                    })),
            decreases self.roots@.len(),
        {
            let ghost pre = self.roots@;
            let ghost precur = *cur;
            let first = self.roots.remove(0);
            let ghost gfirst = *first;
            proof {
                assert(self.roots@ =~= pre.skip(1));
                assert(gfirst == *pre[0]);
                assert(consumed == orig.len() - pre.len());
                assert(consumed < orig.len());
                assert((*cur).level_spec() <= gnode.level_spec() + consumed);
                assert(gnode.level_spec() + orig.len() < usize::MAX - 1);
                assert((*cur).level_spec() < usize::MAX - 1);
                assert(precur.all_keys_spec().disjoint((*pre[0]).all_keys_spec()));
            }
            let merged = Node::merge(&self.pp, &self.secret, first, cur);
            cur = merged;
            proof {
                assert(consumed < orig.len() <= usize::MAX);
            }
            consumed = consumed + 1;
            proof {
                let post = self.roots@;
                assert forall|i: int|
                    0 <= i < post.len() implies (*cur).all_keys_spec().disjoint(
                    #[trigger] (*post[i]).all_keys_spec(),
                ) by {
                    assert(post[i] == pre[i + 1]);
                    assert(precur.all_keys_spec().disjoint((*pre[i + 1]).all_keys_spec()));
                    assert(gfirst.all_keys_spec().disjoint((*pre[i + 1]).all_keys_spec()));
                    assert forall|e: Seq<u8>| (*cur).all_keys_spec().contains(e) implies !(
                    *post[i]).all_keys_spec().contains(e) by {
                        assert(gfirst.all_keys_spec().contains(e) || precur.all_keys_spec()
                            .contains(e));
                    }
                }
                assert forall|k2: Seq<u8>|
                    #![trigger (*cur).keys_spec().contains(k2)]
                    ((*cur).keys_spec().contains(k2) || seq_has_live(post, k2)) == (gnode.keys_spec().contains(k2) || seq_has_live(orig, k2)) by {
                    assert(precur.keys_spec().contains(k2) == precur.keys_spec().contains(k2));
                    assert((*cur).keys_spec() == gfirst.keys_spec().union(precur.keys_spec()));
                    assert(seq_has_live(pre, k2) == ((*pre[0]).keys_spec().contains(k2)
                        || seq_has_live(post, k2))) by {
                        if seq_has_live(pre, k2) {
                            let w = choose|w: int|
                                0 <= w < pre.len() && (*pre[w]).keys_spec().contains(k2);
                            if w > 0 {
                                assert((*post[w - 1]).keys_spec().contains(k2));
                            }
                        }
                        if seq_has_live(post, k2) {
                            let w = choose|w: int|
                                0 <= w < post.len() && (*post[w]).keys_spec().contains(k2);
                            assert((*pre[w + 1]).keys_spec().contains(k2));
                        }
                    }
                }
                assert forall|k2: Seq<u8>|
                    #![trigger (*cur).has_tomb_spec(k2)]
                    ((*cur).has_tomb_spec(k2) || seq_has_tomb(post, k2)) == (gnode.has_tomb_spec(k2) || seq_has_tomb(orig, k2)) by {
                    assert(precur.has_tomb_spec(k2) == precur.has_tomb_spec(k2));
                    assert((*cur).has_tomb_spec(k2) == (gfirst.has_tomb_spec(k2)
                        || precur.has_tomb_spec(k2)));
                    assert(seq_has_tomb(pre, k2) == ((*pre[0]).has_tomb_spec(k2) || seq_has_tomb(
                        post,
                        k2,
                    ))) by {
                        if seq_has_tomb(pre, k2) {
                            let w = choose|w: int|
                                0 <= w < pre.len() && (*pre[w]).has_tomb_spec(k2);
                            if w > 0 {
                                assert((*post[w - 1]).has_tomb_spec(k2));
                            }
                        }
                        if seq_has_tomb(post, k2) {
                            let w = choose|w: int|
                                0 <= w < post.len() && (*post[w]).has_tomb_spec(k2);
                            assert((*pre[w + 1]).has_tomb_spec(k2));
                        }
                    }
                }
                assert forall|k2: Seq<u8>|
                    #![all_triggers]
                    ((if (*cur).keys_spec().contains(k2) {
                        (*cur).fids_of(k2)
                    } else {
                        seq_fids(self.roots@, k2)
                    }) == (if gnode.keys_spec().contains(k2) {
                        gnode.fids_of(k2)
                    } else {
                        seq_fids(orig, k2)
                    })) by {
                    assert(precur.fids_of(k2) == precur.fids_of(k2));
                    assert(precur.keys_spec().contains(k2) == precur.keys_spec().contains(k2));
                    assert(seq_fids(pre, k2) == seq_fids(pre, k2));
                    assert((*cur).keys_spec() == gfirst.keys_spec().union(precur.keys_spec()));
                    assert((*cur).fids_of(k2) == if gfirst.keys_spec().contains(k2) {
                        gfirst.fids_of(k2)
                    } else {
                        precur.fids_of(k2)
                    });
                    if (*cur).keys_spec().contains(k2) {
                        if gfirst.keys_spec().contains(k2) {
                            lemma_seq_fids_at(pre, k2, 0);
                            precur.lemma_keys_sub_all(k2);
                            gfirst.lemma_keys_sub_all(k2);
                            assert(precur.all_keys_spec().disjoint(gfirst.all_keys_spec()));
                            assert(!precur.keys_spec().contains(k2));
                        } else {
                            assert(precur.keys_spec().contains(k2));
                        }
                    } else {
                        assert(!precur.keys_spec().contains(k2));
                        assert(!gfirst.keys_spec().contains(k2));
                        assert(seq_fids(self.roots@, k2) == seq_fids(pre, k2)) by {
                            if seq_has_live(self.roots@, k2) {
                                let w = choose|w: int|
                                    0 <= w < self.roots@.len() && (*self.roots@[w]).keys_spec().contains(k2);
                                assert((*pre[w + 1]).keys_spec().contains(k2));
                                lemma_seq_fids_at(pre, k2, w + 1);
                                lemma_seq_fids_at(self.roots@, k2, w);
                            } else if seq_has_live(pre, k2) {
                                let w = choose|w: int|
                                    0 <= w < pre.len() && (*pre[w]).keys_spec().contains(k2);
                                assert(w > 0);
                                assert((*self.roots@[w - 1]).keys_spec().contains(k2));
                            }
                        }
                    }
                }
            }
        }
        let ghost pre = self.roots@;
        let ghost gcur = *cur;
        self.roots.insert(0, cur);
        proof {
            let post = self.roots@;
            assert(*post[0] == gcur);
            assert(forall|i: int| 1 <= i < post.len() ==> post[i] == pre[i - 1]);
            assert forall|k2: Seq<u8>|
                #![all_triggers]
                final(self).has_live(k2) == (old(self).has_live(k2) || gnode.keys_spec().contains(
                k2)) by {
                assert(gcur.keys_spec().contains(k2) == gcur.keys_spec().contains(k2));
                assert(seq_has_live(post, k2) == (gcur.keys_spec().contains(k2) || seq_has_live(
                    pre,
                    k2,
                ))) by {
                    if seq_has_live(post, k2) {
                        let w = choose|w: int|
                            0 <= w < post.len() && (*post[w]).keys_spec().contains(k2);
                        if w > 0 {
                            assert((*pre[w - 1]).keys_spec().contains(k2));
                        }
                    }
                    if seq_has_live(pre, k2) {
                        let w = choose|w: int|
                            0 <= w < pre.len() && (*pre[w]).keys_spec().contains(k2);
                        assert((*post[w + 1]).keys_spec().contains(k2));
                    }
                }
            }
            assert forall|k2: Seq<u8>|
                #![all_triggers]
                final(self).has_tomb(k2) == (old(self).has_tomb(k2) || gnode.has_tomb_spec(
                k2)) by {
                assert(gcur.has_tomb_spec(k2) == gcur.has_tomb_spec(k2));
                assert(seq_has_tomb(post, k2) == (gcur.has_tomb_spec(k2) || seq_has_tomb(
                    pre,
                    k2,
                ))) by {
                    if seq_has_tomb(post, k2) {
                        let w = choose|w: int|
                            0 <= w < post.len() && (*post[w]).has_tomb_spec(k2);
                        if w > 0 {
                            assert((*pre[w - 1]).has_tomb_spec(k2));
                        }
                    }
                    if seq_has_tomb(pre, k2) {
                        let w = choose|w: int| 0 <= w < pre.len() && (*pre[w]).has_tomb_spec(k2);
                        assert((*post[w + 1]).has_tomb_spec(k2));
                    }
                }
            }
            assert forall|k2: Seq<u8>|
                #![all_triggers]
                final(self).fids(k2) == (if gnode.keys_spec().contains(k2) {
                    gnode.fids_of(k2)
                } else {
                    old(self).fids(k2)
                }) by {
                assert(gcur.fids_of(k2) == gcur.fids_of(k2));
                assert(gcur.keys_spec().contains(k2) == gcur.keys_spec().contains(k2));
                if gcur.keys_spec().contains(k2) {
                    lemma_seq_fids_at(post, k2, 0);
                } else {
                    assert(seq_fids(post, k2) == seq_fids(pre, k2)) by {
                        if seq_has_live(post, k2) {
                            let w = choose|w: int|
                                0 <= w < post.len() && (*post[w]).keys_spec().contains(k2);
                            assert(w > 0);
                            assert((*pre[w - 1]).keys_spec().contains(k2));
                            lemma_seq_fids_at(post, k2, w);
                            lemma_seq_fids_at(pre, k2, w - 1);
                        } else if seq_has_live(pre, k2) {
                            let w = choose|w: int|
                                0 <= w < pre.len() && (*pre[w]).keys_spec().contains(k2);
                            assert((*post[w + 1]).keys_spec().contains(k2));
                        }
                    }
                }
            }
        }
    }
}

} // verus!
