//! Combined responses: what the forest hands a verifier. Each response
//! couples a Merkle path with accumulator evidence; each `verify` function
//! states exactly the conjunction of checks it decides, and returns plain
//! false on any missing part.

use vstd::prelude::*;

use crate::accumulator::key_scalar;
use crate::group::{gt_mul_of, pairing_of, G1Point};
use crate::hashes::{empty_hash_of, leaf_hash_of};
use crate::keyset::{self_clone_keyset, str_bytes, KeySet};
use crate::merkle::{merkle_fold, path_view, self_clone_path, Proof};
use crate::params::PublicParameters;
use crate::proofs::{g1_s_minus, g2_s_minus, verify_membership};

verus! {

/// A non-membership response: the global accumulator of all live keys and a
/// Bezout witness pair showing the key absent from it.
#[derive(Debug)]
pub struct NonMembershipProof {
    /// The key claimed absent.
    pub key: String,
    /// The accumulator of every live key of the forest.
    pub accumulator: G1Point,
    /// The underlying pairing witnesses.
    pub acc_proof: crate::proofs::NonMembershipProof,
}

impl NonMembershipProof {
    /// Whether the stored key is the expected one and the pairing equation
    /// accepts the witnesses against the stored accumulator.
    pub fn verify(&self, pp: &PublicParameters, expected_key: &str) -> (r: bool)
        requires
            pp.wf(),
            self.acc_proof.element.wf(),
        ensures
            r == ({
                &&& str_bytes(self.key@) == str_bytes(expected_key@)
                &&& gt_mul_of(
                    pairing_of(self.accumulator, self.acc_proof.g2_a),
                    pairing_of(
                        g1_s_minus(*pp, self.acc_proof.element.val()),
                        self.acc_proof.witness,
                    ),
                ) == pairing_of(pp.g1, pp.g2)
            }),
    {
        let kb = self.key.as_str().as_bytes_vec();
        let eb = expected_key.as_bytes_vec();
        if !crate::bytestr::bytes_eq(&kb, &eb) {
            return false;
        }
        self.acc_proof.verify(pp, &self.accumulator)
    }
}

/// The answer to a lookup: the identifiers with a Merkle path and a
/// membership witness when the key is live, a non-membership response
/// otherwise.
#[derive(Debug)]
pub struct QueryResponse {
    pub fids: Option<KeySet>,
    pub proof: Option<Proof>,
    pub root_hash: Option<Vec<u8>>,
    pub accumulator: Option<G1Point>,
    pub membership_witness: Option<G1Point>,
    pub nonmembership: Option<NonMembershipProof>,
}

impl QueryResponse {
    pub fn new(
        fids: Option<KeySet>,
        proof: Option<Proof>,
        root_hash: Option<Vec<u8>>,
        accumulator: Option<G1Point>,
        membership_witness: Option<G1Point>,
        nonmembership: Option<NonMembershipProof>,
    ) -> (r: QueryResponse)
        ensures
            r.fids == fids,
            r.proof == proof,
            r.root_hash == root_hash,
            r.accumulator == accumulator,
            r.membership_witness == membership_witness,
            r.nonmembership == nonmembership,
    {
        QueryResponse { fids, proof, root_hash, accumulator, membership_witness, nonmembership }
    }

    /// Whether the Merkle path binds a live leaf holding exactly `key` and
    /// `fids` to the carried root hash, and the membership witness pairs
    /// against the carried accumulator for the key.
    pub fn verify_full(&self, pp: &PublicParameters, key: &str, fids: &KeySet) -> (r: bool)
        requires
            pp.wf(),
            fids.wf(),
        ensures
            r == ({
                &&& self.root_hash is Some
                &&& self.proof matches Some(p) && merkle_fold(
                    leaf_hash_of(str_bytes(key@), fids.byte_seq(), 0, false),
                    path_view(p.path@),
                ) == p.root_hash@
                &&& self.accumulator matches Some(acc) && self.membership_witness matches Some(w)
                    && pairing_of(w, g2_s_minus(*pp, key_scalar(str_bytes(key@)))) == pairing_of(
                    acc,
                    pp.g2,
                )
            }),
    {
        let merkle_ok = match (&self.root_hash, &self.proof) {
            (Some(_root), Some(p)) => p.verify_with_kv(key, fids),
            _ => false,
        };
        if !merkle_ok {
            return false;
        }
        match (&self.accumulator, &self.membership_witness) {
            (Some(acc), Some(witness)) => verify_membership(pp, acc, witness, key),
            _ => false,
        }
    }
}

/// The record of an insertion: the forest before it, in root hashes and
/// accumulators; evidence of prior absence where the key was fresh; and the
/// post-state lookup evidence for the inserted key.
#[derive(Debug)]
pub struct InsertResponse {
    pub key: String,
    pub fids: KeySet,
    pub pre_roots: Vec<(Vec<u8>, G1Point)>,
    pub post_root_hash: Option<Vec<u8>>,
    pub post_accumulator: Option<G1Point>,
    pub post_proof: Option<Proof>,
    pub post_membership_witness: Option<G1Point>,
    pub pre_nonmembership: Option<NonMembershipProof>,
}

impl InsertResponse {
    /// Whether the prior non-membership evidence (when present) accepts,
    /// the post-state Merkle path binds the inserted key and identifiers,
    /// and the post-state membership witness pairs against the post-state
    /// accumulator.
    pub fn verify_insert(&self, pp: &PublicParameters) -> (r: bool)
        requires
            pp.wf(),
            self.fids.wf(),
            self.pre_nonmembership matches Some(nm) ==> nm.acc_proof.element.wf(),
        ensures
            r == ({
                &&& (self.pre_nonmembership matches Some(nm) ==> {
                    &&& str_bytes(nm.key@) == str_bytes(self.key@)
                    &&& gt_mul_of(
                        pairing_of(nm.accumulator, nm.acc_proof.g2_a),
                        pairing_of(
                            g1_s_minus(*pp, nm.acc_proof.element.val()),
                            nm.acc_proof.witness,
                        ),
                    ) == pairing_of(pp.g1, pp.g2)
                })
                &&& self.post_proof matches Some(p) && merkle_fold(p.leaf_hash@, path_view(p.path@))
                    == p.root_hash@ && merkle_fold(
                    leaf_hash_of(str_bytes(self.key@), self.fids.byte_seq(), 0, false),
                    path_view(p.path@),
                ) == p.root_hash@
                &&& self.post_accumulator matches Some(acc) && self.post_membership_witness matches
                    Some(w) && pairing_of(w, g2_s_minus(*pp, key_scalar(str_bytes(self.key@))))
                    == pairing_of(acc, pp.g2)
            }),
    {
        if let Some(nm_proof) = &self.pre_nonmembership {
            if !nm_proof.verify(pp, self.key.as_str()) {
                return false;
            }
        }
        match &self.post_proof {
            Some(post_p) => {
                if !post_p.verify() {
                    return false;
                }
                if !post_p.verify_with_kv(self.key.as_str(), &self.fids) {
                    return false;
                }
            },
            None => {
                return false;
            },
        }
        match (&self.post_accumulator, &self.post_membership_witness) {
            (Some(acc), Some(w)) => verify_membership(pp, acc, w, self.key.as_str()),
            _ => false,
        }
    }
}

/// Whether two sibling paths are the same, entry for entry.
pub fn paths_equal(a: &Vec<(Vec<u8>, bool)>, b: &Vec<(Vec<u8>, bool)>) -> (r: bool)
    ensures
        r == (path_view(a@) == path_view(b@)),
{
    if a.len() != b.len() {
        proof {
            assert(path_view(a@).len() != path_view(b@).len());
        }
        return false;
    }
    let n = a.len();
    for i in 0..n
        invariant
            n == a@.len() == b@.len(),
            forall|j: int| 0 <= j < i ==> path_view(a@)[j] == path_view(b@)[j],
    {
        let (ah, al) = &a[i];
        let (bh, bl) = &b[i];
        proof {
            assert(path_view(a@)[i as int] == (a@[i as int].0@, a@[i as int].1));
            assert(path_view(b@)[i as int] == (b@[i as int].0@, b@[i as int].1));
        }
        if !crate::bytestr::bytes_eq(ah, bh) || *al != *bl {
            return false;
        }
    }
    proof {
        assert(path_view(a@) =~= path_view(b@));
    }
    true
}

/// The record of an identifier replacement: the identifier sets before and
/// after, the Merkle evidence for both states, and the membership witnesses
/// against the unchanged accumulator.
#[derive(Debug)]
pub struct UpdateResponse {
    pub key: String,
    pub old_fid: String,
    pub new_fid: String,
    pub old_fids: Option<KeySet>,
    pub new_fids: KeySet,
    pub pre_proof: Option<Proof>,
    pub pre_accumulator: Option<G1Point>,
    pub pre_membership_witness: Option<G1Point>,
    pub post_proof: Proof,
    pub post_accumulator: G1Point,
    pub post_membership_witness: G1Point,
    pub pre_root_hash: Option<Vec<u8>>,
    pub post_root_hash: Vec<u8>,
}

impl UpdateResponse {
    /// Whether the identifier sets transition by exactly one replacement,
    /// both Merkle paths bind their states, the sibling paths agree entry
    /// for entry, and the membership witnesses pair in both states.
    #[verifier::rlimit(100)]
    pub fn verify_update(&self, pp: &PublicParameters) -> (r: bool)
        requires
            pp.wf(),
            self.new_fids.wf(),
            self.old_fids matches Some(o) ==> o.wf(),
        ensures
            r == ({
                &&& self.old_fids matches Some(o) && o@.contains(str_bytes(self.old_fid@))
                    && self.new_fids@ == o@.remove(str_bytes(self.old_fid@)).insert(
                    str_bytes(self.new_fid@),
                )
                &&& (self.pre_proof matches Some(p) ==> merkle_fold(
                    p.leaf_hash@,
                    path_view(p.path@),
                ) == p.root_hash@ && (self.old_fids matches Some(o) ==> merkle_fold(
                    leaf_hash_of(str_bytes(self.key@), o.byte_seq(), 0, false),
                    path_view(p.path@),
                ) == p.root_hash@))
                &&& merkle_fold(self.post_proof.leaf_hash@, path_view(self.post_proof.path@))
                    == self.post_proof.root_hash@
                &&& merkle_fold(
                    leaf_hash_of(str_bytes(self.key@), self.new_fids.byte_seq(), 0, false),
                    path_view(self.post_proof.path@),
                ) == self.post_proof.root_hash@
                &&& (self.pre_proof matches Some(p) ==> path_view(p.path@) == path_view(
                    self.post_proof.path@,
                ))
                &&& (self.pre_accumulator matches Some(acc) ==> (self.pre_membership_witness
                    matches Some(w) ==> pairing_of(
                    w,
                    g2_s_minus(*pp, key_scalar(str_bytes(self.key@))),
                ) == pairing_of(acc, pp.g2)))
                &&& pairing_of(
                    self.post_membership_witness,
                    g2_s_minus(*pp, key_scalar(str_bytes(self.key@))),
                ) == pairing_of(self.post_accumulator, pp.g2)
            }),
    {
        let set_ok = match &self.old_fids {
            Some(old) => {
                if !old.contains(self.old_fid.as_str()) {
                    false
                } else {
                    let mut expected = self_clone_keyset(old);
                    expected.delete(self.old_fid.as_str());
                    expected.insert(crate::keyset::self_clone_string(&self.new_fid));
                    keyset_equal(&self.new_fids, &expected)
                }
            },
            None => false,
        };
        let pre_ok = match &self.pre_proof {
            Some(pre_p) => pre_p.verify() && match &self.old_fids {
                Some(old) => pre_p.verify_with_kv(self.key.as_str(), old),
                None => true,
            },
            None => true,
        };
        let post_ok = self.post_proof.verify() && self.post_proof.verify_with_kv(
            self.key.as_str(),
            &self.new_fids,
        );
        let paths_ok = match &self.pre_proof {
            Some(pre_p) => paths_equal(&pre_p.path, &self.post_proof.path),
            None => true,
        };
        let pre_acc_ok = match (&self.pre_accumulator, &self.pre_membership_witness) {
            (Some(acc), Some(w)) => verify_membership(pp, acc, w, self.key.as_str()),
            _ => true,
        };
        let post_acc_ok = verify_membership(
            pp,
            &self.post_accumulator,
            &self.post_membership_witness,
            self.key.as_str(),
        );
        proof {
            assert(set_ok == (self.old_fids matches Some(o) && o@.contains(
                str_bytes(self.old_fid@),
            ) && self.new_fids@ == o@.remove(str_bytes(self.old_fid@)).insert(
                str_bytes(self.new_fid@),
            )));
            assert(pre_ok == (self.pre_proof matches Some(p) ==> merkle_fold(
                p.leaf_hash@,
                path_view(p.path@),
            ) == p.root_hash@ && (self.old_fids matches Some(o) ==> merkle_fold(
                leaf_hash_of(str_bytes(self.key@), o.byte_seq(), 0, false),
                path_view(p.path@),
            ) == p.root_hash@)));
            assert(paths_ok == (self.pre_proof matches Some(p) ==> path_view(p.path@) == path_view(
                self.post_proof.path@,
            )));
            assert(pre_acc_ok == (self.pre_accumulator matches Some(acc) ==> (
            self.pre_membership_witness matches Some(w) ==> pairing_of(
                w,
                g2_s_minus(*pp, key_scalar(str_bytes(self.key@))),
            ) == pairing_of(acc, pp.g2))));
        }
        set_ok && pre_ok && post_ok && paths_ok && pre_acc_ok && post_acc_ok
    }
}

/// Whether two well-formed key sets hold the same elements.
pub fn keyset_equal(a: &KeySet, b: &KeySet) -> (r: bool)
    requires
        a.wf(),
        b.wf(),
    ensures
        r == (a@ == b@),
{
    let av = a.elems();
    let bv = b.elems();
    if av.len() != bv.len() {
        proof {
            crate::keyset::lemma_keyset_len(*a);
            crate::keyset::lemma_keyset_len(*b);
            crate::keyset::lemma_view_eq_byte_seq(*a, *b);
        }
        return false;
    }
    let n = av.len();
    for i in 0..n
        invariant
            a.wf(),
            b.wf(),
            n == av@.len() == bv@.len(),
            av@.map_values(|s: String| str_bytes(s@)) == a.byte_seq(),
            bv@.map_values(|s: String| str_bytes(s@)) == b.byte_seq(),
            forall|j: int| 0 <= j < i ==> a.byte_seq()[j] == b.byte_seq()[j],
    {
        let ab = av[i].as_str().as_bytes_vec();
        let bb = bv[i].as_str().as_bytes_vec();
        proof {
            assert(ab@ == a.byte_seq()[i as int]);
            assert(bb@ == b.byte_seq()[i as int]);
        }
        if !crate::bytestr::bytes_eq(&ab, &bb) {
            proof {
                crate::keyset::lemma_view_eq_byte_seq(*a, *b);
            }
            return false;
        }
    }
    proof {
        assert(a.byte_seq() =~= b.byte_seq());
        crate::keyset::lemma_view_eq_byte_seq(*a, *b);
    }
    true
}

/// The record of an identifier deletion: the sets before and after, both
/// Merkle paths — the post-state one ending in the canonical empty leaf
/// when the key was tombstoned — and the pre-state membership witness.
#[derive(Debug)]
pub struct DeleteResponse {
    pub key: String,
    pub deleted_fid: String,
    pub old_fids: Option<KeySet>,
    pub new_fids: KeySet,
    pub pre_proof: Option<Proof>,
    pub pre_accumulator: Option<G1Point>,
    pub pre_membership_witness: Option<G1Point>,
    pub post_proof: Proof,
    pub post_accumulator: G1Point,
    pub pre_root_hash: Option<Vec<u8>>,
    pub post_root_hash: Vec<u8>,
}

impl DeleteResponse {
    /// Whether the identifier sets transition by one removal, both Merkle
    /// paths bind their states — with the canonical empty leaf standing for
    /// an emptied key — the sibling paths agree, and the pre-state
    /// membership witness pairs.
    #[verifier::rlimit(100)]
    pub fn verify_delete(&self, pp: &PublicParameters) -> (r: bool)
        requires
            pp.wf(),
            self.new_fids.wf(),
            self.old_fids matches Some(o) ==> o.wf(),
        ensures
            r == ({
                &&& self.old_fids matches Some(o) && o@.contains(str_bytes(self.deleted_fid@))
                    && self.new_fids@ == o@.remove(str_bytes(self.deleted_fid@))
                &&& (self.pre_proof matches Some(p) ==> merkle_fold(
                    p.leaf_hash@,
                    path_view(p.path@),
                ) == p.root_hash@ && (self.old_fids matches Some(o) ==> merkle_fold(
                    leaf_hash_of(str_bytes(self.key@), o.byte_seq(), 0, false),
                    path_view(p.path@),
                ) == p.root_hash@))
                &&& merkle_fold(self.post_proof.leaf_hash@, path_view(self.post_proof.path@))
                    == self.post_proof.root_hash@
                &&& merkle_fold(
                    if self.new_fids@ == Set::<Seq<u8>>::empty() {
                        empty_hash_of()
                    } else {
                        leaf_hash_of(str_bytes(self.key@), self.new_fids.byte_seq(), 0, false)
                    },
                    path_view(self.post_proof.path@),
                ) == self.post_proof.root_hash@
                &&& (self.pre_proof matches Some(p) ==> path_view(p.path@) == path_view(
                    self.post_proof.path@,
                ))
                &&& (self.pre_accumulator matches Some(acc) ==> (self.pre_membership_witness
                    matches Some(w) ==> pairing_of(
                    w,
                    g2_s_minus(*pp, key_scalar(str_bytes(self.key@))),
                ) == pairing_of(acc, pp.g2)))
            }),
    {
        let set_ok = match &self.old_fids {
            Some(old) => {
                if !old.contains(self.deleted_fid.as_str()) {
                    false
                } else {
                    let mut expected = self_clone_keyset(old);
                    expected.delete(self.deleted_fid.as_str());
                    keyset_equal(&self.new_fids, &expected)
                }
            },
            None => false,
        };
        let pre_ok = match &self.pre_proof {
            Some(pre_p) => pre_p.verify() && match &self.old_fids {
                Some(old) => pre_p.verify_with_kv(self.key.as_str(), old),
                None => true,
            },
            None => true,
        };
        let post_fold_ok = self.post_proof.verify();
        let tombstoned = self.new_fids.is_empty();
        let post_leaf_ok = if tombstoned {
            let eh = crate::hashes::empty_hash();
            let sub = Proof {
                root_hash: crate::bytestr::bytes_clone(&self.post_proof.root_hash),
                leaf_hash: eh,
                path: self_clone_path(&self.post_proof.path),
            };
            sub.verify()
        } else {
            self.post_proof.verify_with_kv(self.key.as_str(), &self.new_fids)
        };
        let paths_ok = match &self.pre_proof {
            Some(pre_p) => paths_equal(&pre_p.path, &self.post_proof.path),
            None => true,
        };
        let pre_acc_ok = match (&self.pre_accumulator, &self.pre_membership_witness) {
            (Some(acc), Some(w)) => verify_membership(pp, acc, w, self.key.as_str()),
            _ => true,
        };
        set_ok && pre_ok && post_fold_ok && post_leaf_ok && paths_ok && pre_acc_ok
    }
}

} // verus!
