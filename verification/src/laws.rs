//! Laws of the forest that go beyond single contracts, each proved over the
//! models the contracts speak of.

use vstd::prelude::*;

use crate::keyset::KeySet;
use crate::hashes::leaf_hash_of;
use crate::tree::{seq_all_wf, seq_disjoint, seq_levels_inc, AccumulatorTree};

verus! {

/// The forest invariant: a well-formed forest has well-formed trees with
/// strictly increasing levels and pairwise disjoint key spaces — and every
/// mutation's contract hands the invariant back. Within each tree,
/// well-formedness ties each internal node's key set to the union of its
/// children's and its hash to the hash of their hashes.
pub proof fn lemma_forest_invariant(t: AccumulatorTree)
    requires
        t.wf(),
    ensures
        seq_all_wf(t.roots@),
        seq_levels_inc(t.roots@),
        seq_disjoint(t.roots@),
        forall|i: int, j: int|
            0 <= i < j < t.roots@.len() ==> (*t.roots@[i]).level_spec() != (*t.roots@[j]).level_spec(),
{
}

/// Inserting an identifier a set already holds changes nothing: together
/// with `insert`'s contract — which returns the forest unchanged in that
/// case — inserting a pair twice leaves the forest as one insertion does.
pub proof fn lemma_insert_idempotent(s: Set<Seq<u8>>, fb: Seq<u8>)
    ensures
        s.insert(fb).insert(fb) == s.insert(fb),
        s.insert(fb).contains(fb),
{
    assert(s.insert(fb).insert(fb) =~= s.insert(fb));
}

/// A leaf hash depends on the identifier set alone, not on how the set was
/// built: two canonical sets with the same elements hash alike. Together
/// with the contracts of `delete` and `insert` — a full deletion tombstones
/// the key and a later insertion revives it with exactly the new
/// identifier — a revived leaf hashes as a never-deleted leaf holding the
/// same identifiers does.
pub proof fn lemma_leaf_hash_set_determined(kb: Seq<u8>, a: KeySet, b: KeySet, level: nat)
    requires
        a.wf(),
        b.wf(),
        a@ == b@,
    ensures
        leaf_hash_of(kb, a.byte_seq(), level, false) == leaf_hash_of(kb, b.byte_seq(), level, false),
{
    crate::keyset::lemma_view_eq_byte_seq(a, b);
}

} // verus!
