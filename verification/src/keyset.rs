//! A set of strings, held as a vector in strictly ascending byte order. The
//! canonical order makes two sets with the same elements identical in memory,
//! which in turn makes every hash over a set independent of insertion order.
//!
//! The view of a set is the set of UTF-8 encodings of its elements.

use vstd::prelude::*;

use crate::bytestr::{
    bytes_eq, bytes_lt, lemma_lex_asym, lemma_lex_connex, lemma_lex_irrefl,
    lemma_lex_trans, lemma_sorted_no_duplicates, lemma_sorted_unique, lex_lt, strictly_sorted,
};
use vstd::string::StrSliceExecFns;
use vstd::utf8::encode_utf8;

verus! {

/// The UTF-8 encoding of a string value.
pub open spec fn str_bytes(s: Seq<char>) -> Seq<u8> {
    encode_utf8(s)
}

/// A set of strings in canonical order.
#[derive(Debug, Clone)]
pub struct KeySet {
    items: Vec<String>,
}

impl View for KeySet {
    type V = Set<Seq<u8>>;

    closed spec fn view(&self) -> Set<Seq<u8>> {
        self.byte_seq().to_set()
    }
}

impl KeySet {
    /// The elements' encodings, in storage order.
    pub closed spec fn byte_seq(self) -> Seq<Seq<u8>> {
        self.items@.map_values(|s: String| str_bytes(s@))
    }

    /// The storage order is strictly ascending; this makes the vector the
    /// canonical listing of the set.
    pub closed spec fn wf(self) -> bool {
        strictly_sorted(self.byte_seq())
    }

    /// An empty set.
    pub fn new() -> (r: KeySet)
        ensures
            r@ == Set::<Seq<u8>>::empty(),
            r.byte_seq() == Seq::<Seq<u8>>::empty(),
            r.wf(),
    {
        let r = KeySet { items: Vec::new() };
        proof {
            assert(r.byte_seq() =~= Seq::<Seq<u8>>::empty());
            assert(r@ =~= Set::<Seq<u8>>::empty());
        }
        r
    }

    /// How many elements the set holds.
    pub fn len(&self) -> (r: usize)
        requires
            self.wf(),
        ensures
            r == self@.len(),
    {
        proof {
            lemma_sorted_no_duplicates(self.byte_seq());
            self.byte_seq().unique_seq_to_set();
        }
        self.items.len()
    }

    pub fn is_empty(&self) -> (r: bool)
        requires
            self.wf(),
        ensures
            r == (self@ =~= Set::<Seq<u8>>::empty()),
    {
        proof {
            lemma_sorted_no_duplicates(self.byte_seq());
            self.byte_seq().unique_seq_to_set();
            if self.byte_seq().len() > 0 {
                assert(self@.contains(self.byte_seq()[0]));
            }
        }
        self.items.len() == 0
    }

    /// Remove every element.
    pub fn clear(&mut self)
        ensures
            final(self)@ == Set::<Seq<u8>>::empty(),
            final(self).wf(),
    {
        self.items = Vec::new();
        proof {
            assert(self.byte_seq() =~= Seq::<Seq<u8>>::empty());
            assert(self@ =~= Set::<Seq<u8>>::empty());
        }
    }

    /// The elements in canonical (strictly ascending byte) order.
    pub fn elems(&self) -> (r: &Vec<String>)
        ensures
            r@.map_values(|s: String| str_bytes(s@)) == self.byte_seq(),
            self.wf() ==> strictly_sorted(r@.map_values(|s: String| str_bytes(s@))),
    {
        &self.items
    }

    /// Whether `element` is in the set.
    pub fn contains(&self, element: &str) -> (r: bool)
        ensures
            r == self@.contains(str_bytes(element@)),
    {
        let eb = element.as_bytes_vec();
        let n = self.items.len();
        for i in 0..n
            invariant
                n == self.items@.len(),
                eb@ == str_bytes(element@),
                forall|j: int| 0 <= j < i ==> self.byte_seq()[j] != str_bytes(element@),
        {
            let ib = self.items[i].as_str().as_bytes_vec();
            assert(ib@ == self.byte_seq()[i as int]);
            if bytes_eq(&ib, &eb) {
                assert(self.byte_seq().contains(str_bytes(element@)));
                return true;
            }
        }
        proof {
            if self.byte_seq().contains(str_bytes(element@)) {
                let j = choose|j: int|
                    0 <= j < self.byte_seq().len() && self.byte_seq()[j] == str_bytes(element@);
            }
        }
        false
    }

    /// Insert `element`; the result says whether the set grew.
    pub fn insert(&mut self, element: String) -> (grew: bool)
        requires
            old(self).wf(),
        ensures
            final(self).wf(),
            final(self)@ == old(self)@.insert(str_bytes(element@)),
            grew == !old(self)@.contains(str_bytes(element@)),
            !grew ==> *final(self) == *old(self),
    {
        let eb = element.as_str().as_bytes_vec();
        let n = self.items.len();
        let ghost orig = self.byte_seq();
        let mut i: usize = 0;
        while i < n
            invariant
                n == self.items@.len(),
                eb@ == str_bytes(element@),
                *self == *old(self),
                orig == self.byte_seq(),
                strictly_sorted(orig),
                i <= n,
                forall|j: int| 0 <= j < i ==> lex_lt(orig[j], str_bytes(element@)),
            decreases n - i,
        {
            let ib = self.items[i].as_str().as_bytes_vec();
            assert(ib@ == orig[i as int]);
            if bytes_eq(&ib, &eb) {
                proof {
                    assert(orig.contains(str_bytes(element@)));
                    assert(self@.insert(str_bytes(element@)) =~= self@);
                }
                return false;
            }
            if bytes_lt(&eb, &ib) {
                proof {
                    lemma_insert_keeps_sorted(orig, str_bytes(element@), i as int);
                }
                self.items.insert(i, element);
                proof {
                    assert(self.byte_seq() =~= orig.insert(i as int, str_bytes(element@)));
                    lemma_insert_set(orig, str_bytes(element@), i as int);
                    assert(self@ =~= old(self)@.insert(str_bytes(element@)));
                    assert(!old(self)@.contains(str_bytes(element@))) by {
                        if orig.contains(str_bytes(element@)) {
                            let j = choose|j: int|
                                0 <= j < orig.len() && orig[j] == str_bytes(element@);
                            if j < i {
                                lemma_lex_irrefl(orig[j]);
                            } else if j == i {
                                lemma_lex_irrefl(orig[i as int]);
                            } else {
                                lemma_lex_asym(str_bytes(element@), orig[i as int]);
                                lemma_lex_trans(orig[i as int], orig[j], str_bytes(element@));
                            }
                        }
                    }
                }
                return true;
            }
            proof {
                lemma_lex_connex_not_eq(orig[i as int], str_bytes(element@));
            }
            i += 1;
        }
        proof {
            lemma_insert_keeps_sorted(orig, str_bytes(element@), orig.len() as int);
        }
        self.items.push(element);
        proof {
            assert(self.byte_seq() =~= orig.insert(orig.len() as int, str_bytes(element@)));
            lemma_insert_set(orig, str_bytes(element@), orig.len() as int);
            assert(self@ =~= old(self)@.insert(str_bytes(element@)));
            assert(!old(self)@.contains(str_bytes(element@))) by {
                if orig.contains(str_bytes(element@)) {
                    let j = choose|j: int| 0 <= j < orig.len() && orig[j] == str_bytes(element@);
                    lemma_lex_irrefl(orig[j]);
                }
            }
        }
        true
    }

    /// Remove `element`; the result says whether the set shrank.
    pub fn delete(&mut self, element: &str) -> (shrank: bool)
        requires
            old(self).wf(),
        ensures
            final(self).wf(),
            final(self)@ == old(self)@.remove(str_bytes(element@)),
            shrank == old(self)@.contains(str_bytes(element@)),
    {
        let eb = element.as_bytes_vec();
        let n = self.items.len();
        let ghost orig = self.byte_seq();
        for i in 0..n
            invariant
                n == self.items@.len(),
                eb@ == str_bytes(element@),
                orig == self.byte_seq(),
                strictly_sorted(orig),
                *self == *old(self),
                forall|j: int| 0 <= j < i ==> orig[j] != str_bytes(element@),
        {
            let ib = self.items[i].as_str().as_bytes_vec();
            assert(ib@ == orig[i as int]);
            if bytes_eq(&ib, &eb) {
                self.items.remove(i);
                proof {
                    assert(self.byte_seq() =~= orig.remove(i as int));
                    lemma_remove_keeps_sorted(orig, i as int);
                    lemma_sorted_no_duplicates(orig);
                    lemma_remove_set(orig, i as int);
                    assert(orig.contains(str_bytes(element@)));
                }
                return true;
            }
        }
        proof {
            if orig.contains(str_bytes(element@)) {
                let j = choose|j: int| 0 <= j < orig.len() && orig[j] == str_bytes(element@);
            }
            assert(self@.remove(str_bytes(element@)) =~= self@);
        }
        false
    }

    /// Build a set from the elements of a vector.
    pub fn from_vec(input: Vec<String>) -> (r: KeySet)
        ensures
            r.wf(),
            r@ == input@.map_values(|s: String| str_bytes(s@)).to_set(),
    {
        let mut r = KeySet::new();
        let n = input.len();
        let ghost all = input@.map_values(|s: String| str_bytes(s@));
        let mut i: usize = 0;
        while i < n
            invariant
                n == input@.len(),
                all == input@.map_values(|s: String| str_bytes(s@)),
                r.wf(),
                i <= n,
                r@ == all.take(i as int).to_set(),
            decreases n - i,
        {
            let e = self_clone_string(&input[i]);
            r.insert(e);
            proof {
                assert(all.take(i + 1).drop_last() =~= all.take(i as int));
                assert(all.take(i + 1).last() == all[i as int]);
                lemma_to_set_push(all.take(i as int), all.take(i + 1), all[i as int]);
            }
            i += 1;
        }
        proof {
            assert(all.take(n as int) =~= all);
        }
        r
    }

    /// The union of two sets.
    pub fn union(&self, other: &KeySet) -> (r: KeySet)
        requires
            self.wf(),
            other.wf(),
        ensures
            r.wf(),
            r@ == self@.union(other@),
    {
        let mut r = self_clone_keyset(self);
        let n = other.items.len();
        let ghost ob = other.byte_seq();
        let mut i: usize = 0;
        while i < n
            invariant
                n == other.items@.len(),
                ob == other.byte_seq(),
                r.wf(),
                i <= n,
                r@ == self@.union(ob.take(i as int).to_set()),
            decreases n - i,
        {
            let e = self_clone_string(&other.items[i]);
            assert(str_bytes(e@) == ob[i as int]);
            r.insert(e);
            proof {
                assert(ob.take(i + 1).drop_last() =~= ob.take(i as int));
                lemma_to_set_push(ob.take(i as int), ob.take(i + 1), ob[i as int]);
                assert(self@.union(ob.take(i as int).to_set()).insert(ob[i as int]) =~= self@.union(
                    ob.take(i + 1).to_set(),
                ));
            }
            i += 1;
        }
        proof {
            assert(ob.take(n as int) =~= ob);
            assert(self@.union(ob.to_set()) == self@.union(other@));
        }
        r
    }

    /// The elements of this set that are not in `other`.
    pub fn difference(&self, other: &KeySet) -> (r: KeySet)
        requires
            self.wf(),
            other.wf(),
        ensures
            r.wf(),
            r@ == self@.difference(other@),
    {
        let mut r = KeySet::new();
        let n = self.items.len();
        let ghost sb = self.byte_seq();
        let mut i: usize = 0;
        while i < n
            invariant
                n == self.items@.len(),
                sb == self.byte_seq(),
                strictly_sorted(sb),
                r.wf(),
                i <= n,
                r@ == sb.take(i as int).to_set().difference(other@),
            decreases n - i,
        {
            let e = &self.items[i];
            assert(str_bytes(e@) == sb[i as int]);
            if !other.contains(e.as_str()) {
                let c = self_clone_string(e);
                r.insert(c);
            }
            proof {
                assert(sb.take(i + 1).drop_last() =~= sb.take(i as int));
                lemma_to_set_push(sb.take(i as int), sb.take(i + 1), sb[i as int]);
                assert(r@ =~= sb.take(i + 1).to_set().difference(other@));
            }
            i += 1;
        }
        proof {
            assert(sb.take(n as int) =~= sb);
            assert(sb.to_set().difference(other@) == self@.difference(other@));
        }
        r
    }

    /// The elements common to this set and `other`.
    pub fn intersection(&self, other: &KeySet) -> (r: KeySet)
        requires
            self.wf(),
            other.wf(),
        ensures
            r.wf(),
            r@ == self@.intersect(other@),
    {
        let mut r = KeySet::new();
        let n = self.items.len();
        let ghost sb = self.byte_seq();
        let mut i: usize = 0;
        while i < n
            invariant
                n == self.items@.len(),
                sb == self.byte_seq(),
                strictly_sorted(sb),
                r.wf(),
                i <= n,
                r@ == sb.take(i as int).to_set().intersect(other@),
            decreases n - i,
        {
            let e = &self.items[i];
            assert(str_bytes(e@) == sb[i as int]);
            if other.contains(e.as_str()) {
                let c = self_clone_string(e);
                r.insert(c);
            }
            proof {
                assert(sb.take(i + 1).drop_last() =~= sb.take(i as int));
                lemma_to_set_push(sb.take(i as int), sb.take(i + 1), sb[i as int]);
                assert(r@ =~= sb.take(i + 1).to_set().intersect(other@));
            }
            i += 1;
        }
        proof {
            assert(sb.take(n as int) =~= sb);
            assert(sb.to_set().intersect(other@) == self@.intersect(other@));
        }
        r
    }

    /// Whether this set shares an element with `other`.
    pub fn is_intersected_with(&self, other: &KeySet) -> (r: bool)
        requires
            self.wf(),
            other.wf(),
        ensures
            r == !(self@.intersect(other@) =~= Set::<Seq<u8>>::empty()),
    {
        let n = self.items.len();
        let ghost sb = self.byte_seq();
        for i in 0..n
            invariant
                n == self.items@.len(),
                sb == self.byte_seq(),
                forall|j: int| 0 <= j < i ==> !other@.contains(#[trigger] sb[j]),
        {
            let e = &self.items[i];
            assert(str_bytes(e@) == sb[i as int]);
            if other.contains(e.as_str()) {
                proof {
                    assert(self@.contains(sb[i as int]));
                    assert(self@.intersect(other@).contains(sb[i as int]));
                }
                return true;
            }
        }
        proof {
            assert forall|e: Seq<u8>| !(self@.intersect(other@).contains(e)) by {
                if self@.contains(e) {
                    let j = choose|j: int| 0 <= j < sb.len() && sb[j] == e;
                }
            }
            assert(self@.intersect(other@) =~= Set::<Seq<u8>>::empty());
        }
        false
    }
}

/// A well-formed key set's vector has one entry per element of its view.
pub proof fn lemma_keyset_len(a: KeySet)
    requires
        a.wf(),
    ensures
        a.byte_seq().len() == a@.len(),
{
    lemma_sorted_no_duplicates(a.byte_seq());
    a.byte_seq().unique_seq_to_set();
}

/// Two well-formed key sets hold the same elements exactly when their
/// canonical vectors agree.
pub proof fn lemma_view_eq_byte_seq(a: KeySet, b: KeySet)
    requires
        a.wf(),
        b.wf(),
    ensures
        (a@ == b@) <==> (a.byte_seq() == b.byte_seq()),
{
    if a@ == b@ {
        lemma_sorted_unique(a.byte_seq(), b.byte_seq());
    }
}

/// A well-formed key set's vector is the canonical listing of its view.
pub proof fn lemma_keyset_canonical(a: KeySet)
    requires
        a.wf(),
    ensures
        a.byte_seq() == crate::bytestr::canon_seq(a@),
{
    let q = crate::bytestr::canon_seq(a@);
    assert(strictly_sorted(a.byte_seq()) && a.byte_seq().to_set() == a@);
    assert(strictly_sorted(q) && q.to_set() == a@);
    lemma_sorted_unique(a.byte_seq(), q);
}

/// Clone of a string, with the view kept.
pub fn self_clone_string(s: &String) -> (r: String)
    ensures
        r@ == s@,
{
    let r = s.clone();
    r
}

/// Clone of a key set, with view and canonical order kept.
pub fn self_clone_keyset(s: &KeySet) -> (r: KeySet)
    ensures
        r.byte_seq() == s.byte_seq(),
        r@ == s@,
        s.wf() ==> r.wf(),
{
    let mut items: Vec<String> = Vec::new();
    let n = s.items.len();
    let mut i: usize = 0;
    while i < n
        invariant
            n == s.items@.len(),
            i <= n,
            items@ =~= s.items@.take(i as int),
        decreases n - i,
    {
        items.push(s.items[i].clone());
        proof {
            assert(items@ =~= s.items@.take(i + 1));
        }
        i += 1;
    }
    proof {
        assert(items@ =~= s.items@);
    }
    let r = KeySet { items };
    proof {
        assert(r.byte_seq() =~= s.byte_seq());
    }
    r
}

/// Inserting at the position before the first larger element keeps a
/// sequence strictly sorted, provided everything earlier is smaller.
proof fn lemma_insert_keeps_sorted(q: Seq<Seq<u8>>, e: Seq<u8>, i: int)
    requires
        strictly_sorted(q),
        0 <= i <= q.len(),
        forall|j: int| 0 <= j < i ==> lex_lt(q[j], e),
        i < q.len() ==> lex_lt(e, q[i]),
    ensures
        strictly_sorted(q.insert(i, e)),
{
    let r = q.insert(i, e);
    assert forall|a: int, b: int| 0 <= a < b < r.len() implies lex_lt(r[a], r[b]) by {
        if b < i {
            assert(r[a] == q[a] && r[b] == q[b]);
        } else if b == i {
            assert(r[a] == q[a] && r[b] == e);
        } else if a < i {
            assert(r[a] == q[a] && r[b] == q[b - 1]);
        } else if a == i {
            assert(r[a] == e && r[b] == q[b - 1]);
            if b - 1 > i {
                lemma_lex_trans(e, q[i], q[b - 1]);
            }
        } else {
            assert(r[a] == q[a - 1] && r[b] == q[b - 1]);
        }
    }
}

/// The set of an insertion is the set plus the element.
proof fn lemma_insert_set(q: Seq<Seq<u8>>, e: Seq<u8>, i: int)
    requires
        0 <= i <= q.len(),
    ensures
        q.insert(i, e).to_set() == q.to_set().insert(e),
{
    let r = q.insert(i, e);
    assert forall|x: Seq<u8>| r.to_set().contains(x) implies q.to_set().insert(e).contains(x) by {
        let j = choose|j: int| 0 <= j < r.len() && r[j] == x;
        if j < i {
            assert(q[j] == x);
        } else if j > i {
            assert(q[j - 1] == x);
        }
    }
    assert forall|x: Seq<u8>| q.to_set().insert(e).contains(x) implies r.to_set().contains(x) by {
        if x == e {
            assert(r[i] == x);
        } else {
            let j = choose|j: int| 0 <= j < q.len() && q[j] == x;
            if j < i {
                assert(r[j] == x);
            } else {
                assert(r[j + 1] == x);
            }
        }
    }
    assert(r.to_set() =~= q.to_set().insert(e));
}

/// Removing a position keeps a sequence strictly sorted.
proof fn lemma_remove_keeps_sorted(q: Seq<Seq<u8>>, i: int)
    requires
        strictly_sorted(q),
        0 <= i < q.len(),
    ensures
        strictly_sorted(q.remove(i)),
{
    let r = q.remove(i);
    assert forall|a: int, b: int| 0 <= a < b < r.len() implies lex_lt(r[a], r[b]) by {
        let qa: int = if a < i { a } else { a + 1 };
        let qb: int = if b < i { b } else { b + 1 };
        assert(r[a] == q[qa] && r[b] == q[qb]);
    }
}

/// For a duplicate-free sequence, removing a position removes its element
/// from the set.
proof fn lemma_remove_set(q: Seq<Seq<u8>>, i: int)
    requires
        q.no_duplicates(),
        0 <= i < q.len(),
    ensures
        q.remove(i).to_set() == q.to_set().remove(q[i]),
{
    let r = q.remove(i);
    assert forall|x: Seq<u8>| r.to_set().contains(x) implies q.to_set().remove(q[i]).contains(
        x,
    ) by {
        let j = choose|j: int| 0 <= j < r.len() && r[j] == x;
        if j < i {
            assert(q[j] == x);
        } else {
            assert(q[j + 1] == x);
        }
    }
    assert forall|x: Seq<u8>| q.to_set().remove(q[i]).contains(x) implies r.to_set().contains(
        x,
    ) by {
        let j = choose|j: int| 0 <= j < q.len() && q[j] == x;
        if j < i {
            assert(r[j] == x);
        } else {
            assert(j != i);
            assert(r[j - 1] == x);
        }
    }
    assert(r.to_set() =~= q.to_set().remove(q[i]));
}

/// Byte strings that are not below each other in the order and are distinct
/// contradict connexity; used to step past smaller elements.
proof fn lemma_lex_connex_not_eq(a: Seq<u8>, b: Seq<u8>)
    requires
        !lex_lt(b, a),
        a != b,
    ensures
        lex_lt(a, b),
{
    if !lex_lt(a, b) {
        lemma_lex_connex(a, b);
    }
}

/// Appending one element adds it to the set of a sequence.
proof fn lemma_to_set_push(q: Seq<Seq<u8>>, r: Seq<Seq<u8>>, e: Seq<u8>)
    requires
        r.drop_last() == q,
        r.len() == q.len() + 1,
        r.last() == e,
    ensures
        r.to_set() == q.to_set().insert(e),
{
    assert forall|x: Seq<u8>| r.to_set().contains(x) implies q.to_set().insert(e).contains(x) by {
        let j = choose|j: int| 0 <= j < r.len() && r[j] == x;
        if j < q.len() {
            assert(q[j] == x);
        }
    }
    assert forall|x: Seq<u8>| q.to_set().insert(e).contains(x) implies r.to_set().contains(x) by {
        if x == e {
            assert(r[q.len() as int] == x);
        } else {
            let j = choose|j: int| 0 <= j < q.len() && q[j] == x;
            assert(r[j] == x);
        }
    }
    assert(r.to_set() =~= q.to_set().insert(e));
}

} // verus!
