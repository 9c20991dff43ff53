//! Byte strings and their lexicographic order. Keys and document identifiers
//! enter the cryptographic layer as their UTF-8 bytes; the order below gives
//! every set of them one canonical sequence, which makes hashing independent
//! of insertion order.

use vstd::prelude::*;

verus! {

/// Strict lexicographic order on byte strings: compare position by position,
/// a strict prefix comes first.
pub open spec fn lex_lt(a: Seq<u8>, b: Seq<u8>) -> bool
    decreases a.len() + b.len(),
{
    if b.len() == 0 {
        false
    } else if a.len() == 0 {
        true
    } else if a[0] < b[0] {
        true
    } else if a[0] > b[0] {
        false
    } else {
        lex_lt(a.drop_first(), b.drop_first())
    }
}

/// The order is irreflexive.
pub proof fn lemma_lex_irrefl(a: Seq<u8>)
    ensures
        !lex_lt(a, a),
    decreases a.len(),
{
    if a.len() > 0 {
        lemma_lex_irrefl(a.drop_first());
    }
}

/// The order is asymmetric.
pub proof fn lemma_lex_asym(a: Seq<u8>, b: Seq<u8>)
    ensures
        lex_lt(a, b) ==> !lex_lt(b, a),
    decreases a.len() + b.len(),
{
    if a.len() > 0 && b.len() > 0 {
        lemma_lex_asym(a.drop_first(), b.drop_first());
    }
}

/// The order is connex: two byte strings neither of which comes before the
/// other are equal.
pub proof fn lemma_lex_connex(a: Seq<u8>, b: Seq<u8>)
    requires
        !lex_lt(a, b),
        !lex_lt(b, a),
    ensures
        a == b,
    decreases a.len() + b.len(),
{
    if b.len() == 0 {
        assert(a.len() == 0);
        assert(a =~= b);
    } else {
        assert(a.len() > 0);
        lemma_lex_connex(a.drop_first(), b.drop_first());
        assert(a =~= seq![a[0]] + a.drop_first());
        assert(b =~= seq![b[0]] + b.drop_first());
    }
}

/// The order is transitive.
pub proof fn lemma_lex_trans(a: Seq<u8>, b: Seq<u8>, c: Seq<u8>)
    requires
        lex_lt(a, b),
        lex_lt(b, c),
    ensures
        lex_lt(a, c),
    decreases a.len() + b.len() + c.len(),
{
    if a.len() > 0 && b.len() > 0 && c.len() > 0 && a[0] == b[0] && b[0] == c[0] {
        lemma_lex_trans(a.drop_first(), b.drop_first(), c.drop_first());
    }
}

/// Byte strings compare equal exactly when their views do.
pub fn bytes_eq(a: &Vec<u8>, b: &Vec<u8>) -> (r: bool)
    ensures
        r == (a@ == b@),
{
    if a.len() != b.len() {
        assert(a@ != b@);
        return false;
    }
    let n = a.len();
    for i in 0..n
        invariant
            n == a@.len() == b@.len(),
            forall|j: int| 0 <= j < i ==> a@[j] == b@[j],
    {
        if a[i] != b[i] {
            return false;
        }
    }
    proof {
        assert(a@ =~= b@);
    }
    true
}

/// Decides the lexicographic order from position `i` on, where the two byte
/// strings agree before `i`.
fn bytes_lt_from(a: &Vec<u8>, b: &Vec<u8>, i: usize) -> (r: bool)
    requires
        i <= a@.len(),
        i <= b@.len(),
    ensures
        r == lex_lt(a@.skip(i as int), b@.skip(i as int)),
    decreases a@.len() - i,
{
    let ghost sa = a@.skip(i as int);
    let ghost sb = b@.skip(i as int);
    if i == b.len() {
        assert(sb.len() == 0);
        false
    } else if i == a.len() {
        assert(sa.len() == 0 && sb.len() > 0);
        true
    } else {
        assert(sa[0] == a@[i as int] && sb[0] == b@[i as int]);
        if a[i] < b[i] {
            true
        } else if b[i] < a[i] {
            false
        } else {
            proof {
                assert(sa.drop_first() =~= a@.skip(i + 1));
                assert(sb.drop_first() =~= b@.skip(i + 1));
            }
            bytes_lt_from(a, b, i + 1)
        }
    }
}

/// Decides the lexicographic order on byte strings.
pub fn bytes_lt(a: &Vec<u8>, b: &Vec<u8>) -> (r: bool)
    ensures
        r == lex_lt(a@, b@),
{
    proof {
        assert(a@.skip(0) =~= a@);
        assert(b@.skip(0) =~= b@);
    }
    bytes_lt_from(a, b, 0)
}

/// Clone of a byte vector, with the view kept.
pub fn bytes_clone(v: &Vec<u8>) -> (r: Vec<u8>)
    ensures
        r@ == v@,
{
    let mut r: Vec<u8> = Vec::new();
    let n = v.len();
    for i in 0..n
        invariant
            n == v@.len(),
            r@ =~= v@.take(i as int),
    {
        r.push(v[i]);
        proof {
            assert(r@ =~= v@.take(i + 1));
        }
    }
    proof {
        assert(r@ =~= v@);
    }
    r
}

/// The canonical listing of a set of byte strings: the one strictly
/// ascending sequence over it.
pub open spec fn canon_seq(s: Set<Seq<u8>>) -> Seq<Seq<u8>> {
    choose|q: Seq<Seq<u8>>| strictly_sorted(q) && q.to_set() == s
}

/// The canonical listing of the empty set is the empty sequence.
pub proof fn lemma_canon_empty()
    ensures
        canon_seq(Set::<Seq<u8>>::empty()) == Seq::<Seq<u8>>::empty(),
{
    let e = Seq::<Seq<u8>>::empty();
    assert(strictly_sorted(e));
    assert(e.to_set() =~= Set::<Seq<u8>>::empty());
    let q = canon_seq(Set::<Seq<u8>>::empty());
    assert(strictly_sorted(q) && q.to_set() == Set::<Seq<u8>>::empty());
    lemma_sorted_unique(q, e);
}

/// A sequence of byte strings in strictly ascending order.
pub open spec fn strictly_sorted(q: Seq<Seq<u8>>) -> bool {
    forall|i: int, j: int| 0 <= i < j < q.len() ==> lex_lt(q[i], q[j])
}

/// A strictly ascending sequence repeats no byte string.
pub proof fn lemma_sorted_no_duplicates(q: Seq<Seq<u8>>)
    requires
        strictly_sorted(q),
    ensures
        q.no_duplicates(),
{
    assert forall|i: int, j: int| 0 <= i < q.len() && 0 <= j < q.len() && i != j implies q[i]
        != q[j] by {
        if i < j {
            lemma_lex_irrefl(q[i]);
        } else {
            lemma_lex_irrefl(q[j]);
        }
    }
}

/// Two strictly ascending sequences over the same set of byte strings are the
/// same sequence: the order gives every finite set one canonical listing.
pub proof fn lemma_sorted_unique(p: Seq<Seq<u8>>, q: Seq<Seq<u8>>)
    requires
        strictly_sorted(p),
        strictly_sorted(q),
        p.to_set() == q.to_set(),
    ensures
        p == q,
    decreases p.len(),
{
    if p.len() == 0 {
        if q.len() > 0 {
            assert(q.to_set().contains(q[0]));
            assert(p.contains(q[0]));
        }
        assert(p =~= q);
    } else {
        assert(p.to_set().contains(p[0]));
        assert(q.contains(p[0]));
        assert(q.len() > 0);
        assert(q.to_set().contains(q[0]));
        assert(p.contains(q[0]));
        let ip = choose|ip: int| 0 <= ip < p.len() && p[ip] == q[0];
        let iq = choose|iq: int| 0 <= iq < q.len() && q[iq] == p[0];
        assert(!lex_lt(p[0], q[0])) by {
            if lex_lt(p[0], q[0]) {
                if iq == 0 {
                    lemma_lex_irrefl(p[0]);
                } else {
                    lemma_lex_asym(q[0], q[iq]);
                }
            }
        }
        assert(!lex_lt(q[0], p[0])) by {
            if lex_lt(q[0], p[0]) {
                if ip == 0 {
                    lemma_lex_irrefl(q[0]);
                } else {
                    lemma_lex_asym(p[0], p[ip]);
                }
            }
        }
        lemma_lex_connex(p[0], q[0]);
        let pt = p.drop_first();
        let qt = q.drop_first();
        assert(pt.to_set() =~= qt.to_set()) by {
            lemma_sorted_no_duplicates(p);
            lemma_sorted_no_duplicates(q);
            assert forall|e: Seq<u8>| pt.to_set().contains(e) implies qt.to_set().contains(e) by {
                let k = choose|k: int| 0 <= k < pt.len() && pt[k] == e;
                assert(p[k + 1] == e);
                assert(p.contains(e));
                assert(p.to_set().contains(e));
                assert(q.contains(e));
                let m = choose|m: int| 0 <= m < q.len() && q[m] == e;
                assert(m != 0);
                assert(qt[m - 1] == e);
            }
            assert forall|e: Seq<u8>| qt.to_set().contains(e) implies pt.to_set().contains(e) by {
                let k = choose|k: int| 0 <= k < qt.len() && qt[k] == e;
                assert(q[k + 1] == e);
                assert(q.contains(e));
                assert(q.to_set().contains(e));
                assert(p.contains(e));
                let m = choose|m: int| 0 <= m < p.len() && p[m] == e;
                assert(m != 0);
                assert(pt[m - 1] == e);
            }
        }
        lemma_sorted_unique(pt, qt);
        assert(p =~= seq![p[0]] + pt);
        assert(q =~= seq![q[0]] + qt);
    }
}

} // verus!
