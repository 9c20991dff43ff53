//! The hash layer of the Merkle forest: a leaf binds its key, its document
//! identifiers in canonical order, its level and its tombstone bit; an
//! internal node binds its children's hashes. All length fields are
//! prefixed, so the encoding of a leaf is unambiguous.

use vstd::prelude::*;

use crate::keyset::{str_bytes, KeySet};
use sha2::{Digest, Sha256};
use vstd::string::StrSliceExecFns;

verus! {

/// What SHA-256 returns.
pub uninterp spec fn sha256_of(data: Seq<u8>) -> Seq<u8>;

/// Relies on the `sha2` crate's SHA-256: a 32-byte digest depending on the
/// input bytes alone.
#[verifier::external_body]
pub fn sha256(data: &Vec<u8>) -> (r: Vec<u8>)
    ensures
        r@ == sha256_of(data@),
        r@.len() == 32,
{
    let mut h = Sha256::new();
    h.update(&data[..]);
    h.finalize().to_vec()
}

/// The four big-endian bytes of a length, as a 32-bit field.
pub open spec fn be32(n: nat) -> Seq<u8> {
    seq![
        ((n / 0x1000000) % 0x100) as u8,
        ((n / 0x10000) % 0x100) as u8,
        ((n / 0x100) % 0x100) as u8,
        (n % 0x100) as u8,
    ]
}

/// The eight little-endian bytes of a level, as a 64-bit field.
pub open spec fn le64(n: nat) -> Seq<u8> {
    seq![
        (n % 0x100) as u8,
        ((n / 0x100) % 0x100) as u8,
        ((n / 0x10000) % 0x100) as u8,
        ((n / 0x1000000) % 0x100) as u8,
        ((n / 0x100000000) % 0x100) as u8,
        ((n / 0x10000000000) % 0x100) as u8,
        ((n / 0x1000000000000) % 0x100) as u8,
        ((n / 0x100000000000000) % 0x100) as u8,
    ]
}

/// A byte string with its length prefix.
pub open spec fn enc_bytes(f: Seq<u8>) -> Seq<u8> {
    be32(f.len()) + f
}

/// Length-prefixed byte strings, one after another.
pub open spec fn enc_all(q: Seq<Seq<u8>>) -> Seq<u8>
    decreases q.len(),
{
    if q.len() == 0 {
        Seq::<u8>::empty()
    } else {
        enc_all(q.drop_last()) + enc_bytes(q.last())
    }
}

/// The encoded form of a leaf: key, count and identifiers in canonical
/// order, level, tombstone bit.
pub open spec fn leaf_msg(kb: Seq<u8>, fids: Seq<Seq<u8>>, level: nat, deleted: bool) -> Seq<u8> {
    enc_bytes(kb) + be32(fids.len()) + enc_all(fids) + le64(level) + seq![
        if deleted {
            1u8
        } else {
            0u8
        },
    ]
}

/// What the hash of a leaf commits to.
pub open spec fn leaf_hash_of(kb: Seq<u8>, fids: Seq<Seq<u8>>, level: nat, deleted: bool) -> Seq<
    u8,
> {
    sha256_of(leaf_msg(kb, fids, level, deleted))
}

/// What the hash of an internal node commits to.
pub open spec fn internal_hash_of(l: Seq<u8>, r: Seq<u8>) -> Seq<u8> {
    sha256_of(l + r)
}

/// The hash of the canonical empty leaf; a tombstoned leaf hashes to it.
pub open spec fn empty_hash_of() -> Seq<u8> {
    leaf_hash_of(Seq::<u8>::empty(), Seq::<Seq<u8>>::empty(), 0, false)
}

/// Append the four big-endian bytes of `n`, as a 32-bit field.
fn push_be32(msg: &mut Vec<u8>, n: usize)
    ensures
        final(msg)@ == old(msg)@ + be32(n as nat),
{
    msg.push(((n / 0x1000000) % 0x100) as u8);
    msg.push(((n / 0x10000) % 0x100) as u8);
    msg.push(((n / 0x100) % 0x100) as u8);
    msg.push((n % 0x100) as u8);
    proof {
        assert(msg@ =~= old(msg)@ + be32(n as nat));
    }
}

/// Append the eight little-endian bytes of `n`, as a 64-bit field.
fn push_le64(msg: &mut Vec<u8>, n: usize)
    ensures
        final(msg)@ == old(msg)@ + le64(n as nat),
{
    let v = n as u64;
    msg.push((v % 0x100) as u8);
    msg.push(((v / 0x100) % 0x100) as u8);
    msg.push(((v / 0x10000) % 0x100) as u8);
    msg.push(((v / 0x1000000) % 0x100) as u8);
    msg.push(((v / 0x100000000) % 0x100) as u8);
    msg.push(((v / 0x10000000000) % 0x100) as u8);
    msg.push(((v / 0x1000000000000) % 0x100) as u8);
    msg.push(((v / 0x100000000000000) % 0x100) as u8);
    proof {
        assert(msg@ =~= old(msg)@ + le64(n as nat));
    }
}

/// Append a byte string behind its length prefix.
fn push_enc_bytes(msg: &mut Vec<u8>, f: &Vec<u8>)
    ensures
        final(msg)@ == old(msg)@ + enc_bytes(f@),
{
    push_be32(msg, f.len());
    let n = f.len();
    for i in 0..n
        invariant
            n == f@.len(),
            msg@ == old(msg)@ + be32(f@.len()) + f@.take(i as int),
    {
        msg.push(f[i]);
        proof {
            assert(f@.take(i + 1) =~= f@.take(i as int) + seq![f@[i as int]]);
            assert(msg@ =~= old(msg)@ + be32(f@.len()) + f@.take(i + 1));
        }
    }
    proof {
        assert(f@.take(n as int) =~= f@);
        assert(old(msg)@ + be32(f@.len()) + f@ =~= old(msg)@ + enc_bytes(f@));
    }
}

/// The hash of a leaf: key, document identifiers in canonical order, level
/// and tombstone bit, each field length-prefixed.
pub fn leaf_hash(key: &str, fids: &KeySet, level: usize, deleted: bool) -> (r: Vec<u8>)
    requires
        fids.wf(),
    ensures
        r@ == leaf_hash_of(str_bytes(key@), fids.byte_seq(), level as nat, deleted),
        r@.len() == 32,
{
    let mut msg: Vec<u8> = Vec::new();
    let kb = key.as_bytes_vec();
    push_enc_bytes(&mut msg, &kb);
    proof {
        assert(msg@ =~= enc_bytes(str_bytes(key@)));
    }
    let items = fids.elems();
    let ghost fb = fids.byte_seq();
    push_be32(&mut msg, items.len());
    let n = items.len();
    let ghost base = msg@;
    for i in 0..n
        invariant
            n == items@.len(),
            fb == items@.map_values(|s: String| str_bytes(s@)),
            base == enc_bytes(str_bytes(key@)) + be32(fb.len()),
            msg@ == base + enc_all(fb.take(i as int)),
    {
        let ib = items[i].as_str().as_bytes_vec();
        assert(ib@ == fb[i as int]);
        push_enc_bytes(&mut msg, &ib);
        proof {
            assert(fb.take(i + 1).drop_last() =~= fb.take(i as int));
            assert(fb.take(i + 1).last() == fb[i as int]);
            assert(msg@ =~= base + enc_all(fb.take(i + 1)));
        }
    }
    proof {
        assert(fb.take(n as int) =~= fb);
    }
    push_le64(&mut msg, level);
    msg.push(if deleted {
        1u8
    } else {
        0u8
    });
    proof {
        assert(msg@ =~= leaf_msg(str_bytes(key@), fb, level as nat, deleted));
    }
    sha256(&msg)
}

/// The hash of an internal node: the two children's hashes, concatenated.
pub fn nonleaf_hash(left: &Vec<u8>, right: &Vec<u8>) -> (r: Vec<u8>)
    ensures
        r@ == internal_hash_of(left@, right@),
        r@.len() == 32,
{
    let mut msg: Vec<u8> = Vec::new();
    let n = left.len();
    for i in 0..n
        invariant
            n == left@.len(),
            msg@ == left@.take(i as int),
    {
        msg.push(left[i]);
        proof {
            assert(msg@ =~= left@.take(i + 1));
        }
    }
    proof {
        assert(msg@ =~= left@);
    }
    let m = right.len();
    for i in 0..m
        invariant
            m == right@.len(),
            msg@ == left@ + right@.take(i as int),
    {
        msg.push(right[i]);
        proof {
            assert(msg@ =~= left@ + right@.take(i + 1));
        }
    }
    proof {
        assert(msg@ =~= left@ + right@);
    }
    sha256(&msg)
}

/// The hash of the canonical empty leaf.
pub fn empty_hash() -> (r: Vec<u8>)
    ensures
        r@ == empty_hash_of(),
        r@.len() == 32,
{
    let fids = KeySet::new();
    let r = leaf_hash("", &fids, 0, false);
    proof {
        reveal_strlit("");
        assert(str_bytes(""@) =~= Seq::<u8>::empty());
        assert(fids.byte_seq() =~= Seq::<Seq<u8>>::empty());
    }
    r
}

/// Whether two 32-byte hashes are equal.
pub fn hash_eq(a: &Vec<u8>, b: &Vec<u8>) -> (r: bool)
    ensures
        r == (a@ == b@),
{
    crate::bytestr::bytes_eq(a, b)
}

} // verus!
