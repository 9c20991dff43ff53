//! The public parameters of the accumulator: the two generators and their
//! powers under successive powers of the trapdoor. Every commitment and
//! every verification reads them; nothing else about the trapdoor survives
//! the setup.

use vstd::prelude::*;

use crate::group::{
    g1_bytes_of, g1_canon, g1_clone, g1_from_bytes, g1_generator, g1_mul, g1_mul_of, g1_to_bytes,
    g2_bytes_of, g2_canon, g2_clone, g2_from_bytes, g2_generator, g2_mul, g2_mul_of, g2_to_bytes,
    G1Point, G2Point,
};
use crate::hashes::le64;
use crate::scalar::{fr_modulus, Scalar};
use crate::Error;

verus! {

/// The canonical encodings of a vector of first-group points, one after
/// another.
pub open spec fn concat_g1_bytes(v: Seq<G1Point>) -> Seq<u8>
    decreases v.len(),
{
    if v.len() == 0 {
        Seq::<u8>::empty()
    } else {
        concat_g1_bytes(v.drop_last()) + g1_bytes_of(v.last())
    }
}

/// The canonical encodings of a vector of second-group points, one after
/// another.
pub open spec fn concat_g2_bytes(v: Seq<G2Point>) -> Seq<u8>
    decreases v.len(),
{
    if v.len() == 0 {
        Seq::<u8>::empty()
    } else {
        concat_g2_bytes(v.drop_last()) + g2_bytes_of(v.last())
    }
}

/// The value an eight-byte little-endian field denotes.
pub open spec fn le_val8(b: Seq<u8>) -> nat {
    (b[0] as nat) + (b[1] as nat) * 0x100 + (b[2] as nat) * 0x10000 + (b[3] as nat) * 0x1000000 + (
    b[4] as nat) * 0x100000000 + (b[5] as nat) * 0x10000000000 + (b[6] as nat) * 0x1000000000000 + (
    b[7] as nat) * 0x100000000000000
}

/// Reading back the eight little-endian bytes of a value below two to the
/// sixty-fourth yields the value.
pub proof fn lemma_le64_roundtrip(n: nat)
    requires
        n < 0x10000000000000000,
    ensures
        le_val8(le64(n)) == n,
{
    let v = n as u64;
    assert(v == n);
    assert((v % 0x100) + ((v / 0x100) % 0x100) * 0x100 + ((v / 0x10000) % 0x100) * 0x10000 + ((v
        / 0x1000000) % 0x100) * 0x1000000 + ((v / 0x100000000) % 0x100) * 0x100000000 + ((v
        / 0x10000000000) % 0x100) * 0x10000000000 + ((v / 0x1000000000000) % 0x100)
        * 0x1000000000000 + ((v / 0x100000000000000) % 0x100) * 0x100000000000000 == v) by (bit_vector);
}

/// The eight-byte little-endian encoding is injective on values the machine
/// can address.
pub proof fn lemma_le64_injective(a: nat, b: nat)
    requires
        a < 0x10000000000000000,
        b < 0x10000000000000000,
        le64(a) == le64(b),
    ensures
        a == b,
{
    lemma_le64_roundtrip(a);
    lemma_le64_roundtrip(b);
}

/// A well-shaped parameter byte string with `n` powers per group: both
/// generators in canonical form, each power vector behind its little-endian
/// count, every point canonical, and nothing trailing.
pub open spec fn pp_wire_witness(b: Seq<u8>, n: nat) -> bool {
    &&& 2 <= n <= usize::MAX
    &&& b.len() == 152 + 48 * n + 8 + 96 * n
    &&& g1_canon(b.subrange(0, 48))
    &&& g2_canon(b.subrange(48, 144))
    &&& le64(n) == b.subrange(144, 152)
    &&& le64(n) == b.subrange(152 + 48 * n as int, 152 + 48 * n as int + 8)
    &&& (forall|k: int|
        0 <= k < n ==> #[trigger] g1_canon(b.subrange(152 + 48 * k, 152 + 48 * k + 48)))
    &&& (forall|k: int|
        0 <= k < n ==> #[trigger] g2_canon(
            b.subrange(160 + 48 * n as int + 96 * k, 160 + 48 * n as int + 96 * k + 96),
        ))
}

/// What a well-shaped parameter byte string looks like, for some count.
pub open spec fn pp_wire_ok(b: Seq<u8>) -> bool {
    exists|n: nat| #[trigger] pp_wire_witness(b, n)
}

/// The canonical encoding of the public parameters: both generators, then
/// each power vector behind its length.
pub open spec fn pp_bytes_of(pp: PublicParameters) -> Seq<u8> {
    g1_bytes_of(pp.g1) + g2_bytes_of(pp.g2) + le64(pp.g1_s_vec@.len()) + concat_g1_bytes(
        pp.g1_s_vec@,
    ) + le64(pp.g2_s_vec@.len()) + concat_g2_bytes(pp.g2_s_vec@)
}

/// The trapdoor raised to a power, modulo the field order.
pub open spec fn pow_mod(s: nat, i: nat) -> nat
    decreases i,
{
    if i == 0 {
        1
    } else {
        (pow_mod(s, (i - 1) as nat) * s) % fr_modulus()
    }
}

/// Public parameters: generators and their trapdoor powers, with the power
/// vectors of the two groups equally long.
pub struct PublicParameters {
    /// The generator of the first group.
    pub g1: G1Point,
    /// The generator of the second group.
    pub g2: G2Point,
    /// `g1` raised to the powers of the trapdoor, degree zero first.
    pub g1_s_vec: Vec<G1Point>,
    /// `g2` raised to the powers of the trapdoor, degree zero first.
    pub g2_s_vec: Vec<G2Point>,
}

impl PublicParameters {
    /// Both power vectors present, equally long, and long enough to hold the
    /// first power of the trapdoor.
    pub open spec fn wf(self) -> bool {
        self.g1_s_vec@.len() == self.g2_s_vec@.len() && self.g1_s_vec@.len() >= 2
    }

    /// The largest polynomial degree the parameters support.
    pub fn max_degree(&self) -> (r: usize)
        requires
            self.wf(),
        ensures
            r == self.g1_s_vec@.len() - 1,
    {
        self.g1_s_vec.len() - 1
    }

    /// The power of `g1` at index `i`; out of range only beyond the
    /// supported degree.
    pub fn g1_pow(&self, i: usize) -> (r: Result<G1Point, Error>)
        ensures
            r is Ok <==> i < self.g1_s_vec@.len(),
            r matches Ok(p) ==> p == self.g1_s_vec@[i as int],
            r matches Err(e) ==> e == Error::ParamsOutOfRange,
    {
        if i < self.g1_s_vec.len() {
            Ok(g1_clone(&self.g1_s_vec[i]))
        } else {
            Err(Error::ParamsOutOfRange)
        }
    }

    /// The power of `g2` at index `i`; out of range only beyond the
    /// supported degree.
    pub fn g2_pow(&self, i: usize) -> (r: Result<G2Point, Error>)
        ensures
            r is Ok <==> i < self.g2_s_vec@.len(),
            r matches Ok(p) ==> p == self.g2_s_vec@[i as int],
            r matches Err(e) ==> e == Error::ParamsOutOfRange,
    {
        if i < self.g2_s_vec.len() {
            Ok(g2_clone(&self.g2_s_vec[i]))
        } else {
            Err(Error::ParamsOutOfRange)
        }
    }

    /// Generate parameters from a known trapdoor, for tests and for the
    /// setup role only: every index holds the generator raised to the
    /// matching power of the trapdoor.
    pub fn generate_for_testing(secret: &Scalar, max_degree: usize) -> (r: PublicParameters)
        requires
            secret.wf(),
            1 <= max_degree < usize::MAX,
        ensures
            r.wf(),
            r.g1_s_vec@.len() == max_degree + 1,
            r.g2_s_vec@.len() == max_degree + 1,
            forall|i: int|
                0 <= i <= max_degree ==> #[trigger] r.g1_s_vec@[i] == g1_mul_of(
                    r.g1,
                    pow_mod(secret.val(), i as nat),
                ),
            forall|i: int|
                0 <= i <= max_degree ==> #[trigger] r.g2_s_vec@[i] == g2_mul_of(
                    r.g2,
                    pow_mod(secret.val(), i as nat),
                ),
    {
        let g1 = g1_generator();
        let g2 = g2_generator();
        let mut g1_s_vec: Vec<G1Point> = Vec::new();
        let mut g2_s_vec: Vec<G2Point> = Vec::new();
        let mut s_power = Scalar::one();
        let n = max_degree + 1;
        let mut i: usize = 0;
        while i < n
            invariant
                secret.wf(),
                n == max_degree + 1,
                n < usize::MAX as int + 1,
                i <= n,
                s_power.wf(),
                s_power.val() == pow_mod(secret.val(), i as nat),
                g1_s_vec@.len() == i,
                g2_s_vec@.len() == i,
                forall|j: int|
                    0 <= j < i ==> #[trigger] g1_s_vec@[j] == g1_mul_of(
                        g1,
                        pow_mod(secret.val(), j as nat),
                    ),
                forall|j: int|
                    0 <= j < i ==> #[trigger] g2_s_vec@[j] == g2_mul_of(
                        g2,
                        pow_mod(secret.val(), j as nat),
                    ),
            decreases n - i,
        {
            g1_s_vec.push(g1_mul(&g1, &s_power));
            g2_s_vec.push(g2_mul(&g2, &s_power));
            s_power = crate::scalar::fr_mul(&s_power, secret);
            i += 1;
        }
        PublicParameters { g1, g2, g1_s_vec, g2_s_vec }
    }
}


/// Append a byte string.
fn push_bytes(msg: &mut Vec<u8>, v: &Vec<u8>)
    ensures
        final(msg)@ == old(msg)@ + v@,
{
    let n = v.len();
    for i in 0..n
        invariant
            n == v@.len(),
            msg@ == old(msg)@ + v@.take(i as int),
    {
        msg.push(v[i]);
        proof {
            assert(msg@ =~= old(msg)@ + v@.take(i + 1));
        }
    }
    proof {
        assert(msg@ =~= old(msg)@ + v@);
    }
}

/// Copy a range of a byte string.
fn sub_bytes(v: &Vec<u8>, start: usize, len: usize) -> (r: Vec<u8>)
    requires
        start + len <= v@.len(),
    ensures
        r@ == v@.subrange(start as int, start as int + len as int),
{
    let total = v.len();
    let mut r: Vec<u8> = Vec::new();
    for i in 0..len
        invariant
            total == v@.len(),
            start + len <= total,
            r@ == v@.subrange(start as int, start as int + i as int),
    {
        r.push(v[start + i]);
        proof {
            assert(r@ =~= v@.subrange(start as int, start as int + i as int + 1));
        }
    }
    r
}

/// Append the eight little-endian bytes of a length.
fn push_len(msg: &mut Vec<u8>, n: usize)
    ensures
        final(msg)@ == old(msg)@ + le64(n as nat),
{
    let v = n as u64;
    msg.push((v % 0x100) as u8);
    msg.push(((v / 0x100) % 0x100) as u8);
    msg.push(((v / 0x10000) % 0x100) as u8);
    msg.push(((v / 0x1000000) % 0x100) as u8);
    msg.push(((v / 0x100000000) % 0x100) as u8);
    msg.push(((v / 0x10000000000) % 0x100) as u8);
    msg.push(((v / 0x1000000000000) % 0x100) as u8);
    msg.push(((v / 0x100000000000000) % 0x100) as u8);
    proof {
        assert(msg@ =~= old(msg)@ + le64(n as nat));
    }
}

/// The canonical byte encoding of public parameters: generators first, then
/// each power vector behind its length, every point compressed.
pub fn pp_to_bytes(pp: &PublicParameters) -> (r: Vec<u8>)
    ensures
        r@ == pp_bytes_of(*pp),
{
    let mut msg: Vec<u8> = Vec::new();
    let gb1 = g1_to_bytes(&pp.g1);
    push_bytes(&mut msg, &gb1);
    let gb2 = g2_to_bytes(&pp.g2);
    push_bytes(&mut msg, &gb2);
    push_len(&mut msg, pp.g1_s_vec.len());
    let ghost head = msg@;
    let n = pp.g1_s_vec.len();
    let mut i: usize = 0;
    while i < n
        invariant
            n == pp.g1_s_vec@.len(),
            i <= n,
            msg@ == head + concat_g1_bytes(pp.g1_s_vec@.take(i as int)),
        decreases n - i,
    {
        let pb = g1_to_bytes(&pp.g1_s_vec[i]);
        push_bytes(&mut msg, &pb);
        proof {
            assert(pp.g1_s_vec@.take(i + 1).drop_last() =~= pp.g1_s_vec@.take(i as int));
            assert(pp.g1_s_vec@.take(i + 1).last() == pp.g1_s_vec@[i as int]);
            assert(msg@ =~= head + concat_g1_bytes(pp.g1_s_vec@.take(i + 1)));
        }
        i += 1;
    }
    proof {
        assert(pp.g1_s_vec@.take(n as int) =~= pp.g1_s_vec@);
    }
    push_len(&mut msg, pp.g2_s_vec.len());
    let ghost head2 = msg@;
    let m = pp.g2_s_vec.len();
    let mut j: usize = 0;
    while j < m
        invariant
            m == pp.g2_s_vec@.len(),
            j <= m,
            msg@ == head2 + concat_g2_bytes(pp.g2_s_vec@.take(j as int)),
        decreases m - j,
    {
        let pb = g2_to_bytes(&pp.g2_s_vec[j]);
        push_bytes(&mut msg, &pb);
        proof {
            assert(pp.g2_s_vec@.take(j + 1).drop_last() =~= pp.g2_s_vec@.take(j as int));
            assert(pp.g2_s_vec@.take(j + 1).last() == pp.g2_s_vec@[j as int]);
            assert(msg@ =~= head2 + concat_g2_bytes(pp.g2_s_vec@.take(j + 1)));
        }
        j += 1;
    }
    proof {
        assert(pp.g2_s_vec@.take(m as int) =~= pp.g2_s_vec@);
        assert(msg@ =~= pp_bytes_of(*pp));
    }
    msg
}

/// Decode public parameters from their canonical bytes: it succeeds exactly
/// on well-shaped byte strings, and on success the parameters re-encode to
/// exactly the given bytes — provers and verifiers that accept the same
/// bytes hold the same parameters.
#[verifier::rlimit(100)]
pub fn init_public_parameters(bytes: &Vec<u8>) -> (r: Result<PublicParameters, Error>)
    ensures
        r is Ok <==> pp_wire_ok(bytes@),
        r matches Ok(pp) ==> pp.wf() && pp_bytes_of(pp) == bytes@,
        r matches Err(e) ==> e == Error::SerializationError,
{
    if bytes.len() < 48 + 96 + 8 {
        proof {
            assert(!pp_wire_ok(bytes@)) by {
                if pp_wire_ok(bytes@) {
                    let n = choose|n: nat| #[trigger] pp_wire_witness(bytes@, n);
                }
            }
        }
        return Err(Error::SerializationError);
    }
    let gb1 = sub_bytes(bytes, 0, 48);
    let g1 = match g1_from_bytes(&gb1) {
        Some(p) => p,
        None => {
            proof {
                assert(!pp_wire_ok(bytes@)) by {
                    if pp_wire_ok(bytes@) {
                        let n = choose|n: nat| #[trigger] pp_wire_witness(bytes@, n);
                    }
                }
            }
            return Err(Error::SerializationError);
        },
    };
    let gb2 = sub_bytes(bytes, 48, 96);
    let g2 = match g2_from_bytes(&gb2) {
        Some(p) => p,
        None => {
            proof {
                assert(!pp_wire_ok(bytes@)) by {
                    if pp_wire_ok(bytes@) {
                        let n = choose|n: nat| #[trigger] pp_wire_witness(bytes@, n);
                    }
                }
            }
            return Err(Error::SerializationError);
        },
    };
    let (n1, ok1) = read_len(bytes, 144);
    if !ok1 {
        proof {
            assert(!pp_wire_ok(bytes@)) by {
                if pp_wire_ok(bytes@) {
                    let n = choose|n: nat| #[trigger] pp_wire_witness(bytes@, n);
                    assert(n <= usize::MAX && le64(n) == bytes@.subrange(144, 152));
                }
            }
        }
        return Err(Error::SerializationError);
    }
    proof {
        if pp_wire_ok(bytes@) {
            let n = choose|n: nat| #[trigger] pp_wire_witness(bytes@, n);
            lemma_le64_injective(n, n1 as nat);
            assert(pp_wire_witness(bytes@, n1 as nat));
        }
    }
    let ghost gw = pp_wire_ok(bytes@);
    if n1 < 2 || n1 > (bytes.len() - 152) / 48 {
        proof {
            assert(!gw) by {
                if gw {
                    assert(pp_wire_witness(bytes@, n1 as nat));
                    assert(48 * n1 <= bytes@.len() - 152);
                    assert(n1 <= (bytes@.len() - 152) / 48) by (nonlinear_arith)
                        requires
                            48 * n1 <= bytes@.len() - 152,
                    ;
                }
            }
        }
        return Err(Error::SerializationError);
    }
    let total = bytes.len();
    let mut g1_s_vec: Vec<G1Point> = Vec::new();
    let mut off: usize = 152;
    let mut i: usize = 0;
    while i < n1
        invariant
            total == bytes@.len(),
            total >= 152 + 48 * n1,
            off == 152 + 48 * i,
            i <= n1,
            gw == pp_wire_ok(bytes@),
            gw ==> pp_wire_witness(bytes@, n1 as nat),
            g1_s_vec@.len() == i,
            concat_g1_bytes(g1_s_vec@) == bytes@.subrange(152, off as int),
            forall|k: int|
                0 <= k < i ==> #[trigger] g1_canon(
                    bytes@.subrange(152 + 48 * k, 152 + 48 * k + 48),
                ),
        decreases n1 - i,
    {
        let pb = sub_bytes(bytes, off, 48);
        let p = match g1_from_bytes(&pb) {
            Some(p) => p,
            None => {
                proof {
                    assert(!pp_wire_ok(bytes@)) by {
                        if gw {
                            assert(pp_wire_witness(bytes@, n1 as nat));
                            assert(g1_canon(
                                bytes@.subrange(152 + 48 * i as int, 152 + 48 * i as int + 48),
                            ));
                        }
                    }
                }
                return Err(Error::SerializationError);
            },
        };
        let ghost prev = g1_s_vec@;
        g1_s_vec.push(p);
        proof {
            assert(g1_s_vec@.drop_last() =~= prev);
            assert(g1_s_vec@.last() == p);
            assert(g1_bytes_of(p) == bytes@.subrange(off as int, off as int + 48));
            assert(bytes@.subrange(152, off as int + 48) =~= bytes@.subrange(152, off as int)
                + bytes@.subrange(off as int, off as int + 48));
            assert(concat_g1_bytes(g1_s_vec@) =~= bytes@.subrange(152, off as int + 48));
        }
        off = off + 48;
        i += 1;
    }
    if bytes.len() - off < 8 {
        proof {
            assert(!gw) by {
                if gw {
                    assert(pp_wire_witness(bytes@, n1 as nat));
                }
            }
        }
        return Err(Error::SerializationError);
    }
    let (n2, ok2) = read_len(bytes, off);
    if !ok2 || n2 != n1 {
        proof {
            assert(!gw) by {
                if gw {
                    assert(pp_wire_witness(bytes@, n1 as nat));
                    assert(le64(n1 as nat) == bytes@.subrange(off as int, off as int + 8));
                    assert(ok2);
                    lemma_le64_injective(n1 as nat, n2 as nat);
                }
            }
        }
        return Err(Error::SerializationError);
    }
    let head2 = off + 8;
    if n2 > (bytes.len() - head2) / 96 {
        proof {
            assert(!gw) by {
                if gw {
                    assert(pp_wire_witness(bytes@, n1 as nat));
                    assert(96 * n2 <= bytes@.len() - head2);
                    assert(n2 <= (bytes@.len() - head2) / 96) by (nonlinear_arith)
                        requires
                            96 * n2 <= bytes@.len() - head2,
                    ;
                }
            }
        }
        return Err(Error::SerializationError);
    }
    let mut g2_s_vec: Vec<G2Point> = Vec::new();
    let mut off2: usize = head2;
    let mut j: usize = 0;
    while j < n2
        invariant
            total == bytes@.len(),
            total >= head2 + 96 * n2,
            head2 == 152 + 48 * n1 + 8,
            n2 == n1,
            off2 == head2 + 96 * j,
            j <= n2,
            gw == pp_wire_ok(bytes@),
            gw ==> pp_wire_witness(bytes@, n1 as nat),
            g2_s_vec@.len() == j,
            concat_g2_bytes(g2_s_vec@) == bytes@.subrange(head2 as int, off2 as int),
            forall|k: int|
                0 <= k < j ==> #[trigger] g2_canon(
                    bytes@.subrange(
                        160 + 48 * n1 as int + 96 * k,
                        160 + 48 * n1 as int + 96 * k + 96,
                    ),
                ),
        decreases n2 - j,
    {
        let pb = sub_bytes(bytes, off2, 96);
        let p = match g2_from_bytes(&pb) {
            Some(p) => p,
            None => {
                proof {
                    assert(!pp_wire_ok(bytes@)) by {
                        if gw {
                            assert(pp_wire_witness(bytes@, n1 as nat));
                            assert(g2_canon(
                                bytes@.subrange(
                                    160 + 48 * n1 as int + 96 * j as int,
                                    160 + 48 * n1 as int + 96 * j as int + 96,
                                ),
                            ));
                            assert(pb@ == bytes@.subrange(
                                160 + 48 * n1 as int + 96 * j as int,
                                160 + 48 * n1 as int + 96 * j as int + 96,
                            ));
                        }
                    }
                }
                return Err(Error::SerializationError);
            },
        };
        let ghost prev = g2_s_vec@;
        g2_s_vec.push(p);
        proof {
            assert(g2_s_vec@.drop_last() =~= prev);
            assert(g2_s_vec@.last() == p);
            assert(g2_bytes_of(p) == bytes@.subrange(off2 as int, off2 as int + 96));
            assert(bytes@.subrange(head2 as int, off2 as int + 96) =~= bytes@.subrange(
                head2 as int,
                off2 as int,
            ) + bytes@.subrange(off2 as int, off2 as int + 96));
            assert(concat_g2_bytes(g2_s_vec@) =~= bytes@.subrange(head2 as int, off2 as int + 96));
        }
        off2 = off2 + 96;
        j += 1;
    }
    if off2 != bytes.len() {
        proof {
            assert(!gw) by {
                if gw {
                    assert(pp_wire_witness(bytes@, n1 as nat));
                }
            }
        }
        return Err(Error::SerializationError);
    }
    let pp = PublicParameters { g1, g2, g1_s_vec, g2_s_vec };
    proof {
        assert(pp_bytes_of(pp) =~= bytes@);
        assert(pp_wire_witness(bytes@, n1 as nat));
        assert(pp_wire_ok(bytes@));
    }
    Ok(pp)
}

/// Read an eight-byte little-endian length whose canonical form matches the
/// bytes read; it succeeds exactly on fields that encode a length the
/// machine can address.
fn read_len(bytes: &Vec<u8>, start: usize) -> (r: (usize, bool))
    requires
        start + 8 <= bytes@.len(),
    ensures
        r.1 <==> exists|n: nat|
            #![trigger le64(n)]
            n <= usize::MAX && le64(n) == bytes@.subrange(start as int, start as int + 8),
        r.1 ==> le64(r.0 as nat) == bytes@.subrange(start as int, start as int + 8),
{
    let raw = sub_bytes(bytes, start, 8);
    let v: u64 = (raw[0] as u64) + (raw[1] as u64) * 0x100 + (raw[2] as u64) * 0x10000 + (
    raw[3] as u64) * 0x1000000 + (raw[4] as u64) * 0x100000000 + (raw[5] as u64) * 0x10000000000 + (
    raw[6] as u64) * 0x1000000000000 + (raw[7] as u64) * 0x100000000000000;
    proof {
        assert(v == le_val8(raw@));
        if exists|n: nat|
            #![trigger le64(n)]
            n <= usize::MAX && le64(n) == bytes@.subrange(start as int, start as int + 8) {
            let n = choose|n: nat|
                #![trigger le64(n)]
                n <= usize::MAX && le64(n) == bytes@.subrange(start as int, start as int + 8);
            lemma_le64_roundtrip(n);
            assert(le_val8(le64(n)) == n);
            assert(v == n);
        }
    }
    if v > (usize::MAX as u64) {
        proof {
            lemma_le64_roundtrip(v as nat);
        }
        return (0, false);
    }
    let n = v as usize;
    let mut check: Vec<u8> = Vec::new();
    push_len(&mut check, n);
    let ok = crate::bytestr::bytes_eq(&check, &raw);
    proof {
        if ok {
            assert(le64(n as nat) == raw@);
        } else {
            if exists|m: nat|
                #![trigger le64(m)]
                m <= usize::MAX && le64(m) == bytes@.subrange(start as int, start as int + 8) {
                let m = choose|m: nat|
                    #![trigger le64(m)]
                    m <= usize::MAX && le64(m) == bytes@.subrange(start as int, start as int + 8);
                lemma_le64_roundtrip(m);
                assert(v == m);
                assert(check@ == le64(n as nat));
                assert(check@ == raw@);
            }
        }
    }
    (n, ok)
}

} // verus!
