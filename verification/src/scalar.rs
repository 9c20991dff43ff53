//! Elements of the BLS12-381 scalar field, held as four canonical
//! little-endian 64-bit limbs so that contracts can speak of their integer
//! value. Arithmetic is delegated to `ark_ff`'s `Fp256` behind trusted
//! wrappers whose contracts state the exact modular result.

use vstd::prelude::*;

use ark_bls12_381::Fr;
use ark_ff::{BigInteger256, PrimeField};

verus! {

/// The order of the BLS12-381 scalar field.
pub open spec fn fr_modulus() -> nat {
    52435875175126190479447740508185965837690552500527637822603658699938581184513nat
}

/// Two to the 248th power: digests are truncated below this bound before they
/// become field elements, so distinct digests stay distinct.
pub open spec fn digest_truncation_bound() -> nat {
    0x100000000000000000000000000000000000000000000000000000000000000nat
}

/// A scalar field element in canonical form: its integer value is
/// `l0 + l1*2^64 + l2*2^128 + l3*2^192`, always below the field order.
#[derive(Debug, Clone, Copy)]
pub struct Scalar {
    pub l0: u64,
    pub l1: u64,
    pub l2: u64,
    pub l3: u64,
}

impl Scalar {
    /// The integer value of the four limbs.
    pub open spec fn val(self) -> nat {
        (self.l0 as nat) + (self.l1 as nat) * 0x10000000000000000nat + (self.l2 as nat)
            * 0x100000000000000000000000000000000nat + (self.l3 as nat)
            * 0x1000000000000000000000000000000000000000000000000nat
    }

    /// Canonical form: the value is reduced modulo the field order.
    pub open spec fn wf(self) -> bool {
        self.val() < fr_modulus()
    }

    /// The zero element.
    pub fn zero() -> (r: Scalar)
        ensures
            r.val() == 0,
            r.wf(),
    {
        Scalar { l0: 0, l1: 0, l2: 0, l3: 0 }
    }

    /// The one element.
    pub fn one() -> (r: Scalar)
        ensures
            r.val() == 1,
            r.wf(),
    {
        Scalar { l0: 1, l1: 0, l2: 0, l3: 0 }
    }

    pub fn is_zero(&self) -> (r: bool)
        ensures
            r == (self.val() == 0),
    {
        self.l0 == 0 && self.l1 == 0 && self.l2 == 0 && self.l3 == 0
    }

    pub fn eq_scalar(&self, other: &Scalar) -> (r: bool)
        ensures
            r == (*self == *other),
    {
        self.l0 == other.l0 && self.l1 == other.l1 && self.l2 == other.l2 && self.l3 == other.l3
    }
}

/// Relies on `ark_ff::PrimeField::from_repr` / `into_repr`: a canonical value
/// below the modulus round-trips through `Fp256` unchanged, and addition in
/// the field is addition of the values modulo the field order.
#[verifier::external_body]
pub fn fr_add(a: &Scalar, b: &Scalar) -> (r: Scalar)
    requires
        a.wf(),
        b.wf(),
    ensures
        r.wf(),
        r.val() == (a.val() + b.val()) % fr_modulus(),
{
    let x = Fr::from_repr(BigInteger256::new([a.l0, a.l1, a.l2, a.l3])).unwrap();
    let y = Fr::from_repr(BigInteger256::new([b.l0, b.l1, b.l2, b.l3])).unwrap();
    let z = (x + y).into_repr().0;
    Scalar { l0: z[0], l1: z[1], l2: z[2], l3: z[3] }
}

/// Relies on `ark_ff`'s `Fp256` subtraction: the result value is the
/// difference of the values modulo the field order.
#[verifier::external_body]
pub fn fr_sub(a: &Scalar, b: &Scalar) -> (r: Scalar)
    requires
        a.wf(),
        b.wf(),
    ensures
        r.wf(),
        r.val() == ((a.val() + fr_modulus()) - b.val()) % (fr_modulus() as int),
{
    let x = Fr::from_repr(BigInteger256::new([a.l0, a.l1, a.l2, a.l3])).unwrap();
    let y = Fr::from_repr(BigInteger256::new([b.l0, b.l1, b.l2, b.l3])).unwrap();
    let z = (x - y).into_repr().0;
    Scalar { l0: z[0], l1: z[1], l2: z[2], l3: z[3] }
}

/// Relies on `ark_ff`'s `Fp256` multiplication: the result value is the
/// product of the values modulo the field order.
#[verifier::external_body]
pub fn fr_mul(a: &Scalar, b: &Scalar) -> (r: Scalar)
    requires
        a.wf(),
        b.wf(),
    ensures
        r.wf(),
        r.val() == (a.val() * b.val()) % fr_modulus(),
{
    let x = Fr::from_repr(BigInteger256::new([a.l0, a.l1, a.l2, a.l3])).unwrap();
    let y = Fr::from_repr(BigInteger256::new([b.l0, b.l1, b.l2, b.l3])).unwrap();
    let z = (x * y).into_repr().0;
    Scalar { l0: z[0], l1: z[1], l2: z[2], l3: z[3] }
}

/// Relies on `ark_ff::Field::inverse`: it returns `None` exactly on zero, and
/// otherwise the multiplicative inverse in the field.
#[verifier::external_body]
pub fn fr_inverse(a: &Scalar) -> (r: Option<Scalar>)
    requires
        a.wf(),
    ensures
        r is Some <==> a.val() != 0,
        r matches Some(inv) ==> inv.wf() && (inv.val() * a.val()) % fr_modulus() == 1,
{
    let x = Fr::from_repr(BigInteger256::new([a.l0, a.l1, a.l2, a.l3])).unwrap();
    match ark_ff::Field::inverse(&x) {
        Some(i) => {
            let z = i.into_repr().0;
            Some(Scalar { l0: z[0], l1: z[1], l2: z[2], l3: z[3] })
        },
        None => None,
    }
}

/// Relies on `ark_ff`'s `From<u128>` for `Fp256`: the value is reduced into
/// the field; a `u128` is already below the modulus, so it is kept as is.
#[verifier::external_body]
pub fn fr_from_u128(x: u128) -> (r: Scalar)
    ensures
        r.wf(),
        r.val() == x,
{
    let z = Fr::from(x).into_repr().0;
    Scalar { l0: z[0], l1: z[1], l2: z[2], l3: z[3] }
}

/// The integer a big-endian byte string denotes.
pub open spec fn be_bytes_val(s: Seq<u8>) -> nat
    decreases s.len(),
{
    if s.len() == 0 {
        0
    } else {
        be_bytes_val(s.drop_last()) * 256 + (s.last() as nat)
    }
}

/// Relies on `ark_ff::PrimeField::from_be_bytes_mod_order`: the bytes are
/// read big-endian and reduced modulo the field order.
#[verifier::external_body]
pub fn fr_from_be_bytes_mod(bytes: &Vec<u8>) -> (r: Scalar)
    ensures
        r.wf(),
        r.val() == be_bytes_val(bytes@) % fr_modulus(),
{
    let z = Fr::from_be_bytes_mod_order(bytes.as_slice()).into_repr().0;
    Scalar { l0: z[0], l1: z[1], l2: z[2], l3: z[3] }
}

/// What a digest reduces to: read big-endian, reduced modulo the field order,
/// then truncated to 248 bits.
pub open spec fn reduced_digest_val(d: Seq<u8>) -> nat {
    (be_bytes_val(d) % fr_modulus()) % digest_truncation_bound()
}

/// Reduce a digest into the scalar field: big-endian reduction followed by
/// truncation to 248 bits, so the mapping cannot wrap around the modulus.
pub fn digest_to_scalar(digest: &Vec<u8>) -> (r: Scalar)
    ensures
        r.wf(),
        r.val() == reduced_digest_val(digest@),
{
    let s = fr_from_be_bytes_mod(digest);
    let masked = s.l3 & 0x00ff_ffff_ffff_ffffu64;
    proof {
        lemma_truncate_limb(s.l0, s.l1, s.l2, s.l3);
    }
    Scalar { l0: s.l0, l1: s.l1, l2: s.l2, l3: masked }
}

/// Masking the top limb to its low 56 bits truncates the four-limb value to
/// its low 248 bits, and the truncated value is no larger than the original.
proof fn lemma_truncate_limb(l0: u64, l1: u64, l2: u64, l3: u64)
    ensures
        (Scalar { l0, l1, l2, l3: l3 & 0x00ff_ffff_ffff_ffffu64 }).val() == (Scalar {
            l0,
            l1,
            l2,
            l3,
        }).val() % digest_truncation_bound(),
        (Scalar { l0, l1, l2, l3: l3 & 0x00ff_ffff_ffff_ffffu64 }).val() <= (Scalar {
            l0,
            l1,
            l2,
            l3,
        }).val(),
{
    let low = (Scalar { l0, l1, l2, l3: 0u64 }).val();
    let m: u64 = l3 & 0x00ff_ffff_ffff_ffffu64;
    assert(l3 & 0x00ff_ffff_ffff_ffffu64 == l3 % 0x100000000000000) by (bit_vector);
    assert((l3 & 0x00ff_ffff_ffff_ffffu64) <= l3) by (bit_vector);
    let t = digest_truncation_bound();
    let b192: nat = 0x1000000000000000000000000000000000000000000000000nat;
    assert(low < b192) by {
        assert(l0 < 0x10000000000000000);
        assert(l1 * 0x10000000000000000nat <= 0xffffffffffffffff * 0x10000000000000000);
        assert(l2 * 0x100000000000000000000000000000000nat <= 0xffffffffffffffff
            * 0x100000000000000000000000000000000);
    }
    let full = (Scalar { l0, l1, l2, l3 }).val();
    let masked = (Scalar { l0, l1, l2, l3: m }).val();
    assert(full == low + l3 * b192);
    assert(masked == low + m * b192);
    let q = l3 / 0x100000000000000;
    assert(l3 == q * 0x100000000000000 + m) by {
        vstd::arithmetic::div_mod::lemma_fundamental_div_mod(l3 as int, 0x100000000000000);
    }
    assert(l3 * b192 == q * t + m * b192) by (nonlinear_arith)
        requires l3 == q * 0x100000000000000 + m, t == 0x100000000000000 * b192;
    assert(masked < t) by {
        assert(m <= 0x00ff_ffff_ffff_ffffu64) by (bit_vector)
            requires m == l3 & 0x00ff_ffff_ffff_ffffu64;
        assert(m * b192 <= 0x00ffffffffffffff * b192) by (nonlinear_arith)
            requires m <= 0x00ffffffffffffff;
    }
    assert(full == q * t + masked);
    assert(full % t == masked) by (nonlinear_arith)
        requires full == q * t + masked, masked < t, t > 0;
    assert(m * b192 <= l3 * b192) by (nonlinear_arith)
        requires m <= l3;
}

} // verus!
