//! Curve points and pairings of BLS12-381. The `ark` point types carry trait
//! parameters Verus cannot declare, so each is held inside an opaque wrapper
//! struct; every operation of `ark_ec` / `ark_ff` / `ark_serialize` that the
//! library relies on stands behind a trusted function. Since every operation
//! is a pure function of its arguments, its result is given a name that
//! contracts can share.

use vstd::prelude::*;

use crate::scalar::Scalar;
use ark_bls12_381::{Bls12_381, Fq12, G1Affine, G2Affine};
use ark_ec::{AffineCurve, PairingEngine, ProjectiveCurve};
use ark_ff::BigInteger256;
use ark_serialize::{CanonicalDeserialize, CanonicalSerialize};

verus! {

/// A point of the first pairing group, opaque to verification.
#[verifier::external_body]
#[derive(Debug)]
pub struct G1Point {
    inner: G1Affine,
}

/// A point of the second pairing group, opaque to verification.
#[verifier::external_body]
#[derive(Debug)]
pub struct G2Point {
    inner: G2Affine,
}

/// An element of the pairing target field, opaque to verification.
#[verifier::external_body]
#[derive(Debug)]
pub struct GtValue {
    inner: Fq12,
}

/// What scalar multiplication in the first group returns.
pub uninterp spec fn g1_mul_of(p: G1Point, k: nat) -> G1Point;

/// What scalar multiplication in the second group returns.
pub uninterp spec fn g2_mul_of(p: G2Point, k: nat) -> G2Point;

/// What point addition in the first group returns.
pub uninterp spec fn g1_add_of(a: G1Point, b: G1Point) -> G1Point;

/// What point addition in the second group returns.
pub uninterp spec fn g2_add_of(a: G2Point, b: G2Point) -> G2Point;

/// What the bilinear pairing returns.
pub uninterp spec fn pairing_of(a: G1Point, b: G2Point) -> GtValue;

/// What multiplication in the pairing target field returns.
pub uninterp spec fn gt_mul_of(a: GtValue, b: GtValue) -> GtValue;

/// What a multi-scalar multiplication over the first group returns.
pub uninterp spec fn msm_g1_of(bases: Seq<G1Point>, scalars: Seq<nat>) -> G1Point;

/// What a multi-scalar multiplication over the second group returns.
pub uninterp spec fn msm_g2_of(bases: Seq<G2Point>, scalars: Seq<nat>) -> G2Point;

/// The canonical compressed encoding of a point of the first group.
pub uninterp spec fn g1_bytes_of(p: G1Point) -> Seq<u8>;

/// The canonical compressed encoding of a point of the second group.
pub uninterp spec fn g2_bytes_of(p: G2Point) -> Seq<u8>;

/// The values of a sequence of scalars.
pub open spec fn scalar_vals(s: Seq<Scalar>) -> Seq<nat> {
    s.map_values(|x: Scalar| x.val())
}

/// All scalars of a sequence are in canonical form.
pub open spec fn scalars_wf(s: Seq<Scalar>) -> bool {
    forall|i: int| 0 <= i < s.len() ==> #[trigger] s[i].wf()
}

/// Relies on `ark_ec::AffineCurve::prime_subgroup_generator`.
#[verifier::external_body]
pub fn g1_generator() -> G1Point {
    G1Point { inner: G1Affine::prime_subgroup_generator() }
}

/// Relies on `ark_ec::AffineCurve::prime_subgroup_generator`.
#[verifier::external_body]
pub fn g2_generator() -> G2Point {
    G2Point { inner: G2Affine::prime_subgroup_generator() }
}

/// Relies on the derived `Clone` of `ark_ec`'s affine points, which copies.
#[verifier::external_body]
pub fn g1_clone(p: &G1Point) -> (r: G1Point)
    ensures
        r == *p,
{
    G1Point { inner: p.inner }
}

/// Relies on the derived `Clone` of `ark_ec`'s affine points, which copies.
#[verifier::external_body]
pub fn g2_clone(p: &G2Point) -> (r: G2Point)
    ensures
        r == *p,
{
    G2Point { inner: p.inner }
}

/// Relies on the derived `PartialEq` of `ark_ec`'s affine points: affine
/// coordinates are unique, so it decides equality of the points.
#[verifier::external_body]
pub fn g1_eq(a: &G1Point, b: &G1Point) -> (r: bool)
    ensures
        r == (a == b),
{
    a.inner == b.inner
}

/// Relies on the derived `PartialEq` of `ark_ec`'s affine points: affine
/// coordinates are unique, so it decides equality of the points.
#[verifier::external_body]
pub fn g2_eq(a: &G2Point, b: &G2Point) -> (r: bool)
    ensures
        r == (a == b),
{
    a.inner == b.inner
}

/// Relies on `ark_ec::AffineCurve::mul`, scalar multiplication by a canonical
/// big integer.
#[verifier::external_body]
pub fn g1_mul(p: &G1Point, k: &Scalar) -> (r: G1Point)
    requires
        k.wf(),
    ensures
        r == g1_mul_of(*p, k.val()),
{
    G1Point { inner: p.inner.mul(BigInteger256::new([k.l0, k.l1, k.l2, k.l3])).into_affine() }
}

/// Relies on `ark_ec::AffineCurve::mul`, scalar multiplication by a canonical
/// big integer.
#[verifier::external_body]
pub fn g2_mul(p: &G2Point, k: &Scalar) -> (r: G2Point)
    requires
        k.wf(),
    ensures
        r == g2_mul_of(*p, k.val()),
{
    G2Point { inner: p.inner.mul(BigInteger256::new([k.l0, k.l1, k.l2, k.l3])).into_affine() }
}

/// Relies on `ark_ec`'s projective group addition.
#[verifier::external_body]
pub fn g1_add(a: &G1Point, b: &G1Point) -> (r: G1Point)
    ensures
        r == g1_add_of(*a, *b),
{
    G1Point { inner: (a.inner.into_projective() + b.inner.into_projective()).into_affine() }
}

/// Relies on `ark_ec`'s projective group addition.
#[verifier::external_body]
pub fn g2_add(a: &G2Point, b: &G2Point) -> (r: G2Point)
    ensures
        r == g2_add_of(*a, *b),
{
    G2Point { inner: (a.inner.into_projective() + b.inner.into_projective()).into_affine() }
}

/// Relies on `ark_ec::PairingEngine::pairing` for BLS12-381.
#[verifier::external_body]
pub fn pairing(a: &G1Point, b: &G2Point) -> (r: GtValue)
    ensures
        r == pairing_of(*a, *b),
{
    GtValue { inner: Bls12_381::pairing(a.inner, b.inner) }
}

/// Relies on `ark_ff`'s multiplication in the pairing target field.
#[verifier::external_body]
pub fn gt_mul(a: &GtValue, b: &GtValue) -> (r: GtValue)
    ensures
        r == gt_mul_of(*a, *b),
{
    GtValue { inner: a.inner * b.inner }
}

/// Relies on the derived `PartialEq` of `ark_ff`'s tower fields: elements are
/// held in a canonical form, so it decides equality of the values.
#[verifier::external_body]
pub fn gt_eq(a: &GtValue, b: &GtValue) -> (r: bool)
    ensures
        r == (a == b),
{
    a.inner == b.inner
}

/// Relies on `ark_ec::msm::VariableBaseMSM::multi_scalar_mul` over canonical
/// scalar representations.
#[verifier::external_body]
pub fn msm_g1(bases: &Vec<G1Point>, scalars: &Vec<Scalar>) -> (r: G1Point)
    requires
        bases@.len() == scalars@.len(),
        scalars_wf(scalars@),
    ensures
        r == msm_g1_of(bases@, scalar_vals(scalars@)),
{
    let bs: Vec<G1Affine> = bases.iter().map(|p| p.inner).collect();
    let ks: Vec<BigInteger256> =
        scalars.iter().map(|k| BigInteger256::new([k.l0, k.l1, k.l2, k.l3])).collect();
    G1Point { inner: ark_ec::msm::VariableBaseMSM::multi_scalar_mul(&bs[..], &ks[..]).into_affine() }
}

/// Relies on `ark_ec::msm::VariableBaseMSM::multi_scalar_mul` over canonical
/// scalar representations.
#[verifier::external_body]
pub fn msm_g2(bases: &Vec<G2Point>, scalars: &Vec<Scalar>) -> (r: G2Point)
    requires
        bases@.len() == scalars@.len(),
        scalars_wf(scalars@),
    ensures
        r == msm_g2_of(bases@, scalar_vals(scalars@)),
{
    let bs: Vec<G2Affine> = bases.iter().map(|p| p.inner).collect();
    let ks: Vec<BigInteger256> =
        scalars.iter().map(|k| BigInteger256::new([k.l0, k.l1, k.l2, k.l3])).collect();
    G2Point { inner: ark_ec::msm::VariableBaseMSM::multi_scalar_mul(&bs[..], &ks[..]).into_affine() }
}

/// Relies on `ark_serialize::CanonicalSerialize` for affine points: the
/// compressed canonical encoding, 48 bytes for the first group.
#[verifier::external_body]
pub fn g1_to_bytes(p: &G1Point) -> (r: Vec<u8>)
    ensures
        r@ == g1_bytes_of(*p),
        r@.len() == 48,
{
    let mut buf = Vec::new();
    p.inner.serialize(&mut buf).unwrap();
    buf
}

/// Relies on `ark_serialize::CanonicalSerialize` for affine points: the
/// compressed canonical encoding, 96 bytes for the second group.
#[verifier::external_body]
pub fn g2_to_bytes(p: &G2Point) -> (r: Vec<u8>)
    ensures
        r@ == g2_bytes_of(*p),
        r@.len() == 96,
{
    let mut buf = Vec::new();
    p.inner.serialize(&mut buf).unwrap();
    buf
}

/// What decoding a compressed point of the first group returns.
pub uninterp spec fn g1_decode_of(bytes: Seq<u8>) -> Option<G1Point>;

/// What decoding a compressed point of the second group returns.
pub uninterp spec fn g2_decode_of(bytes: Seq<u8>) -> Option<G2Point>;

/// Relies on `ark_serialize::CanonicalDeserialize` for affine points: the
/// decode is a function of the bytes alone; nothing more is assumed of it.
#[verifier::external_body]
fn g1_decode(bytes: &Vec<u8>) -> (r: Option<G1Point>)
    ensures
        r == g1_decode_of(bytes@),
{
    match G1Affine::deserialize(&bytes[..]) {
        Ok(p) => Some(G1Point { inner: p }),
        Err(_) => None,
    }
}

/// Relies on `ark_serialize::CanonicalDeserialize` for affine points: the
/// decode is a function of the bytes alone; nothing more is assumed of it.
#[verifier::external_body]
fn g2_decode(bytes: &Vec<u8>) -> (r: Option<G2Point>)
    ensures
        r == g2_decode_of(bytes@),
{
    match G2Affine::deserialize(&bytes[..]) {
        Ok(p) => Some(G2Point { inner: p }),
        Err(_) => None,
    }
}

/// Bytes that decode to a point of the first group and are that point's
/// canonical encoding.
pub open spec fn g1_canon(b: Seq<u8>) -> bool {
    g1_decode_of(b) matches Some(p) && g1_bytes_of(p) == b
}

/// Bytes that decode to a point of the second group and are that point's
/// canonical encoding.
pub open spec fn g2_canon(b: Seq<u8>) -> bool {
    g2_decode_of(b) matches Some(p) && g2_bytes_of(p) == b
}

/// Decode a point of the first group and accept it only when it re-encodes
/// to exactly the given bytes: the decoder alone also accepts a non-zero
/// field element under the infinity flag, which this check rejects.
pub fn g1_from_bytes(bytes: &Vec<u8>) -> (r: Option<G1Point>)
    ensures
        r is Some <==> g1_canon(bytes@),
        r matches Some(p) ==> g1_decode_of(bytes@) == Some(p) && g1_bytes_of(p) == bytes@,
{
    let p = match g1_decode(bytes) {
        Some(p) => p,
        None => {
            return None;
        },
    };
    let enc = g1_to_bytes(&p);
    if crate::bytestr::bytes_eq(&enc, bytes) {
        Some(p)
    } else {
        None
    }
}

/// Decode a point of the second group and accept it only when it re-encodes
/// to exactly the given bytes.
pub fn g2_from_bytes(bytes: &Vec<u8>) -> (r: Option<G2Point>)
    ensures
        r is Some <==> g2_canon(bytes@),
        r matches Some(p) ==> g2_decode_of(bytes@) == Some(p) && g2_bytes_of(p) == bytes@,
{
    let p = match g2_decode(bytes) {
        Some(p) => p,
        None => {
            return None;
        },
    };
    let enc = g2_to_bytes(&p);
    if crate::bytestr::bytes_eq(&enc, bytes) {
        Some(p)
    } else {
        None
    }
}

} // verus!
