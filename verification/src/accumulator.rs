//! The dynamic accumulator: a commitment `g1^{P(s)}` to a set, where `P` has
//! the set's digests as roots. Commitments are computed from the public
//! parameters by multi-scalar multiplication; the trapdoor operations take
//! the trapdoor as an explicit argument and exist for the manager and test
//! paths only.

use vstd::prelude::*;

use crate::group::{
    g1_clone, g1_generator, g1_mul, g1_mul_of, g2_clone, msm_g1, msm_g1_of, msm_g2, msm_g2_of,
    scalar_vals, scalars_wf, G1Point, G2Point,
};
use crate::hashes::{sha256, sha256_of};
use crate::keyset::KeySet;
use crate::params::PublicParameters;
use crate::poly::{
    bezout_combo, expand_from_roots, linear_of, mul_mod, one_poly, poly_divmod_raw,
    poly_from_roots, solve_bezout, sub_mod,
};
use crate::scalar::{digest_to_scalar, fr_inverse, fr_modulus, fr_sub, reduced_digest_val, Scalar};
use crate::Error;
use vstd::string::StrSliceExecFns;

verus! {

/// The field element a key hashes to.
pub open spec fn key_scalar(kb: Seq<u8>) -> nat {
    reduced_digest_val(sha256_of(kb))
}

/// The field elements of a sequence of keys.
pub open spec fn key_scalars(q: Seq<Seq<u8>>) -> Seq<nat> {
    q.map_values(|kb: Seq<u8>| key_scalar(kb))
}

/// The characteristic polynomial of a set of keys, in canonical order.
pub open spec fn commit_poly(q: Seq<Seq<u8>>) -> Seq<nat> {
    poly_from_roots(key_scalars(q))
}

/// The indices of the nonzero coefficients, ascending.
pub open spec fn sel_indices(q: Seq<nat>) -> Seq<int>
    decreases q.len(),
{
    if q.len() == 0 {
        Seq::<int>::empty()
    } else if q.last() != 0 {
        sel_indices(q.drop_last()).push(q.len() - 1)
    } else {
        sel_indices(q.drop_last())
    }
}

/// The bases picked out of the first group's parameter powers.
pub open spec fn sel_bases_g1(v: Seq<G1Point>, idx: Seq<int>) -> Seq<G1Point> {
    idx.map_values(|i: int| v[i])
}

/// The bases picked out of the second group's parameter powers.
pub open spec fn sel_bases_g2(v: Seq<G2Point>, idx: Seq<int>) -> Seq<G2Point> {
    idx.map_values(|i: int| v[i])
}

/// The coefficients picked out of a polynomial.
pub open spec fn sel_scalars(q: Seq<nat>, idx: Seq<int>) -> Seq<nat> {
    idx.map_values(|i: int| q[i])
}

/// The commitment of a polynomial in the first group: the multi-scalar
/// multiplication of its nonzero coefficients with the matching powers.
pub open spec fn commit_of_poly_g1(pp: PublicParameters, q: Seq<nat>) -> G1Point {
    msm_g1_of(sel_bases_g1(pp.g1_s_vec@, sel_indices(q)), sel_scalars(q, sel_indices(q)))
}

/// The commitment of a polynomial in the second group.
pub open spec fn commit_of_poly_g2(pp: PublicParameters, q: Seq<nat>) -> G2Point {
    msm_g2_of(sel_bases_g2(pp.g2_s_vec@, sel_indices(q)), sel_scalars(q, sel_indices(q)))
}

/// The commitment of a set of keys in the first group.
pub open spec fn commit_g1_value(pp: PublicParameters, kb: Seq<Seq<u8>>) -> G1Point {
    commit_of_poly_g1(pp, commit_poly(kb))
}

/// The commitment of a set of keys in the second group.
pub open spec fn commit_g2_value(pp: PublicParameters, kb: Seq<Seq<u8>>) -> G2Point {
    commit_of_poly_g2(pp, commit_poly(kb))
}

/// The commitment of a set of keys, listed canonically.
pub open spec fn commit_of_set(pp: PublicParameters, s: Set<Seq<u8>>) -> G1Point {
    commit_g1_value(pp, crate::bytestr::canon_seq(s))
}

/// Digest every key of a set into the scalar field, in canonical order.
pub fn digest_set_from_set(keys: &KeySet) -> (r: Vec<Scalar>)
    ensures
        scalars_wf(r@),
        scalar_vals(r@) == key_scalars(keys.byte_seq()),
{
    let items = keys.elems();
    let ghost kb = keys.byte_seq();
    let n = items.len();
    let mut r: Vec<Scalar> = Vec::new();
    let mut i: usize = 0;
    while i < n
        invariant
            n == items@.len(),
            kb == items@.map_values(|s: String| crate::keyset::str_bytes(s@)),
            i <= n,
            scalars_wf(r@),
            r@.len() == i,
            forall|j: int| 0 <= j < i ==> (#[trigger] r@[j]).val() == key_scalar(kb[j]),
        decreases n - i,
    {
        let b = items[i].as_str().as_bytes_vec();
        assert(b@ == kb[i as int]);
        let d = sha256(&b);
        let s = digest_to_scalar(&d);
        r.push(s);
        i += 1;
    }
    proof {
        assert forall|j: int| 0 <= j < n implies scalar_vals(r@)[j] == key_scalars(kb)[j] by {
            assert(scalar_vals(r@)[j] == r@[j].val());
        }
        assert(scalar_vals(r@) =~= key_scalars(kb));
    }
    r
}

/// Commit a polynomial in the first group: pick the nonzero coefficients,
/// pair them with the parameter powers of matching index, and take one
/// multi-scalar multiplication. Out of range only when the polynomial is
/// longer than the parameter vector.
pub fn poly_to_g1(pp: &PublicParameters, poly: &Vec<Scalar>) -> (r: Result<G1Point, Error>)
    requires
        scalars_wf(poly@),
    ensures
        r is Ok <==> poly@.len() <= pp.g1_s_vec@.len(),
        r matches Ok(p) ==> p == commit_of_poly_g1(*pp, scalar_vals(poly@)),
        r matches Err(e) ==> e == Error::ParamsOutOfRange,
{
    if poly.len() > pp.g1_s_vec.len() {
        return Err(Error::ParamsOutOfRange);
    }
    let ghost pv = scalar_vals(poly@);
    let n = poly.len();
    let mut bases: Vec<G1Point> = Vec::new();
    let mut scalars: Vec<Scalar> = Vec::new();
    let ghost mut gsel: Seq<int> = Seq::<int>::empty();
    let mut i: usize = 0;
    proof {
        assert(pv.take(0) =~= Seq::<nat>::empty());
        assert(gsel =~= sel_indices(pv.take(0)));
    }
    while i < n
        invariant
            n == poly@.len() == pv.len(),
            pv == scalar_vals(poly@),
            scalars_wf(poly@),
            n <= pp.g1_s_vec@.len(),
            i <= n,
            scalars_wf(scalars@),
            gsel == sel_indices(pv.take(i as int)),
            bases@.len() == gsel.len(),
            scalars@.len() == gsel.len(),
            forall|j: int| 0 <= j < gsel.len() ==> 0 <= #[trigger] gsel[j] < i,
            forall|j: int| 0 <= j < gsel.len() ==> #[trigger] bases@[j] == pp.g1_s_vec@[gsel[j]],
            forall|j: int|
                0 <= j < gsel.len() ==> (#[trigger] scalars@[j]).val() == pv[gsel[j]],
        decreases n - i,
    {
        proof {
            assert(pv.take(i + 1).drop_last() =~= pv.take(i as int));
            assert(pv.take(i + 1).last() == pv[i as int]);
        }
        if !poly[i].is_zero() {
            let ghost ob = bases@;
            let ghost os = scalars@;
            bases.push(g1_clone(&pp.g1_s_vec[i]));
            scalars.push(poly[i]);
            proof {
                gsel = gsel.push(i as int);
                assert(gsel =~= sel_indices(pv.take(i + 1)));
                assert forall|j: int| 0 <= j < gsel.len() implies #[trigger] bases@[j]
                    == pp.g1_s_vec@[gsel[j]] by {
                    if j < ob.len() {
                        assert(bases@[j] == ob[j]);
                        assert(gsel[j] == sel_indices(pv.take(i as int))[j]);
                    }
                }
                assert forall|j: int| 0 <= j < gsel.len() implies (#[trigger] scalars@[j]).val()
                    == pv[gsel[j]] by {
                    if j < os.len() {
                        assert(scalars@[j] == os[j]);
                    }
                }
            }
        } else {
            proof {
                assert(gsel =~= sel_indices(pv.take(i + 1)));
            }
        }
        i += 1;
    }
    proof {
        assert(pv.take(n as int) =~= pv);
        assert(gsel == sel_indices(pv));
        assert(bases@ =~= sel_bases_g1(pp.g1_s_vec@, gsel));
        assert(scalar_vals(scalars@).len() == scalars@.len());
        assert forall|j: int| 0 <= j < scalars@.len() implies scalar_vals(scalars@)[j]
            == sel_scalars(pv, gsel)[j] by {
            assert(scalar_vals(scalars@)[j] == scalars@[j].val());
            assert(sel_scalars(pv, gsel)[j] == pv[gsel[j]]);
        }
        assert(scalar_vals(scalars@) =~= sel_scalars(pv, gsel));
    }
    Ok(msm_g1(&bases, &scalars))
}

/// Commit a polynomial in the second group, as `poly_to_g1` does in the
/// first.
pub fn poly_to_g2(pp: &PublicParameters, poly: &Vec<Scalar>) -> (r: Result<G2Point, Error>)
    requires
        scalars_wf(poly@),
    ensures
        r is Ok <==> poly@.len() <= pp.g2_s_vec@.len(),
        r matches Ok(p) ==> p == commit_of_poly_g2(*pp, scalar_vals(poly@)),
        r matches Err(e) ==> e == Error::ParamsOutOfRange,
{
    if poly.len() > pp.g2_s_vec.len() {
        return Err(Error::ParamsOutOfRange);
    }
    let ghost pv = scalar_vals(poly@);
    let n = poly.len();
    let mut bases: Vec<G2Point> = Vec::new();
    let mut scalars: Vec<Scalar> = Vec::new();
    let ghost mut gsel: Seq<int> = Seq::<int>::empty();
    let mut i: usize = 0;
    proof {
        assert(pv.take(0) =~= Seq::<nat>::empty());
        assert(gsel =~= sel_indices(pv.take(0)));
    }
    while i < n
        invariant
            n == poly@.len() == pv.len(),
            pv == scalar_vals(poly@),
            scalars_wf(poly@),
            n <= pp.g2_s_vec@.len(),
            i <= n,
            scalars_wf(scalars@),
            gsel == sel_indices(pv.take(i as int)),
            bases@.len() == gsel.len(),
            scalars@.len() == gsel.len(),
            forall|j: int| 0 <= j < gsel.len() ==> 0 <= #[trigger] gsel[j] < i,
            forall|j: int| 0 <= j < gsel.len() ==> #[trigger] bases@[j] == pp.g2_s_vec@[gsel[j]],
            forall|j: int|
                0 <= j < gsel.len() ==> (#[trigger] scalars@[j]).val() == pv[gsel[j]],
        decreases n - i,
    {
        proof {
            assert(pv.take(i + 1).drop_last() =~= pv.take(i as int));
            assert(pv.take(i + 1).last() == pv[i as int]);
        }
        if !poly[i].is_zero() {
            let ghost ob = bases@;
            let ghost os = scalars@;
            bases.push(g2_clone(&pp.g2_s_vec[i]));
            scalars.push(poly[i]);
            proof {
                gsel = gsel.push(i as int);
                assert(gsel =~= sel_indices(pv.take(i + 1)));
                assert forall|j: int| 0 <= j < gsel.len() implies #[trigger] bases@[j]
                    == pp.g2_s_vec@[gsel[j]] by {
                    if j < ob.len() {
                        assert(bases@[j] == ob[j]);
                        assert(gsel[j] == sel_indices(pv.take(i as int))[j]);
                    }
                }
                assert forall|j: int| 0 <= j < gsel.len() implies (#[trigger] scalars@[j]).val()
                    == pv[gsel[j]] by {
                    if j < os.len() {
                        assert(scalars@[j] == os[j]);
                    }
                }
            }
        } else {
            proof {
                assert(gsel =~= sel_indices(pv.take(i + 1)));
            }
        }
        i += 1;
    }
    proof {
        assert(pv.take(n as int) =~= pv);
        assert(gsel == sel_indices(pv));
        assert(bases@ =~= sel_bases_g2(pp.g2_s_vec@, gsel));
        assert(scalar_vals(scalars@).len() == scalars@.len());
        assert forall|j: int| 0 <= j < scalars@.len() implies scalar_vals(scalars@)[j]
            == sel_scalars(pv, gsel)[j] by {
            assert(scalar_vals(scalars@)[j] == scalars@[j].val());
            assert(sel_scalars(pv, gsel)[j] == pv[gsel[j]]);
        }
        assert(scalar_vals(scalars@) =~= sel_scalars(pv, gsel));
    }
    Ok(msm_g2(&bases, &scalars))
}

/// For canonical values below the field order, the modular difference is
/// zero exactly on equal values.
pub proof fn lemma_sub_mod_zero(s: nat, x: nat)
    requires
        s < fr_modulus(),
        x < fr_modulus(),
    ensures
        (sub_mod(s, x) == 0) <==> (s == x),
{
    let p = fr_modulus();
    let d = (s + p) - x;
    if s == x {
        vstd::arithmetic::div_mod::lemma_mod_self_0(p as int);
    } else if s > x {
        vstd::arithmetic::div_mod::lemma_mod_multiples_vanish(1, d - p, p as int);
        vstd::arithmetic::div_mod::lemma_small_mod((d - p) as nat, p);
    } else {
        vstd::arithmetic::div_mod::lemma_small_mod(d as nat, p);
    }
}

/// The product of `s - x` over a sequence of elements, modulo the field
/// order: the scalar a batch addition raises the commitment to.
pub open spec fn prod_s_minus(s: nat, xs: Seq<nat>) -> nat
    decreases xs.len(),
{
    if xs.len() == 0 {
        1
    } else {
        mul_mod(prod_s_minus(s, xs.drop_last()), sub_mod(s, xs.last()))
    }
}

/// Add a batch of elements to a commitment under the trapdoor: one scalar
/// product in the field, then a single group operation.
pub fn batch_add(
    acc: &crate::group::G1Point,
    secret: &Scalar,
    elements: &Vec<Scalar>,
) -> (r: crate::group::G1Point)
    requires
        secret.wf(),
        scalars_wf(elements@),
    ensures
        r == crate::group::g1_mul_of(*acc, prod_s_minus(secret.val(), scalar_vals(elements@))),
{
    let ghost ev = scalar_vals(elements@);
    let mut p = Scalar::one();
    let n = elements.len();
    let mut i: usize = 0;
    while i < n
        invariant
            n == elements@.len() == ev.len(),
            ev == scalar_vals(elements@),
            scalars_wf(elements@),
            secret.wf(),
            i <= n,
            p.wf(),
            p.val() == prod_s_minus(secret.val(), ev.take(i as int)),
        decreases n - i,
    {
        assert(elements@[i as int].wf());
        let d = fr_sub(secret, &elements[i]);
        p = crate::scalar::fr_mul(&p, &d);
        proof {
            assert(ev.take(i + 1).drop_last() =~= ev.take(i as int));
            assert(ev.take(i + 1).last() == ev[i as int]);
        }
        i += 1;
    }
    proof {
        assert(ev.take(n as int) =~= ev);
    }
    crate::group::g1_mul(acc, &p)
}

/// The commitment of the empty set: its polynomial is one, so the value is
/// the degree-zero parameter power — the generator.
pub fn empty_acc(pp: &PublicParameters) -> (r: G1Point)
    requires
        pp.wf(),
    ensures
        r == commit_of_set(*pp, Set::<Seq<u8>>::empty()),
{
    DynamicAccumulator::empty_commitment(pp)
}

/// The accumulator: one point of the first group, `g1^{P(s)}` for the
/// accumulated set's polynomial `P`.
pub struct DynamicAccumulator {
    /// The current commitment.
    pub acc_value: G1Point,
}

impl DynamicAccumulator {
    /// The commitment of the empty set, computed from the parameters: the
    /// polynomial is one, so one multi-scalar term at degree zero.
    pub fn empty_commitment(pp: &PublicParameters) -> (r: G1Point)
        requires
            pp.wf(),
        ensures
            r == commit_of_set(*pp, Set::<Seq<u8>>::empty()),
    {
        let one = crate::poly::poly_one();
        proof {
            crate::bytestr::lemma_canon_empty();
            assert(key_scalars(Seq::<Seq<u8>>::empty()) =~= Seq::<nat>::empty());
            assert(commit_poly(crate::bytestr::canon_seq(Set::<Seq<u8>>::empty()))
                == crate::poly::one_poly());
        }
        match poly_to_g1(pp, &one) {
            Ok(c) => c,
            Err(_) => {
                proof {
                    assert(false);
                }
                g1_generator()
            },
        }
    }

    /// A fresh accumulator over the empty set.
    pub fn new(pp: &PublicParameters) -> (r: DynamicAccumulator)
        requires
            pp.wf(),
        ensures
            r.acc_value == commit_of_set(*pp, Set::<Seq<u8>>::empty()),
    {
        DynamicAccumulator { acc_value: Self::empty_commitment(pp) }
    }

    /// The commitment of a set of keys, from the public parameters alone.
    /// Out of range exactly when the set is larger than the supported
    /// degree.
    pub fn calculate_commitment(pp: &PublicParameters, keys: &KeySet) -> (r: Result<
        G1Point,
        Error,
    >)
        requires
            keys.wf(),
        ensures
            r is Ok <==> keys@.len() + 1 <= pp.g1_s_vec@.len(),
            r matches Ok(c) ==> c == commit_g1_value(*pp, keys.byte_seq()) && c == commit_of_set(
                *pp,
                keys@,
            ),
            r matches Err(e) ==> e == Error::ParamsOutOfRange,
    {
        proof {
            crate::keyset::lemma_keyset_len(*keys);
            crate::keyset::lemma_keyset_canonical(*keys);
        }
        let ds = digest_set_from_set(keys);
        let poly = expand_from_roots(&ds);
        proof {
            assert(scalar_vals(ds@).len() == ds@.len());
        }
        poly_to_g1(pp, &poly)
    }

    /// As `calculate_commitment`, in the second group.
    pub fn calculate_commitment_g2(pp: &PublicParameters, keys: &KeySet) -> (r: Result<
        G2Point,
        Error,
    >)
        requires
            keys.wf(),
        ensures
            r is Ok <==> keys@.len() + 1 <= pp.g2_s_vec@.len(),
            r matches Ok(c) ==> c == commit_g2_value(*pp, keys.byte_seq()),
            r matches Err(e) ==> e == Error::ParamsOutOfRange,
    {
        proof {
            crate::keyset::lemma_keyset_len(*keys);
        }
        let ds = digest_set_from_set(keys);
        let poly = expand_from_roots(&ds);
        proof {
            assert(scalar_vals(ds@).len() == ds@.len());
        }
        poly_to_g2(pp, &poly)
    }

    /// An accumulator holding the commitment of `keys`.
    pub fn from_set(pp: &PublicParameters, keys: &KeySet) -> (r: Result<DynamicAccumulator, Error>)
        requires
            keys.wf(),
        ensures
            r is Ok <==> keys@.len() + 1 <= pp.g1_s_vec@.len(),
            r matches Ok(acc) ==> acc.acc_value == commit_g1_value(*pp, keys.byte_seq())
                && acc.acc_value == commit_of_set(*pp, keys@),
            r matches Err(e) ==> e == Error::ParamsOutOfRange,
    {
        match Self::calculate_commitment(pp, keys) {
            Ok(c) => Ok(DynamicAccumulator { acc_value: c }),
            Err(e) => Err(e),
        }
    }

    /// The commitment after adding one element: the current value raised to
    /// `s - x`. Requires the trapdoor.
    pub fn compute_add(&self, secret: &Scalar, element: &Scalar) -> (r: G1Point)
        requires
            secret.wf(),
            element.wf(),
        ensures
            r == g1_mul_of(self.acc_value, sub_mod(secret.val(), element.val())),
    {
        let e = fr_sub(secret, element);
        g1_mul(&self.acc_value, &e)
    }

    /// The commitment after deleting one element: the current value raised
    /// to the inverse of `s - x`. Requires the trapdoor; collides only when
    /// the element equals the trapdoor.
    pub fn compute_delete(&self, secret: &Scalar, element: &Scalar) -> (r: Result<G1Point, Error>)
        requires
            secret.wf(),
            element.wf(),
        ensures
            r is Ok <==> element.val() != secret.val(),
            r matches Ok(c) ==> exists|iv: nat|
                iv < fr_modulus() && mul_mod(iv, sub_mod(secret.val(), element.val())) == 1 && c
                    == g1_mul_of(self.acc_value, iv),
            r matches Err(e) ==> e == Error::TrapdoorCollision,
    {
        let e = fr_sub(secret, element);
        proof {
            lemma_sub_mod_zero(secret.val(), element.val());
        }
        match fr_inverse(&e) {
            Some(inv) => {
                let c = g1_mul(&self.acc_value, &inv);
                proof {
                    assert(mul_mod(inv.val(), sub_mod(secret.val(), element.val())) == 1) by {
                        assert((inv.val() * e.val()) % fr_modulus() == 1);
                    }
                }
                Ok(c)
            },
            None => Err(Error::TrapdoorCollision),
        }
    }

    /// The commitment after replacing one element by another: a deletion
    /// followed by an addition. Requires the trapdoor.
    pub fn compute_update(&self, secret: &Scalar, old_element: &Scalar, new_element: &Scalar) -> (r:
        Result<G1Point, Error>)
        requires
            secret.wf(),
            old_element.wf(),
            new_element.wf(),
        ensures
            r is Ok <==> old_element.val() != secret.val(),
            r matches Ok(c) ==> exists|iv: nat|
                iv < fr_modulus() && mul_mod(iv, sub_mod(secret.val(), old_element.val())) == 1 && c
                    == g1_mul_of(
                    g1_mul_of(self.acc_value, iv),
                    sub_mod(secret.val(), new_element.val()),
                ),
            r matches Err(e) ==> e == Error::TrapdoorCollision,
    {
        let mid = match self.compute_delete(secret, old_element) {
            Ok(c) => c,
            Err(e) => {
                return Err(e);
            },
        };
        let after = DynamicAccumulator { acc_value: mid };
        Ok(after.compute_add(secret, new_element))
    }

    /// The membership witness of an element under the trapdoor: the
    /// commitment with the element deleted.
    pub fn compute_membership_witness(&self, secret: &Scalar, element: &Scalar) -> (r: Result<
        G1Point,
        Error,
    >)
        requires
            secret.wf(),
            element.wf(),
        ensures
            r is Ok <==> element.val() != secret.val(),
            r matches Ok(c) ==> exists|iv: nat|
                iv < fr_modulus() && mul_mod(iv, sub_mod(secret.val(), element.val())) == 1 && c
                    == g1_mul_of(self.acc_value, iv),
            r matches Err(e) ==> e == Error::TrapdoorCollision,
    {
        self.compute_delete(secret, element)
    }

    /// The non-membership witnesses of an element against a set, from the
    /// public parameters alone: points `(g2^B(s), g2^A(s))` for polynomials
    /// with `A*P + B*(X - x) = 1`. Not coprime exactly when the element's
    /// digest is a root of `P`; the contract carries the success side of the
    /// Bezout solver, so it pins what an accepted result is, not when
    /// acceptance is owed.
    pub fn compute_non_membership_witness(
        pp: &PublicParameters,
        element: &Scalar,
        set: &Vec<Scalar>,
    ) -> (r: Result<(G2Point, G2Point), Error>)
        requires
            element.wf(),
            scalars_wf(set@),
        ensures
            r matches Ok((w, ga)) ==> exists|ac: Seq<nat>, bc: Seq<nat>|
                {
                    &&& bezout_combo(
                        poly_from_roots(scalar_vals(set@)),
                        linear_of(element.val()),
                        ac,
                        bc,
                    ) == one_poly()
                    &&& ga == commit_of_poly_g2(*pp, ac)
                    &&& w == commit_of_poly_g2(*pp, bc)
                },
            r matches Err(e) ==> e == Error::NotCoprime || e == Error::ParamsOutOfRange,
    {
        let p_poly = expand_from_roots(set);
        let elem_poly = crate::poly::linear_root_poly(element);
        let (a_norm, b_norm) = match solve_bezout(&p_poly, &elem_poly) {
            Ok(t) => t,
            Err(e) => {
                return Err(e);
            },
        };
        let w = match poly_to_g2(pp, &b_norm) {
            Ok(p) => p,
            Err(e) => {
                return Err(e);
            },
        };
        let ga = match poly_to_g2(pp, &a_norm) {
            Ok(p) => p,
            Err(e) => {
                return Err(e);
            },
        };
        proof {
            let ac = scalar_vals(a_norm@);
            let bc = scalar_vals(b_norm@);
            assert(bezout_combo(
                poly_from_roots(scalar_vals(set@)),
                linear_of(element.val()),
                ac,
                bc,
            ) == one_poly());
        }
        Ok((w, ga))
    }

    /// The disjointness witnesses of two sets, from the public parameters
    /// alone: points `(g2^A(s), g2^B(s))` for polynomials with
    /// `A*P1 + B*P2 = 1`. Not coprime exactly when the sets' polynomials
    /// share a root; as with the Bezout solver, the contract pins what an
    /// accepted result is, not when acceptance is owed.
    pub fn compute_disjointness_witnesses(
        pp: &PublicParameters,
        set1: &Vec<Scalar>,
        set2: &Vec<Scalar>,
    ) -> (r: Result<(G2Point, G2Point), Error>)
        requires
            scalars_wf(set1@),
            scalars_wf(set2@),
        ensures
            r matches Ok((f1, f2)) ==> exists|ac: Seq<nat>, bc: Seq<nat>|
                {
                    &&& bezout_combo(
                        poly_from_roots(scalar_vals(set1@)),
                        poly_from_roots(scalar_vals(set2@)),
                        ac,
                        bc,
                    ) == one_poly()
                    &&& f1 == commit_of_poly_g2(*pp, ac)
                    &&& f2 == commit_of_poly_g2(*pp, bc)
                },
            r matches Err(e) ==> e == Error::NotCoprime || e == Error::ParamsOutOfRange,
    {
        let poly1 = expand_from_roots(set1);
        let poly2 = expand_from_roots(set2);
        let (x_norm, y_norm) = match solve_bezout(&poly1, &poly2) {
            Ok(t) => t,
            Err(e) => {
                return Err(e);
            },
        };
        let f1 = match poly_to_g2(pp, &x_norm) {
            Ok(p) => p,
            Err(e) => {
                return Err(e);
            },
        };
        let f2 = match poly_to_g2(pp, &y_norm) {
            Ok(p) => p,
            Err(e) => {
                return Err(e);
            },
        };
        Ok((f1, f2))
    }

    /// The intersection witnesses of two sets against a claimed
    /// intersection: the two quotients in the second group, and Bezout
    /// coefficients of the quotients in the first. Fails when the claimed
    /// intersection does not divide both sets, or the quotients are not
    /// coprime — that is, when the claim is not the full intersection.
    pub fn compute_intersection_witnesses(
        pp: &PublicParameters,
        set1: &Vec<Scalar>,
        set2: &Vec<Scalar>,
        intersection_set: &Vec<Scalar>,
    ) -> (r: Result<(G2Point, G2Point, G1Point, G1Point), Error>)
        requires
            scalars_wf(set1@),
            scalars_wf(set2@),
            scalars_wf(intersection_set@),
        ensures
            r matches Ok((wa, wb, ca, cb)) ==> exists|
                q1: Seq<nat>,
                q2: Seq<nat>,
                ac: Seq<nat>,
                bc: Seq<nat>,
            |
                {
                    &&& crate::poly::poly_norm(
                        crate::poly::spec_poly_add(
                            crate::poly::spec_poly_mul(
                                q1,
                                poly_from_roots(scalar_vals(intersection_set@)),
                            ),
                            Seq::<nat>::empty(),
                        ),
                    ) == poly_from_roots(scalar_vals(set1@))
                    &&& crate::poly::poly_norm(
                        crate::poly::spec_poly_add(
                            crate::poly::spec_poly_mul(
                                q2,
                                poly_from_roots(scalar_vals(intersection_set@)),
                            ),
                            Seq::<nat>::empty(),
                        ),
                    ) == poly_from_roots(scalar_vals(set2@))
                    &&& bezout_combo(q1, q2, ac, bc) == one_poly()
                    &&& wa == commit_of_poly_g2(*pp, q1)
                    &&& wb == commit_of_poly_g2(*pp, q2)
                    &&& ca == commit_of_poly_g1(*pp, ac)
                    &&& cb == commit_of_poly_g1(*pp, bc)
                },
            r matches Err(e) ==> e == Error::NotCoprime || e == Error::ParamsOutOfRange,
    {
        let p1 = expand_from_roots(set1);
        let p2 = expand_from_roots(set2);
        let pi = expand_from_roots(intersection_set);
        let (q1, rem1) = poly_divmod_raw(&p1, &pi);
        if rem1.len() != 0 {
            return Err(Error::NotCoprime);
        }
        let (q2, rem2) = poly_divmod_raw(&p2, &pi);
        if rem2.len() != 0 {
            return Err(Error::NotCoprime);
        }
        proof {
            assert(scalar_vals(rem1@) =~= Seq::<nat>::empty());
            assert(scalar_vals(rem2@) =~= Seq::<nat>::empty());
        }
        let wa = match poly_to_g2(pp, &q1) {
            Ok(p) => p,
            Err(e) => {
                return Err(e);
            },
        };
        let wb = match poly_to_g2(pp, &q2) {
            Ok(p) => p,
            Err(e) => {
                return Err(e);
            },
        };
        let (a_norm, b_norm) = match solve_bezout(&q1, &q2) {
            Ok(t) => t,
            Err(e) => {
                return Err(e);
            },
        };
        let ca = match poly_to_g1(pp, &a_norm) {
            Ok(p) => p,
            Err(e) => {
                return Err(e);
            },
        };
        let cb = match poly_to_g1(pp, &b_norm) {
            Ok(p) => p,
            Err(e) => {
                return Err(e);
            },
        };
        Ok((wa, wb, ca, cb))
    }
}

} // verus!
