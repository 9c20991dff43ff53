//! The proof objects of the accumulator. Every verifier reads the public
//! parameters alone and decides a pairing equation; each `verify` states
//! exactly which equation it decides.

use vstd::prelude::*;

use crate::accumulator::{
    commit_of_poly_g1, commit_of_poly_g2, key_scalar, DynamicAccumulator,
};
use crate::group::{
    g1_add, g1_add_of, g1_clone, g1_mul, g1_mul_of, g2_add, g2_add_of, g2_mul, g2_mul_of, gt_eq,
    gt_mul, gt_mul_of, pairing, pairing_of, scalar_vals, scalars_wf, G1Point, G2Point,
};
use crate::hashes::sha256;
use crate::keyset::str_bytes;
use crate::params::PublicParameters;
use crate::poly::{
    bezout_combo, expand_from_roots, linear_of, mul_mod, neg_mod, one_poly, poly_from_roots,
    sub_mod,
};
use crate::scalar::{digest_to_scalar, fr_modulus, fr_sub, Scalar};
use crate::Error;
use vstd::string::StrSliceExecFns;

verus! {

/// The point `g2^(s - x)`: the first trapdoor power of `g2` shifted by the
/// negated element.
pub open spec fn g2_s_minus(pp: PublicParameters, x: nat) -> G2Point {
    g2_add_of(pp.g2_s_vec@[1], g2_mul_of(pp.g2, neg_mod(x)))
}

/// The point `g1^(s - x)`: the first trapdoor power of `g1` shifted by the
/// negated element.
pub open spec fn g1_s_minus(pp: PublicParameters, x: nat) -> G1Point {
    g1_add_of(pp.g1_s_vec@[1], g1_mul_of(pp.g1, neg_mod(x)))
}

/// Compute `g2^(s - x)` from the public parameters.
pub fn g2_s_minus_elem(pp: &PublicParameters, x: &Scalar) -> (r: G2Point)
    requires
        pp.wf(),
        x.wf(),
    ensures
        r == g2_s_minus(*pp, x.val()),
{
    let zero = Scalar::zero();
    let neg = fr_sub(&zero, x);
    let shifted = g2_mul(&pp.g2, &neg);
    g2_add(&pp.g2_s_vec[1], &shifted)
}

/// Compute `g1^(s - x)` from the public parameters.
pub fn g1_s_minus_elem(pp: &PublicParameters, x: &Scalar) -> (r: G1Point)
    requires
        pp.wf(),
        x.wf(),
    ensures
        r == g1_s_minus(*pp, x.val()),
{
    let zero = Scalar::zero();
    let neg = fr_sub(&zero, x);
    let shifted = g1_mul(&pp.g1, &neg);
    g1_add(&pp.g1_s_vec[1], &shifted)
}

/// The field element a key stands for in the accumulator.
pub fn key_to_scalar(key: &str) -> (r: Scalar)
    ensures
        r.wf(),
        r.val() == key_scalar(str_bytes(key@)),
{
    let kb = key.as_bytes_vec();
    let d = sha256(&kb);
    digest_to_scalar(&d)
}

/// A proof that one element was added to an accumulator.
#[derive(Debug)]
pub struct AddProof {
    pub old_acc_value: G1Point,
    pub new_acc_value: G1Point,
    pub element: Scalar,
}

impl AddProof {
    /// Apply the addition under the trapdoor and record old and new values.
    pub fn new(acc: &mut DynamicAccumulator, secret: &Scalar, element: &Scalar) -> (r: AddProof)
        requires
            secret.wf(),
            element.wf(),
        ensures
            r.old_acc_value == old(acc).acc_value,
            r.new_acc_value == g1_mul_of(
                old(acc).acc_value,
                sub_mod(secret.val(), element.val()),
            ),
            final(acc).acc_value == r.new_acc_value,
            r.element == *element,
    {
        let old_acc = g1_clone(&acc.acc_value);
        let new_acc = acc.compute_add(secret, element);
        acc.acc_value = g1_clone(&new_acc);
        AddProof { old_acc_value: old_acc, new_acc_value: new_acc, element: *element }
    }

    /// Decide `e(new, g2) == e(old, g2^(s - x))`.
    pub fn verify(&self, pp: &PublicParameters) -> (r: bool)
        requires
            pp.wf(),
            self.element.wf(),
        ensures
            r == (pairing_of(self.new_acc_value, pp.g2) == pairing_of(
                self.old_acc_value,
                g2_s_minus(*pp, self.element.val()),
            )),
    {
        let rhs_point = g2_s_minus_elem(pp, &self.element);
        let lhs = pairing(&self.new_acc_value, &pp.g2);
        let rhs = pairing(&self.old_acc_value, &rhs_point);
        gt_eq(&lhs, &rhs)
    }
}

/// A proof that one element was deleted from an accumulator.
#[derive(Debug)]
pub struct DeleteProof {
    pub old_acc_value: G1Point,
    pub new_acc_value: G1Point,
    pub element: Scalar,
}

impl DeleteProof {
    /// Apply the deletion under the trapdoor and record old and new values.
    /// Collides only when the element equals the trapdoor.
    pub fn new(acc: &mut DynamicAccumulator, secret: &Scalar, element: &Scalar) -> (r: Result<
        DeleteProof,
        Error,
    >)
        requires
            secret.wf(),
            element.wf(),
        ensures
            r is Ok <==> element.val() != secret.val(),
            r matches Ok(p) ==> {
                &&& p.old_acc_value == old(acc).acc_value
                &&& final(acc).acc_value == p.new_acc_value
                &&& p.element == *element
                &&& exists|iv: nat|
                    iv < fr_modulus() && mul_mod(iv, sub_mod(secret.val(), element.val())) == 1
                        && p.new_acc_value == g1_mul_of(old(acc).acc_value, iv)
            },
            r matches Err(e) ==> e == Error::TrapdoorCollision && *final(acc) == *old(acc),
    {
        let old_acc = g1_clone(&acc.acc_value);
        let new_acc = match acc.compute_delete(secret, element) {
            Ok(c) => c,
            Err(e) => {
                return Err(e);
            },
        };
        acc.acc_value = g1_clone(&new_acc);
        Ok(DeleteProof { old_acc_value: old_acc, new_acc_value: new_acc, element: *element })
    }

    /// Decide `e(new, g2^(s - x)) == e(old, g2)`.
    pub fn verify(&self, pp: &PublicParameters) -> (r: bool)
        requires
            pp.wf(),
            self.element.wf(),
        ensures
            r == (pairing_of(self.new_acc_value, g2_s_minus(*pp, self.element.val()))
                == pairing_of(self.old_acc_value, pp.g2)),
    {
        let lhs_point = g2_s_minus_elem(pp, &self.element);
        let lhs = pairing(&self.new_acc_value, &lhs_point);
        let rhs = pairing(&self.old_acc_value, &pp.g2);
        gt_eq(&lhs, &rhs)
    }
}

/// A proof that one element of an accumulator was replaced by another.
#[derive(Debug)]
pub struct UpdateProof {
    pub old_acc_value: G1Point,
    pub new_acc_value: G1Point,
    pub old_element: Scalar,
    pub new_element: Scalar,
}

impl UpdateProof {
    /// Apply the replacement under the trapdoor and record old and new
    /// values. Collides only when the old element equals the trapdoor.
    pub fn new(
        acc: &mut DynamicAccumulator,
        secret: &Scalar,
        old_element: &Scalar,
        new_element: &Scalar,
    ) -> (r: Result<UpdateProof, Error>)
        requires
            secret.wf(),
            old_element.wf(),
            new_element.wf(),
        ensures
            r is Ok <==> old_element.val() != secret.val(),
            r matches Ok(p) ==> {
                &&& p.old_acc_value == old(acc).acc_value
                &&& final(acc).acc_value == p.new_acc_value
                &&& p.old_element == *old_element
                &&& p.new_element == *new_element
                &&& exists|iv: nat|
                    iv < fr_modulus() && mul_mod(iv, sub_mod(secret.val(), old_element.val())) == 1
                        && p.new_acc_value == g1_mul_of(
                        g1_mul_of(old(acc).acc_value, iv),
                        sub_mod(secret.val(), new_element.val()),
                    )
            },
            r matches Err(e) ==> e == Error::TrapdoorCollision && *final(acc) == *old(acc),
    {
        let old_acc = g1_clone(&acc.acc_value);
        let new_acc = match acc.compute_update(secret, old_element, new_element) {
            Ok(c) => c,
            Err(e) => {
                return Err(e);
            },
        };
        acc.acc_value = g1_clone(&new_acc);
        Ok(
            UpdateProof {
                old_acc_value: old_acc,
                new_acc_value: new_acc,
                old_element: *old_element,
                new_element: *new_element,
            },
        )
    }

    /// Decide `e(new, g2^(s - x_old)) == e(old, g2^(s - x_new))`.
    pub fn verify(&self, pp: &PublicParameters) -> (r: bool)
        requires
            pp.wf(),
            self.old_element.wf(),
            self.new_element.wf(),
        ensures
            r == (pairing_of(self.new_acc_value, g2_s_minus(*pp, self.old_element.val()))
                == pairing_of(self.old_acc_value, g2_s_minus(*pp, self.new_element.val()))),
    {
        let lhs_point = g2_s_minus_elem(pp, &self.old_element);
        let rhs_point = g2_s_minus_elem(pp, &self.new_element);
        let lhs = pairing(&self.new_acc_value, &lhs_point);
        let rhs = pairing(&self.old_acc_value, &rhs_point);
        gt_eq(&lhs, &rhs)
    }
}

/// A membership proof: a witness whose pairing against `g2^(s - x)` matches
/// the accumulator's.
#[derive(Debug)]
pub struct MembershipProof {
    pub witness: G1Point,
    pub element: Scalar,
}

impl MembershipProof {
    /// Build the witness under the trapdoor: the accumulator with the
    /// element deleted.
    pub fn new(acc: &DynamicAccumulator, secret: &Scalar, element: &Scalar) -> (r: Result<
        MembershipProof,
        Error,
    >)
        requires
            secret.wf(),
            element.wf(),
        ensures
            r is Ok <==> element.val() != secret.val(),
            r matches Ok(p) ==> {
                &&& p.element == *element
                &&& exists|iv: nat|
                    iv < fr_modulus() && mul_mod(iv, sub_mod(secret.val(), element.val())) == 1
                        && p.witness == g1_mul_of(acc.acc_value, iv)
            },
            r matches Err(e) ==> e == Error::TrapdoorCollision,
    {
        let witness = match acc.compute_membership_witness(secret, element) {
            Ok(w) => w,
            Err(e) => {
                return Err(e);
            },
        };
        Ok(MembershipProof { witness, element: *element })
    }

    /// Fold another proof of the same element into this one by adding the
    /// witnesses pointwise in the first group: the combined proof then
    /// pairs against the sum of the two accumulators.
    pub fn combine_proof(&mut self, other: &MembershipProof)
        ensures
            final(self).witness == g1_add_of(old(self).witness, other.witness),
            final(self).element == old(self).element,
    {
        self.witness = g1_add(&self.witness, &other.witness);
    }

    /// Decide `e(witness, g2^(s - x)) == e(accumulator, g2)`.
    pub fn verify(&self, pp: &PublicParameters, accumulator: &G1Point) -> (r: bool)
        requires
            pp.wf(),
            self.element.wf(),
        ensures
            r == (pairing_of(self.witness, g2_s_minus(*pp, self.element.val())) == pairing_of(
                *accumulator,
                pp.g2,
            )),
    {
        let lhs_point = g2_s_minus_elem(pp, &self.element);
        let lhs = pairing(&self.witness, &lhs_point);
        let rhs = pairing(accumulator, &pp.g2);
        gt_eq(&lhs, &rhs)
    }
}

/// A non-membership proof: points `g2^B(s)` and `g2^A(s)` of a Bezout
/// identity `A*P + B*(X - x) = 1`.
#[derive(Debug)]
pub struct NonMembershipProof {
    pub element: Scalar,
    /// `g2^B(s)`.
    pub witness: G2Point,
    /// `g2^A(s)`.
    pub g2_a: G2Point,
}

impl NonMembershipProof {
    /// Solve the Bezout identity for the element against the set's
    /// polynomial; not coprime exactly when the element is in the set.
    pub fn new(pp: &PublicParameters, element: &Scalar, elements: &Vec<Scalar>) -> (r: Result<
        NonMembershipProof,
        Error,
    >)
        requires
            element.wf(),
            scalars_wf(elements@),
        ensures
            r matches Ok(p) ==> p.element == *element && exists|ac: Seq<nat>, bc: Seq<nat>|
                {
                    &&& bezout_combo(
                        poly_from_roots(scalar_vals(elements@)),
                        linear_of(element.val()),
                        ac,
                        bc,
                    ) == one_poly()
                    &&& p.g2_a == commit_of_poly_g2(*pp, ac)
                    &&& p.witness == commit_of_poly_g2(*pp, bc)
                },
            r matches Err(e) ==> e == Error::NotCoprime || e == Error::ParamsOutOfRange,
    {
        let (witness, g2_a) = match DynamicAccumulator::compute_non_membership_witness(
            pp,
            element,
            elements,
        ) {
            Ok(t) => t,
            Err(e) => {
                return Err(e);
            },
        };
        Ok(NonMembershipProof { element: *element, witness, g2_a })
    }

    /// Decide `e(acc, g2^A) * e(g1^(s - x), g2^B) == e(g1, g2)`.
    pub fn verify(&self, pp: &PublicParameters, acc_value: &G1Point) -> (r: bool)
        requires
            pp.wf(),
            self.element.wf(),
        ensures
            r == (gt_mul_of(
                pairing_of(*acc_value, self.g2_a),
                pairing_of(g1_s_minus(*pp, self.element.val()), self.witness),
            ) == pairing_of(pp.g1, pp.g2)),
    {
        let sx = g1_s_minus_elem(pp, &self.element);
        let lhs1 = pairing(acc_value, &self.g2_a);
        let lhs2 = pairing(&sx, &self.witness);
        let lhs = gt_mul(&lhs1, &lhs2);
        let rhs = pairing(&pp.g1, &pp.g2);
        gt_eq(&lhs, &rhs)
    }
}

/// An intersection proof: the two quotient commitments and the Bezout
/// coefficients that show the quotients coprime.
#[derive(Debug)]
pub struct IntersectionProof {
    /// `g2^Q1(s)`.
    pub witness_a: G2Point,
    /// `g2^Q2(s)`.
    pub witness_b: G2Point,
    /// `g1^A(s)` of the quotients' Bezout identity.
    pub witness_coprime_a: G1Point,
    /// `g1^B(s)` of the quotients' Bezout identity.
    pub witness_coprime_b: G1Point,
}

impl IntersectionProof {
    /// Commit the claimed intersection and build the quotient witnesses;
    /// fails when the claim does not divide both sets or is not their full
    /// intersection.
    pub fn new(
        pp: &PublicParameters,
        set1: &Vec<Scalar>,
        set2: &Vec<Scalar>,
        intersection_set: &Vec<Scalar>,
    ) -> (r: Result<(DynamicAccumulator, IntersectionProof), Error>)
        requires
            scalars_wf(set1@),
            scalars_wf(set2@),
            scalars_wf(intersection_set@),
        ensures
            r matches Ok((acc, p)) ==> acc.acc_value == commit_of_poly_g1(
                *pp,
                poly_from_roots(scalar_vals(intersection_set@)),
            ),
            r matches Err(e) ==> e == Error::NotCoprime || e == Error::ParamsOutOfRange,
    {
        let ipoly = expand_from_roots(intersection_set);
        let ivalue = match crate::accumulator::poly_to_g1(pp, &ipoly) {
            Ok(c) => c,
            Err(e) => {
                return Err(e);
            },
        };
        let (witness_a, witness_b, witness_coprime_a, witness_coprime_b) =
            match DynamicAccumulator::compute_intersection_witnesses(
            pp,
            set1,
            set2,
            intersection_set,
        ) {
            Ok(t) => t,
            Err(e) => {
                return Err(e);
            },
        };
        Ok(
            (
                DynamicAccumulator { acc_value: ivalue },
                IntersectionProof { witness_a, witness_b, witness_coprime_a, witness_coprime_b },
            ),
        )
    }

    /// Decide the three equations: both quotient pairings and the
    /// coprimality pairing.
    pub fn verify(
        &self,
        pp: &PublicParameters,
        acc1_value: &G1Point,
        acc2_value: &G1Point,
        intersection_value: &G1Point,
    ) -> (r: bool)
        requires
            pp.wf(),
        ensures
            r == {
                &&& pairing_of(*acc1_value, pp.g2) == pairing_of(
                    *intersection_value,
                    self.witness_a,
                )
                &&& pairing_of(*acc2_value, pp.g2) == pairing_of(
                    *intersection_value,
                    self.witness_b,
                )
                &&& gt_mul_of(
                    pairing_of(self.witness_coprime_a, self.witness_a),
                    pairing_of(self.witness_coprime_b, self.witness_b),
                ) == pairing_of(pp.g1, pp.g2)
            },
    {
        let l1 = pairing(acc1_value, &pp.g2);
        let r1 = pairing(intersection_value, &self.witness_a);
        let ok1 = gt_eq(&l1, &r1);
        let l2 = pairing(acc2_value, &pp.g2);
        let r2 = pairing(intersection_value, &self.witness_b);
        let ok2 = gt_eq(&l2, &r2);
        let c1 = pairing(&self.witness_coprime_a, &self.witness_a);
        let c2 = pairing(&self.witness_coprime_b, &self.witness_b);
        let cl = gt_mul(&c1, &c2);
        let cr = pairing(&pp.g1, &pp.g2);
        let ok3 = gt_eq(&cl, &cr);
        ok1 && ok2 && ok3
    }
}

/// A union proof: an intersection proof together with the intersection's
/// commitment; the union then pairs against the second quotient.
#[derive(Debug)]
pub struct UnionProof {
    pub intersection_acc_value: G1Point,
    pub intersection_proof: IntersectionProof,
}

impl UnionProof {
    /// Commit the claimed union and bind it to the intersection proof.
    pub fn new(
        pp: &PublicParameters,
        intersection_acc: &DynamicAccumulator,
        intersection_proof: IntersectionProof,
        union_set: &Vec<Scalar>,
    ) -> (r: Result<(DynamicAccumulator, UnionProof), Error>)
        requires
            scalars_wf(union_set@),
        ensures
            r is Ok <==> union_set@.len() + 1 <= pp.g1_s_vec@.len(),
            r matches Ok((acc, p)) ==> {
                &&& acc.acc_value == commit_of_poly_g1(
                    *pp,
                    poly_from_roots(scalar_vals(union_set@)),
                )
                &&& p.intersection_acc_value == intersection_acc.acc_value
                &&& p.intersection_proof == intersection_proof
            },
            r matches Err(e) ==> e == Error::ParamsOutOfRange,
    {
        let upoly = expand_from_roots(union_set);
        let uvalue = match crate::accumulator::poly_to_g1(pp, &upoly) {
            Ok(c) => c,
            Err(e) => {
                return Err(e);
            },
        };
        let union_acc = DynamicAccumulator { acc_value: uvalue };
        let p = UnionProof {
            intersection_acc_value: g1_clone(&intersection_acc.acc_value),
            intersection_proof,
        };
        Ok((union_acc, p))
    }

    /// Decide the intersection equations and `e(union, g2) == e(acc1, Q2')`.
    pub fn verify(
        &self,
        pp: &PublicParameters,
        acc1_value: &G1Point,
        acc2_value: &G1Point,
        union_acc_value: &G1Point,
    ) -> (r: bool)
        requires
            pp.wf(),
        ensures
            r == {
                &&& pairing_of(*acc1_value, pp.g2) == pairing_of(
                    self.intersection_acc_value,
                    self.intersection_proof.witness_a,
                )
                &&& pairing_of(*acc2_value, pp.g2) == pairing_of(
                    self.intersection_acc_value,
                    self.intersection_proof.witness_b,
                )
                &&& gt_mul_of(
                    pairing_of(
                        self.intersection_proof.witness_coprime_a,
                        self.intersection_proof.witness_a,
                    ),
                    pairing_of(
                        self.intersection_proof.witness_coprime_b,
                        self.intersection_proof.witness_b,
                    ),
                ) == pairing_of(pp.g1, pp.g2)
                &&& pairing_of(*union_acc_value, pp.g2) == pairing_of(
                    *acc1_value,
                    self.intersection_proof.witness_b,
                )
            },
    {
        let inner_ok = self.intersection_proof.verify(
            pp,
            acc1_value,
            acc2_value,
            &self.intersection_acc_value,
        );
        if !inner_ok {
            return false;
        }
        let lhs = pairing(union_acc_value, &pp.g2);
        let rhs = pairing(acc1_value, &self.intersection_proof.witness_b);
        gt_eq(&lhs, &rhs)
    }
}

/// A disjointness proof: two points of a Bezout identity over the two
/// sets' polynomials.
#[derive(Debug)]
pub struct DisjointnessProof {
    pub f1: G2Point,
    pub f2: G2Point,
}

impl DisjointnessProof {
    /// Solve the Bezout identity of the two sets' polynomials; not coprime
    /// exactly when the sets share an element.
    pub fn new(pp: &PublicParameters, set1: &Vec<Scalar>, set2: &Vec<Scalar>) -> (r: Result<
        DisjointnessProof,
        Error,
    >)
        requires
            scalars_wf(set1@),
            scalars_wf(set2@),
        ensures
            r matches Ok(p) ==> exists|ac: Seq<nat>, bc: Seq<nat>|
                {
                    &&& bezout_combo(
                        poly_from_roots(scalar_vals(set1@)),
                        poly_from_roots(scalar_vals(set2@)),
                        ac,
                        bc,
                    ) == one_poly()
                    &&& p.f1 == commit_of_poly_g2(*pp, ac)
                    &&& p.f2 == commit_of_poly_g2(*pp, bc)
                },
            r matches Err(e) ==> e == Error::NotCoprime || e == Error::ParamsOutOfRange,
    {
        let (f1, f2) = match DynamicAccumulator::compute_disjointness_witnesses(pp, set1, set2) {
            Ok(t) => t,
            Err(e) => {
                return Err(e);
            },
        };
        Ok(DisjointnessProof { f1, f2 })
    }

    /// Decide `e(acc1, f1) * e(acc2, f2) == e(g1, g2)`.
    pub fn verify(&self, pp: &PublicParameters, acc1: &G1Point, acc2: &G1Point) -> (r: bool)
        ensures
            r == (gt_mul_of(pairing_of(*acc1, self.f1), pairing_of(*acc2, self.f2)) == pairing_of(
                pp.g1,
                pp.g2,
            )),
    {
        let l1 = pairing(acc1, &self.f1);
        let l2 = pairing(acc2, &self.f2);
        let lhs = gt_mul(&l1, &l2);
        let rhs = pairing(&pp.g1, &pp.g2);
        gt_eq(&lhs, &rhs)
    }
}

/// Whether a witness proves a key's membership in an accumulator value:
/// the key is digested to its field element and the membership equation is
/// decided.
pub fn verify_membership(
    pp: &PublicParameters,
    acc: &G1Point,
    witness: &G1Point,
    key: &str,
) -> (r: bool)
    requires
        pp.wf(),
    ensures
        r == (pairing_of(*witness, g2_s_minus(*pp, key_scalar(str_bytes(key@)))) == pairing_of(
            *acc,
            pp.g2,
        )),
{
    let element = key_to_scalar(key);
    let proof = MembershipProof { witness: g1_clone(witness), element };
    proof.verify(pp, acc)
}

} // verus!
