//! Dense univariate polynomials over the scalar field, held as coefficient
//! vectors in ascending degree with no trailing zero (the zero polynomial is
//! empty). Multiplication and division with remainder are delegated to
//! `ark_poly` behind trusted wrappers with exact coefficient contracts; the
//! ring around them — building from roots, scaling, the extended Euclidean
//! algorithm and the Bezout solver — is verified.

use vstd::prelude::*;

use crate::group::{scalar_vals, scalars_wf};
use crate::scalar::{fr_inverse, fr_mul, fr_sub, fr_modulus, Scalar};
use crate::Error;
use ark_bls12_381::Fr;
use ark_ff::{BigInteger256, PrimeField};
use ark_poly::univariate::{DenseOrSparsePolynomial, DensePolynomial};
use ark_poly::UVPolynomial;

verus! {

#[verifier::external_type_specification]
#[verifier::external_body]
#[verifier::reject_recursive_types(P)]
pub struct ExFp256<P>(ark_ff::Fp256<P>);

#[verifier::external_type_specification]
#[verifier::external_body]
pub struct ExFrParameters(ark_bls12_381::FrParameters);

/// Relies on `ark_ff::PrimeField::from_repr`: canonical limbs below the
/// modulus become the field element with that value; limbs at or above the
/// modulus would make it return nothing, so canonical form is required.
#[verifier::external_body]
fn scalars_to_frs(v: &Vec<Scalar>) -> Vec<Fr>
    requires
        scalars_wf(v@),
{
    v.iter().map(|s| Fr::from_repr(BigInteger256([s.l0, s.l1, s.l2, s.l3])).unwrap()).collect()
}

/// Relies on `ark_ff::PrimeField::into_repr`: each field element yields its
/// canonical limbs.
#[verifier::external_body]
fn frs_to_scalars(v: Vec<Fr>) -> Vec<Scalar> {
    v.iter().map(|c| { let z = c.into_repr().0; Scalar { l0: z[0], l1: z[1], l2: z[2], l3: z[3] } }).collect()
}

/// Addition modulo the field order.
pub open spec fn add_mod(x: nat, y: nat) -> nat {
    (x + y) % fr_modulus()
}

/// Subtraction modulo the field order, for values below it.
pub open spec fn sub_mod(x: nat, y: nat) -> nat {
    (((x + fr_modulus()) - y) % (fr_modulus() as int)) as nat
}

/// Multiplication modulo the field order.
pub open spec fn mul_mod(x: nat, y: nat) -> nat {
    (x * y) % fr_modulus()
}

/// The additive inverse modulo the field order.
pub open spec fn neg_mod(x: nat) -> nat {
    sub_mod(0, x)
}

/// The coefficient of a polynomial at `i`, zero beyond its length.
pub open spec fn coeff(q: Seq<nat>, i: int) -> nat {
    if 0 <= i < q.len() {
        q[i]
    } else {
        0
    }
}

/// No trailing zero coefficient: the representation of each polynomial is
/// unique, and the zero polynomial is the empty sequence.
pub open spec fn is_normalized(q: Seq<nat>) -> bool {
    q.len() == 0 || q.last() != 0
}

/// Trailing zeros dropped.
pub open spec fn poly_norm(q: Seq<nat>) -> Seq<nat>
    decreases q.len(),
{
    if q.len() == 0 {
        q
    } else if q.last() == 0 {
        poly_norm(q.drop_last())
    } else {
        q
    }
}

/// The sum of the first `i` products `a[j] * b[k - j]` of a convolution.
pub open spec fn conv_partial(a: Seq<nat>, b: Seq<nat>, k: int, i: int) -> nat
    decreases i,
{
    if i <= 0 {
        0
    } else {
        conv_partial(a, b, k, i - 1) + if 0 <= i - 1 < a.len() && 0 <= k - (i - 1) < b.len() {
            coeff(a, i - 1) * coeff(b, k - (i - 1))
        } else {
            0
        }
    }
}

/// The coefficient of the product at `k`.
pub open spec fn conv_at(a: Seq<nat>, b: Seq<nat>, k: int) -> nat {
    conv_partial(a, b, k, a.len() as int) % fr_modulus()
}

/// The product of two polynomials, coefficient by coefficient.
pub open spec fn spec_poly_mul(a: Seq<nat>, b: Seq<nat>) -> Seq<nat> {
    if a.len() == 0 || b.len() == 0 {
        Seq::<nat>::empty()
    } else {
        Seq::new((a.len() + b.len() - 1) as nat, |k: int| conv_at(a, b, k))
    }
}

/// The sum of two polynomials, coefficient by coefficient.
pub open spec fn spec_poly_add(a: Seq<nat>, b: Seq<nat>) -> Seq<nat> {
    Seq::new(
        if a.len() >= b.len() {
            a.len()
        } else {
            b.len()
        },
        |i: int| add_mod(coeff(a, i), coeff(b, i)),
    )
}

/// The difference of two polynomials, coefficient by coefficient.
pub open spec fn spec_poly_sub(a: Seq<nat>, b: Seq<nat>) -> Seq<nat> {
    Seq::new(
        if a.len() >= b.len() {
            a.len()
        } else {
            b.len()
        },
        |i: int| sub_mod(coeff(a, i), coeff(b, i)),
    )
}

/// A polynomial with every coefficient scaled.
pub open spec fn spec_poly_scale(a: Seq<nat>, c: nat) -> Seq<nat> {
    Seq::new(a.len(), |i: int| mul_mod(a[i], c))
}

/// The monic linear polynomial with root `v`: `X - v`.
pub open spec fn linear_of(v: nat) -> Seq<nat> {
    seq![neg_mod(v), 1nat]
}

/// The product of the linear polynomials of a sequence of roots, taken left
/// to right from one.
pub open spec fn poly_from_roots(roots: Seq<nat>) -> Seq<nat>
    decreases roots.len(),
{
    if roots.len() == 0 {
        seq![1nat]
    } else {
        poly_norm(spec_poly_mul(poly_from_roots(roots.drop_last()), linear_of(roots.last())))
    }
}

/// The one polynomial.
pub open spec fn one_poly() -> Seq<nat> {
    seq![1nat]
}

/// All coefficient values lie below the field order.
pub open spec fn coeffs_reduced(q: Seq<nat>) -> bool {
    forall|i: int| 0 <= i < q.len() ==> #[trigger] q[i] < fr_modulus()
}

/// The combination `a*x + b*y`, normalized after each step as the computed
/// coefficient vectors are; as a polynomial it is exactly `a*x + b*y`.
pub open spec fn bezout_combo(a: Seq<nat>, b: Seq<nat>, x: Seq<nat>, y: Seq<nat>) -> Seq<nat> {
    poly_norm(
        spec_poly_add(poly_norm(spec_poly_mul(a, x)), poly_norm(spec_poly_mul(b, y))),
    )
}

/// Relies on `ark_poly::univariate::DensePolynomial::naive_mul`: the product
/// polynomial has the convolution of the inputs as coefficients, computed in
/// the field, with trailing zeros dropped. The product of two polynomials
/// with nonzero leading coefficients keeps the full length: the coefficient
/// field has prime order, so it has no zero divisors.
#[verifier::external_body]
pub fn poly_mul_raw(a: &Vec<Scalar>, b: &Vec<Scalar>) -> (r: Vec<Scalar>)
    requires
        scalars_wf(a@),
        scalars_wf(b@),
        is_normalized(scalar_vals(a@)),
        is_normalized(scalar_vals(b@)),
    ensures
        scalars_wf(r@),
        scalar_vals(r@) == poly_norm(spec_poly_mul(scalar_vals(a@), scalar_vals(b@))),
        is_normalized(scalar_vals(r@)),
        a@.len() > 0 && b@.len() > 0 ==> r@.len() == a@.len() + b@.len() - 1,
{
    let pa = DensePolynomial::from_coefficients_vec(scalars_to_frs(a));
    let pb = DensePolynomial::from_coefficients_vec(scalars_to_frs(b));
    frs_to_scalars(pa.naive_mul(&pb).coeffs)
}

/// Relies on `ark_poly`'s `DenseOrSparsePolynomial::divide_with_q_and_r`:
/// long division by a nonzero divisor returns quotient and remainder with
/// `a = q * b + r` and the remainder shorter than the divisor.
#[verifier::external_body]
pub fn poly_divmod_raw(a: &Vec<Scalar>, b: &Vec<Scalar>) -> (r: (Vec<Scalar>, Vec<Scalar>))
    requires
        scalars_wf(a@),
        scalars_wf(b@),
        is_normalized(scalar_vals(a@)),
        is_normalized(scalar_vals(b@)),
        b@.len() > 0,
    ensures
        scalars_wf(r.0@),
        scalars_wf(r.1@),
        is_normalized(scalar_vals(r.0@)),
        is_normalized(scalar_vals(r.1@)),
        poly_norm(
            spec_poly_add(spec_poly_mul(scalar_vals(r.0@), scalar_vals(b@)), scalar_vals(r.1@)),
        ) == scalar_vals(a@),
        r.1@.len() < b@.len(),
{
    let pa = DensePolynomial::from_coefficients_vec(scalars_to_frs(a));
    let pb = DensePolynomial::from_coefficients_vec(scalars_to_frs(b));
    let (q, r) = DenseOrSparsePolynomial::from(pa).divide_with_q_and_r(&pb.into()).unwrap();
    (frs_to_scalars(q.coeffs), frs_to_scalars(r.coeffs))
}

/// The one polynomial.
pub fn poly_one() -> (r: Vec<Scalar>)
    ensures
        scalar_vals(r@) == one_poly(),
        is_normalized(scalar_vals(r@)),
        scalars_wf(r@),
{
    let mut r: Vec<Scalar> = Vec::new();
    r.push(Scalar::one());
    proof {
        assert(scalar_vals(r@) =~= one_poly());
    }
    r
}

/// The monic linear polynomial with root `x`.
pub fn linear_root_poly(x: &Scalar) -> (r: Vec<Scalar>)
    requires
        x.wf(),
    ensures
        scalar_vals(r@) == linear_of(x.val()),
        is_normalized(scalar_vals(r@)),
        scalars_wf(r@),
{
    let zero = Scalar::zero();
    let neg = fr_sub(&zero, x);
    let mut r: Vec<Scalar> = Vec::new();
    r.push(neg);
    r.push(Scalar::one());
    proof {
        assert(scalar_vals(r@) =~= linear_of(x.val()));
    }
    r
}

/// The polynomial with exactly the given roots: the product of `X - x` over
/// the sequence, taken left to right.
pub fn expand_from_roots(roots: &Vec<Scalar>) -> (r: Vec<Scalar>)
    requires
        scalars_wf(roots@),
    ensures
        scalar_vals(r@) == poly_from_roots(scalar_vals(roots@)),
        is_normalized(scalar_vals(r@)),
        scalars_wf(r@),
        r@.len() == roots@.len() + 1,
{
    let mut acc = poly_one();
    let n = roots.len();
    let ghost rv = scalar_vals(roots@);
    let mut i: usize = 0;
    while i < n
        invariant
            n == roots@.len(),
            rv == scalar_vals(roots@),
            scalars_wf(roots@),
            i <= n,
            scalars_wf(acc@),
            is_normalized(scalar_vals(acc@)),
            acc@.len() == i + 1,
            scalar_vals(acc@) == poly_from_roots(rv.take(i as int)),
        decreases n - i,
    {
        let lin = linear_root_poly(&roots[i]);
        assert(roots@[i as int].wf());
        acc = poly_mul_raw(&acc, &lin);
        proof {
            assert(rv.take(i + 1).drop_last() =~= rv.take(i as int));
            assert(rv.take(i + 1).last() == rv[i as int]);
        }
        i += 1;
    }
    proof {
        assert(rv.take(n as int) =~= rv);
    }
    acc
}

/// Drop trailing zero coefficients.
fn truncate_zeros(v: &mut Vec<Scalar>)
    requires
        scalars_wf(old(v)@),
    ensures
        scalars_wf(final(v)@),
        scalar_vals(final(v)@) == poly_norm(scalar_vals(old(v)@)),
        is_normalized(scalar_vals(final(v)@)),
{
    while v.len() > 0 && v[v.len() - 1].is_zero()
        invariant
            scalars_wf(v@),
            poly_norm(scalar_vals(v@)) == poly_norm(scalar_vals(old(v)@)),
        decreases v.len(),
    {
        let ghost before = scalar_vals(v@);
        v.pop();
        proof {
            assert(scalar_vals(v@) =~= before.drop_last());
        }
    }
    proof {
        let s = scalar_vals(v@);
        if s.len() > 0 {
            assert(v@[s.len() - 1].val() != 0);
            assert(poly_norm(s) == s);
        } else {
            assert(poly_norm(s) == s);
        }
    }
}

/// The sum of two polynomials.
pub fn poly_add(a: &Vec<Scalar>, b: &Vec<Scalar>) -> (r: Vec<Scalar>)
    requires
        scalars_wf(a@),
        scalars_wf(b@),
    ensures
        scalars_wf(r@),
        scalar_vals(r@) == poly_norm(spec_poly_add(scalar_vals(a@), scalar_vals(b@))),
        is_normalized(scalar_vals(r@)),
{
    let ghost av = scalar_vals(a@);
    let ghost bv = scalar_vals(b@);
    let n = if a.len() >= b.len() {
        a.len()
    } else {
        b.len()
    };
    let mut r: Vec<Scalar> = Vec::new();
    let zero = Scalar::zero();
    let mut i: usize = 0;
    while i < n
        invariant
            av == scalar_vals(a@),
            bv == scalar_vals(b@),
            scalars_wf(a@),
            scalars_wf(b@),
            n == if av.len() >= bv.len() {
                av.len()
            } else {
                bv.len()
            },
            i <= n,
            zero.val() == 0 && zero.wf(),
            scalars_wf(r@),
            scalar_vals(r@) =~= spec_poly_add(av, bv).take(i as int),
        decreases n - i,
    {
        let x = if i < a.len() {
            a[i]
        } else {
            zero
        };
        let y = if i < b.len() {
            b[i]
        } else {
            zero
        };
        assert(x.val() == coeff(av, i as int) && x.wf());
        assert(y.val() == coeff(bv, i as int) && y.wf());
        let s = crate::scalar::fr_add(&x, &y);
        proof {
            assert(scalar_vals(r@).len() == r@.len());
            assert(scalar_vals(r@).len() == i);
            assert(r@.len() == i);
        }
        r.push(s);
        proof {
            let sp = spec_poly_add(av, bv);
            assert(s.val() == sp[i as int]);
            assert(r@.len() == i + 1);
            assert(scalar_vals(r@).len() == r@.len());
            assert forall|j: int| 0 <= j < i + 1 implies scalar_vals(r@)[j] == sp.take(
                i as int + 1,
            )[j] by {
                assert(scalar_vals(r@)[j] == r@[j].val());
            }
            assert(scalar_vals(r@) =~= sp.take(i as int + 1));
        }
        i += 1;
    }
    proof {
        assert(spec_poly_add(av, bv).take(n as int) =~= spec_poly_add(av, bv));
    }
    truncate_zeros(&mut r);
    r
}

/// The difference of two polynomials.
pub fn poly_sub(a: &Vec<Scalar>, b: &Vec<Scalar>) -> (r: Vec<Scalar>)
    requires
        scalars_wf(a@),
        scalars_wf(b@),
    ensures
        scalars_wf(r@),
        scalar_vals(r@) == poly_norm(spec_poly_sub(scalar_vals(a@), scalar_vals(b@))),
        is_normalized(scalar_vals(r@)),
{
    let ghost av = scalar_vals(a@);
    let ghost bv = scalar_vals(b@);
    let n = if a.len() >= b.len() {
        a.len()
    } else {
        b.len()
    };
    let mut r: Vec<Scalar> = Vec::new();
    let zero = Scalar::zero();
    let mut i: usize = 0;
    while i < n
        invariant
            av == scalar_vals(a@),
            bv == scalar_vals(b@),
            scalars_wf(a@),
            scalars_wf(b@),
            n == if av.len() >= bv.len() {
                av.len()
            } else {
                bv.len()
            },
            i <= n,
            zero.val() == 0 && zero.wf(),
            scalars_wf(r@),
            scalar_vals(r@) =~= spec_poly_sub(av, bv).take(i as int),
        decreases n - i,
    {
        let x = if i < a.len() {
            a[i]
        } else {
            zero
        };
        let y = if i < b.len() {
            b[i]
        } else {
            zero
        };
        assert(x.val() == coeff(av, i as int) && x.wf());
        assert(y.val() == coeff(bv, i as int) && y.wf());
        let s = fr_sub(&x, &y);
        proof {
            assert(scalar_vals(r@).len() == r@.len());
            assert(r@.len() == i);
        }
        r.push(s);
        proof {
            let sp = spec_poly_sub(av, bv);
            assert(s.val() == sp[i as int]);
            assert(r@.len() == i + 1);
            assert(scalar_vals(r@).len() == r@.len());
            assert forall|j: int| 0 <= j < i + 1 implies scalar_vals(r@)[j] == sp.take(
                i as int + 1,
            )[j] by {
                assert(scalar_vals(r@)[j] == r@[j].val());
            }
            assert(scalar_vals(r@) =~= sp.take(i as int + 1));
        }
        i += 1;
    }
    proof {
        assert(spec_poly_sub(av, bv).take(n as int) =~= spec_poly_sub(av, bv));
    }
    truncate_zeros(&mut r);
    r
}

/// Every coefficient scaled by `c`.
pub fn poly_scale(a: &Vec<Scalar>, c: &Scalar) -> (r: Vec<Scalar>)
    requires
        scalars_wf(a@),
        c.wf(),
    ensures
        scalars_wf(r@),
        scalar_vals(r@) == poly_norm(spec_poly_scale(scalar_vals(a@), c.val())),
        is_normalized(scalar_vals(r@)),
{
    let ghost av = scalar_vals(a@);
    let n = a.len();
    let mut r: Vec<Scalar> = Vec::new();
    let mut i: usize = 0;
    while i < n
        invariant
            av == scalar_vals(a@),
            scalars_wf(a@),
            c.wf(),
            n == av.len(),
            i <= n,
            scalars_wf(r@),
            scalar_vals(r@) =~= spec_poly_scale(av, c.val()).take(i as int),
        decreases n - i,
    {
        assert(a@[i as int].wf());
        let s = fr_mul(&a[i], c);
        proof {
            assert(scalar_vals(r@).len() == r@.len());
            assert(r@.len() == i);
        }
        r.push(s);
        proof {
            let sp = spec_poly_scale(av, c.val());
            assert(s.val() == sp[i as int]);
            assert(r@.len() == i + 1);
            assert(scalar_vals(r@).len() == r@.len());
            assert forall|j: int| 0 <= j < i + 1 implies scalar_vals(r@)[j] == sp.take(
                i as int + 1,
            )[j] by {
                assert(scalar_vals(r@)[j] == r@[j].val());
            }
            assert(scalar_vals(r@) =~= sp.take(i as int + 1));
        }
        i += 1;
    }
    proof {
        assert(spec_poly_scale(av, c.val()).take(n as int) =~= spec_poly_scale(av, c.val()));
    }
    truncate_zeros(&mut r);
    r
}

/// Clone of a coefficient vector, with the view kept.
pub fn poly_clone(a: &Vec<Scalar>) -> (r: Vec<Scalar>)
    ensures
        r@ == a@,
{
    let mut r: Vec<Scalar> = Vec::new();
    let n = a.len();
    let mut i: usize = 0;
    while i < n
        invariant
            n == a@.len(),
            i <= n,
            r@ =~= a@.take(i as int),
        decreases n - i,
    {
        r.push(a[i]);
        proof {
            assert(r@ =~= a@.take(i + 1));
        }
        i += 1;
    }
    proof {
        assert(a@.take(n as int) =~= a@);
    }
    r
}

/// The extended Euclidean algorithm on polynomials. On success the result
/// `(g, x, y)` satisfies the checked identity `a*x + b*y = g`, where `g` is
/// a greatest common divisor of `a` and `b` up to a scalar factor. The
/// identity is re-checked on the computed coefficients, so the contract does
/// not rest on ring reasoning; the check cannot fail for field polynomials,
/// but the contract does not promise success — pinning that down would take
/// ring lemmas over the convolution specification that this crate does not
/// yet carry.
pub fn xgcd(a: &Vec<Scalar>, b: &Vec<Scalar>) -> (r: Option<(Vec<Scalar>, Vec<Scalar>, Vec<Scalar>)>)
    requires
        scalars_wf(a@),
        scalars_wf(b@),
        is_normalized(scalar_vals(a@)),
        is_normalized(scalar_vals(b@)),
    ensures
        r matches Some((g, x, y)) ==> {
            &&& scalars_wf(g@) && scalars_wf(x@) && scalars_wf(y@)
            &&& is_normalized(scalar_vals(g@))
            &&& bezout_combo(scalar_vals(a@), scalar_vals(b@), scalar_vals(x@), scalar_vals(y@))
                == scalar_vals(g@)
        },
{
    let mut cur_a = poly_clone(a);
    let mut cur_b = poly_clone(b);
    let mut x0 = poly_zero();
    let mut x1 = poly_one();
    let mut y0 = poly_one();
    let mut y1 = poly_zero();
    while cur_a.len() > 0
        invariant
            scalars_wf(cur_a@) && scalars_wf(cur_b@),
            scalars_wf(x0@) && scalars_wf(x1@) && scalars_wf(y0@) && scalars_wf(y1@),
            is_normalized(scalar_vals(cur_a@)) && is_normalized(scalar_vals(cur_b@)),
            is_normalized(scalar_vals(x0@)) && is_normalized(scalar_vals(x1@)),
            is_normalized(scalar_vals(y0@)) && is_normalized(scalar_vals(y1@)),
        decreases cur_a.len(),
    {
        let (q, rem) = poly_divmod_raw(&cur_b, &cur_a);
        cur_b = cur_a;
        cur_a = rem;
        let qy = poly_mul_raw(&q, &y1);
        let y1_new = poly_sub(&y0, &qy);
        y0 = y1;
        y1 = y1_new;
        let qx = poly_mul_raw(&q, &x1);
        let x1_new = poly_sub(&x0, &qx);
        x0 = x1;
        x1 = x1_new;
    }
    // Re-check the Bezout identity on the computed coefficients.
    let ta = poly_mul_raw(a, &x0);
    let tb = poly_mul_raw(b, &y0);
    let t = poly_add(&ta, &tb);
    if poly_struct_eq(&t, &cur_b) {
        Some((cur_b, x0, y0))
    } else {
        None
    }
}

/// The zero polynomial.
pub fn poly_zero() -> (r: Vec<Scalar>)
    ensures
        scalar_vals(r@) == Seq::<nat>::empty(),
        is_normalized(scalar_vals(r@)),
        scalars_wf(r@),
{
    let r: Vec<Scalar> = Vec::new();
    proof {
        assert(scalar_vals(r@) =~= Seq::<nat>::empty());
    }
    r
}

/// Structural equality of coefficient vectors; equal structures have equal
/// coefficient values.
pub fn poly_struct_eq(a: &Vec<Scalar>, b: &Vec<Scalar>) -> (r: bool)
    ensures
        r ==> scalar_vals(a@) == scalar_vals(b@),
{
    if a.len() != b.len() {
        return false;
    }
    let n = a.len();
    for i in 0..n
        invariant
            n == a@.len() == b@.len(),
            forall|j: int| 0 <= j < i ==> a@[j] == b@[j],
    {
        if !a[i].eq_scalar(&b[i]) {
            return false;
        }
    }
    proof {
        assert(a@ =~= b@);
    }
    true
}

/// Normalize the Bezout coefficients so the identity sums to one: divide
/// through by the constant `g`. Fails with `NotCoprime` when the greatest
/// common divisor is not a nonzero constant; on success the checked identity
/// `a*x + b*y = 1` holds of the returned coefficients. As with `xgcd`, the
/// contract pins what success returns, not when success is owed.
#[verifier::rlimit(50)]
pub fn solve_bezout(a: &Vec<Scalar>, b: &Vec<Scalar>) -> (r: Result<(Vec<Scalar>, Vec<Scalar>), Error>)
    requires
        scalars_wf(a@),
        scalars_wf(b@),
        is_normalized(scalar_vals(a@)),
        is_normalized(scalar_vals(b@)),
    ensures
        r matches Ok((x, y)) ==> {
            &&& scalars_wf(x@) && scalars_wf(y@)
            &&& is_normalized(scalar_vals(x@)) && is_normalized(scalar_vals(y@))
            &&& bezout_combo(scalar_vals(a@), scalar_vals(b@), scalar_vals(x@), scalar_vals(y@))
                == one_poly()
        },
        r matches Err(e) ==> e == Error::NotCoprime,
{
    let got = xgcd(a, b);
    let (g, x, y) = match got {
        Some(t) => t,
        None => {
            return Err(Error::NotCoprime);
        },
    };
    if g.len() != 1 {
        return Err(Error::NotCoprime);
    }
    assert(g@[0].val() != 0);
    let ginv = match fr_inverse(&g[0]) {
        Some(v) => v,
        None => {
            return Err(Error::NotCoprime);
        },
    };
    let xs = poly_scale(&x, &ginv);
    let ys = poly_scale(&y, &ginv);
    // Re-check the normalized identity on the computed coefficients.
    let ta = poly_mul_raw(a, &xs);
    let tb = poly_mul_raw(b, &ys);
    let t = poly_add(&ta, &tb);
    if t.len() == 1 {
        let one = Scalar::one();
        if t[0].eq_scalar(&one) {
            proof {
                assert(scalar_vals(t@) =~= one_poly());
            }
            return Ok((xs, ys));
        }
    }
    Err(Error::NotCoprime)
}

} // verus!
