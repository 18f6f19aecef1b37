//! The pairing-friendly curve groups, treated as an external collaborator.
//!
//! The group elements are opaque to the proofs.  Every operation below is
//! deterministic — a function of its arguments alone — so each wrapper's
//! result carries a name (an uninterpreted spec function): the contracts of
//! the protocol layer can then say which combination of group operations a
//! value is, without writing out curve arithmetic that nothing here could
//! check.  No law of the group (associativity, bilinearity) is assumed.

use vstd::prelude::*;

use bls12_381::{G1Affine, G1Projective, G2Affine, G2Projective, Gt, Scalar};

use crate::field::{fr_to_bytes, in_field, Fr};

verus! {

#[verifier::external_type_specification]
#[verifier::external_body]
pub struct ExG1Affine(G1Affine);

#[verifier::external_type_specification]
#[verifier::external_body]
pub struct ExG1Projective(G1Projective);

#[verifier::external_type_specification]
#[verifier::external_body]
pub struct ExG2Affine(G2Affine);

#[verifier::external_type_specification]
#[verifier::external_body]
pub struct ExG2Projective(G2Projective);

#[verifier::external_type_specification]
#[verifier::external_body]
pub struct ExGt(Gt);

/// The base point of `G1`.  The result is one constant point; the parameter
/// only gives the named result its required argument and is always zero.
pub uninterp spec fn g1_generator_of(sel: int) -> G1Affine;

/// The base point of `G2`; the parameter is always zero, as in
/// `g1_generator_of`.
pub uninterp spec fn g2_generator_of(sel: int) -> G2Affine;

/// The neutral element of `G1`; the parameter is always zero, as in
/// `g1_generator_of`.
pub uninterp spec fn g1_identity_of(sel: int) -> G1Projective;

/// What converting a `G1` point to projective coordinates returns.
pub uninterp spec fn g1_proj_of(p: G1Affine) -> G1Projective;

/// What converting a `G2` point to projective coordinates returns.
pub uninterp spec fn g2_proj_of(p: G2Affine) -> G2Projective;

/// What converting a `G1` point to affine coordinates returns.
pub uninterp spec fn g1_affine_of(p: G1Projective) -> G1Affine;

/// What converting a `G2` point to affine coordinates returns.
pub uninterp spec fn g2_affine_of(p: G2Projective) -> G2Affine;

/// What adding two `G1` points returns.
pub uninterp spec fn g1_sum_of(a: G1Projective, b: G1Projective) -> G1Projective;

/// What adding two `G2` points returns.
pub uninterp spec fn g2_sum_of(a: G2Projective, b: G2Projective) -> G2Projective;

/// What multiplying a `G1` point by the field element of the given value
/// returns.
pub uninterp spec fn g1_scale_of(k: nat, p: G1Affine) -> G1Projective;

/// As `g1_scale_of`, for a projective `G1` point.
pub uninterp spec fn g1_scale_proj_of(k: nat, p: G1Projective) -> G1Projective;

/// What multiplying a `G2` point by the field element of the given value
/// returns.
pub uninterp spec fn g2_scale_of(k: nat, p: G2Affine) -> G2Projective;

/// What the bilinear pairing returns.
pub uninterp spec fn pairing_of(p: G1Affine, q: G2Affine) -> Gt;

/// What adding two target-group elements returns.
pub uninterp spec fn gt_sum_of(a: Gt, b: Gt) -> Gt;

/// Relies on `bls12_381::G1Affine::clone`, a plain copy of the point.
pub assume_specification[ <G1Affine as core::clone::Clone>::clone ](p: &G1Affine) -> (r:
    G1Affine);

/// Relies on `bls12_381::G2Affine::clone`, a plain copy of the point.
pub assume_specification[ <G2Affine as core::clone::Clone>::clone ](p: &G2Affine) -> (r:
    G2Affine);

/// Relies on `bls12_381::G1Affine::generator`: the fixed base point of `G1`.
#[verifier::external_body]
pub(crate) fn g1_generator() -> (r: G1Affine)
    ensures
        r == g1_generator_of(0),
{
    G1Affine::generator()
}

/// Relies on `bls12_381::G2Affine::generator`: the fixed base point of `G2`.
#[verifier::external_body]
pub(crate) fn g2_generator() -> (r: G2Affine)
    ensures
        r == g2_generator_of(0),
{
    G2Affine::generator()
}

/// Relies on `bls12_381::G1Projective::identity`: the neutral element of `G1`.
#[verifier::external_body]
pub(crate) fn g1_identity() -> (r: G1Projective)
    ensures
        r == g1_identity_of(0),
{
    G1Projective::identity()
}

/// Relies on the `From<G1Affine>` conversion of `bls12_381::G1Projective`.
#[verifier::external_body]
pub(crate) fn g1_from_affine(p: &G1Affine) -> (r: G1Projective)
    ensures
        r == g1_proj_of(*p),
{
    G1Projective::from(*p)
}

/// Relies on the `From<G2Affine>` conversion of `bls12_381::G2Projective`.
#[verifier::external_body]
pub(crate) fn g2_from_affine(p: &G2Affine) -> (r: G2Projective)
    ensures
        r == g2_proj_of(*p),
{
    G2Projective::from(*p)
}

/// Relies on the `From<G1Projective>` conversion of `bls12_381::G1Affine`.
#[verifier::external_body]
pub(crate) fn g1_to_affine(p: &G1Projective) -> (r: G1Affine)
    ensures
        r == g1_affine_of(*p),
{
    G1Affine::from(p)
}

/// Relies on the `From<G2Projective>` conversion of `bls12_381::G2Affine`.
#[verifier::external_body]
pub(crate) fn g2_to_affine(p: &G2Projective) -> (r: G2Affine)
    ensures
        r == g2_affine_of(*p),
{
    G2Affine::from(p)
}

/// Relies on group addition in `bls12_381::G1Projective`.
#[verifier::external_body]
pub(crate) fn g1_add(a: &G1Projective, b: &G1Projective) -> (r: G1Projective)
    ensures
        r == g1_sum_of(*a, *b),
{
    a + b
}

/// Relies on group addition in `bls12_381::G2Projective`.
#[verifier::external_body]
pub(crate) fn g2_add(a: &G2Projective, b: &G2Projective) -> (r: G2Projective)
    ensures
        r == g2_sum_of(*a, *b),
{
    a + b
}

/// Relies on scalar multiplication of a `bls12_381::G1Affine` point, with
/// `Scalar::from_bytes` decoding the canonical encoding the precondition
/// guarantees.
#[verifier::external_body]
pub(crate) fn g1_scale(k: &Fr, p: &G1Affine) -> (r: G1Projective)
    requires
        in_field(k@),
    ensures
        r == g1_scale_of(k@, *p),
{
    let s = Scalar::from_bytes(&fr_to_bytes(k)).unwrap();
    p * s
}

/// Relies on scalar multiplication of a `bls12_381::G1Projective` point, as
/// in `g1_scale`.
#[verifier::external_body]
pub(crate) fn g1_scale_proj(k: &Fr, p: &G1Projective) -> (r: G1Projective)
    requires
        in_field(k@),
    ensures
        r == g1_scale_proj_of(k@, *p),
{
    let s = Scalar::from_bytes(&fr_to_bytes(k)).unwrap();
    p * s
}

/// Relies on scalar multiplication of a `bls12_381::G2Affine` point, as in
/// `g1_scale`.
#[verifier::external_body]
pub(crate) fn g2_scale(k: &Fr, p: &G2Affine) -> (r: G2Projective)
    requires
        in_field(k@),
    ensures
        r == g2_scale_of(k@, *p),
{
    let s = Scalar::from_bytes(&fr_to_bytes(k)).unwrap();
    p * s
}

/// Relies on `bls12_381::pairing`: the bilinear map from `G1 x G2` into the
/// target group.
#[verifier::external_body]
pub(crate) fn pairing(p: &G1Affine, q: &G2Affine) -> (r: Gt)
    ensures
        r == pairing_of(*p, *q),
{
    bls12_381::pairing(p, q)
}

/// Relies on group addition in `bls12_381::Gt`.
#[verifier::external_body]
pub(crate) fn gt_add(a: &Gt, b: &Gt) -> (r: Gt)
    ensures
        r == gt_sum_of(*a, *b),
{
    a + b
}

/// Relies on `bls12_381::Gt`'s equality of target-group elements.
#[verifier::external_body]
pub(crate) fn gt_eq(a: &Gt, b: &Gt) -> (r: bool)
    ensures
        r == (*a == *b),
{
    a == b
}

} // verus!
