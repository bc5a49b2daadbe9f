//! Elements of the prime-order groups G1 and G2 of BLS12-381. The group law
//! itself is computed by `bls12_381`.
//!
//! G1 and G2 are cyclic of prime order `q`, so every element is `k * B` for a
//! unique `k` in `[0, q)`, where `B` is the group's standard generator. That
//! exponent is the mathematical model of an element, and each element carries
//! it as ghost state: the group law becomes addition of exponents modulo `q`.
use vstd::prelude::*;

use crate::modular::fq;
use crate::scalar::group_order;
use bls12_381::hash_to_curve::{ExpandMsgXmd, HashToCurve};
use group::Curve;

verus! {

#[verifier::external_type_specification]
#[verifier::external_body]
pub struct ExG1Projective(bls12_381::G1Projective);

#[verifier::external_type_specification]
#[verifier::external_body]
pub struct ExG2Projective(bls12_381::G2Projective);

/// The compressed encoding (`G1Affine::to_compressed`) of the element `k * B1`,
/// where `B1` is `bls12_381::G1Affine::generator()`.
pub uninterp spec fn g1_encoding(k: int) -> Seq<u8>;

/// The exponent `k` in `[0, q)` of the element `k * B1` that `bls12_381`'s
/// hash-to-curve (`HashToCurve<ExpandMsgXmd<Sha256>>::hash_to_curve` on
/// `G1Projective`) maps `msg` under the domain separation tag `dst` to.
pub uninterp spec fn hash_to_g1_exponent(msg: Seq<u8>, dst: Seq<u8>) -> int;

/// The exponent `k` in `[0, q)` of the element `k * B2` (`B2` is
/// `bls12_381::G2Affine::generator()`) that `bls12_381`'s hash-to-curve on
/// `G2Projective` maps `msg` under the domain separation tag `dst` to.
pub uninterp spec fn hash_to_g2_exponent(msg: Seq<u8>, dst: Seq<u8>) -> int;

/// The exponent `k` in `[0, q)` of the element `k * B1` that `bls12_381`'s
/// non-uniform encoding (`HashToCurve<ExpandMsgXmd<Sha256>>::encode_to_curve` on
/// `G1Projective`) maps `msg` under the domain separation tag `dst` to.
pub uninterp spec fn encode_to_g1_exponent(msg: Seq<u8>, dst: Seq<u8>) -> int;

/// An element of G1.
#[derive(Clone, Copy)]
pub struct G1 {
    point: bls12_381::G1Projective,
    exponent: Ghost<int>,
}

impl View for G1 {
    type V = int;

    /// The exponent `k` in `[0, q)` with `self = k * B1`.
    closed spec fn view(&self) -> int {
        fq(self.exponent@)
    }
}

/// Every G1 exponent lies in `[0, q)`.
pub broadcast proof fn lemma_g1_reduced(p: G1)
    ensures
        0 <= #[trigger] p@ < group_order(),
{
    crate::modular::lemma_fq_range(p.exponent@);
}

/// The standard generator `B1` (wraps `G1Projective::generator`).
#[verifier::external_body]
fn g1_generator() -> (res: G1)
    ensures
        res@ == 1,
{
    G1 { point: bls12_381::G1Projective::generator(), exponent: Ghost(1) }
}

/// The identity element (wraps `G1Projective::identity`).
#[verifier::external_body]
fn g1_identity() -> (res: G1)
    ensures
        res@ == 0,
{
    G1 { point: bls12_381::G1Projective::identity(), exponent: Ghost(0) }
}

/// The group law (wraps `G1Projective + G1Projective`).
#[verifier::external_body]
fn g1_add(a: &G1, b: &G1) -> (res: G1)
    ensures
        res@ == fq(a@ + b@),
{
    G1 { point: a.point + b.point, exponent: Ghost(a@ + b@) }
}

/// `2 * a` (wraps `G1Projective::double`).
#[verifier::external_body]
fn g1_double(a: &G1) -> (res: G1)
    ensures
        res@ == fq(2 * a@),
{
    G1 { point: a.point.double(), exponent: Ghost(2 * a@) }
}

/// The inverse element (wraps `-G1Projective`).
#[verifier::external_body]
fn g1_neg(a: &G1) -> (res: G1)
    ensures
        res@ == fq(-a@),
{
    G1 { point: -a.point, exponent: Ghost(-a@) }
}

/// Whether two elements are equal (wraps `G1Projective == G1Projective`).
#[verifier::external_body]
fn g1_equals(a: &G1, b: &G1) -> (res: bool)
    ensures
        res == (a@ == b@),
{
    a.point == b.point
}

/// The compressed encoding of an element (wraps `G1Projective::to_affine`
/// followed by `G1Affine::to_compressed`).
#[verifier::external_body]
fn g1_to_compressed(a: &G1) -> (res: [u8; 48])
    ensures
        res@ == g1_encoding(a@),
{
    a.point.to_affine().to_compressed()
}

/// Hashes `msg` to G1 with the domain separation tag `dst`
/// (wraps `HashToCurve<ExpandMsgXmd<sha2::Sha256>>::hash_to_curve` on `G1Projective`).
#[verifier::external_body]
pub(crate) fn g1_hash_to_curve(msg: &[u8], dst: &[u8]) -> (res: G1)
    ensures
        res@ == hash_to_g1_exponent(msg@, dst@),
{
    G1 {
        point: <bls12_381::G1Projective as HashToCurve<ExpandMsgXmd<sha2::Sha256>>>::hash_to_curve(msg, dst),
        exponent: Ghost(hash_to_g1_exponent(msg@, dst@)),
    }
}

/// Encodes `msg` into G1 with the domain separation tag `dst` (wraps
/// `HashToCurve<ExpandMsgXmd<sha2::Sha256>>::encode_to_curve` on `G1Projective`).
#[verifier::external_body]
pub(crate) fn g1_encode_to_curve(msg: &[u8], dst: &[u8]) -> (res: G1)
    ensures
        res@ == encode_to_g1_exponent(msg@, dst@),
{
    G1 {
        point: <bls12_381::G1Projective as HashToCurve<ExpandMsgXmd<sha2::Sha256>>>::encode_to_curve(msg, dst),
        exponent: Ghost(encode_to_g1_exponent(msg@, dst@)),
    }
}

impl G1 {
    /// The standard generator `B1`.
    pub fn generator() -> (res: G1)
        ensures
            res@ == 1,
    {
        g1_generator()
    }

    /// The identity element.
    pub fn identity() -> (res: G1)
        ensures
            res@ == 0,
    {
        g1_identity()
    }

    /// The group law.
    pub fn add(&self, other: &G1) -> (res: G1)
        ensures
            res@ == fq(self@ + other@),
    {
        g1_add(self, other)
    }

    /// `2 * self`.
    pub fn double(&self) -> (res: G1)
        ensures
            res@ == fq(2 * self@),
    {
        g1_double(self)
    }

    /// The inverse element.
    pub fn neg(&self) -> (res: G1)
        ensures
            res@ == fq(-self@),
    {
        g1_neg(self)
    }

    /// `self - other`.
    pub fn sub(&self, other: &G1) -> (res: G1)
        ensures
            res@ == fq(self@ - other@),
    {
        let n = other.neg();
        proof {
            crate::modular::lemma_fq_add(self@, -other@);
        }
        self.add(&n)
    }

    /// Whether two elements are equal.
    pub fn equals(&self, other: &G1) -> (res: bool)
        ensures
            res == (self@ == other@),
    {
        g1_equals(self, other)
    }

    /// The compressed encoding of the element.
    pub fn to_compressed(&self) -> (res: [u8; 48])
        ensures
            res@ == g1_encoding(self@),
    {
        g1_to_compressed(self)
    }
}

impl PartialEq for G1 {
    fn eq(&self, other: &G1) -> (res: bool) {
        g1_equals(self, other)
    }
}

impl vstd::std_specs::cmp::PartialEqSpecImpl for G1 {
    open spec fn obeys_eq_spec() -> bool {
        true
    }

    open spec fn eq_spec(&self, other: &G1) -> bool {
        self@ == other@
    }
}

/// An element of G2.
#[derive(Clone, Copy)]
pub struct G2 {
    point: bls12_381::G2Projective,
    exponent: Ghost<int>,
}

impl View for G2 {
    type V = int;

    /// The exponent `k` in `[0, q)` with `self = k * B2`.
    closed spec fn view(&self) -> int {
        fq(self.exponent@)
    }
}

/// Hashes `msg` to G2 with the domain separation tag `dst`
/// (wraps `HashToCurve<ExpandMsgXmd<sha2::Sha256>>::hash_to_curve` on `G2Projective`).
#[verifier::external_body]
pub(crate) fn g2_hash_to_curve(msg: &[u8], dst: &[u8]) -> (res: G2)
    ensures
        res@ == hash_to_g2_exponent(msg@, dst@),
{
    G2 {
        point: <bls12_381::G2Projective as HashToCurve<ExpandMsgXmd<sha2::Sha256>>>::hash_to_curve(msg, dst),
        exponent: Ghost(hash_to_g2_exponent(msg@, dst@)),
    }
}

} // verus!
