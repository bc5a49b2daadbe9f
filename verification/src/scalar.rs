//! Elements of the BLS12-381 scalar field, held as their canonical
//! little-endian byte encoding; the arithmetic itself is done by `bls12_381`.
use vstd::prelude::*;

use crate::modular::{inv, lemma_inv_unique};
use ff::Field;

verus! {

/// The order `q` of the BLS12-381 scalar field (and of the groups G1 and G2).
pub open spec fn group_order() -> int {
    0x73eda753299d7d483339d80809a1d80553bda402fffe5bfeffffffff00000001int
}

/// The integer that a little-endian byte string encodes.
pub open spec fn le_nat(bytes: Seq<u8>) -> nat
    decreases bytes.len(),
{
    if bytes.len() == 0 {
        0
    } else {
        (bytes[0] + 256 * le_nat(bytes.drop_first())) as nat
    }
}

/// The `n`-byte little-endian encoding of `v` (taken modulo `256^n`).
pub open spec fn le_bytes(v: nat, n: nat) -> Seq<u8>
    decreases n,
{
    if n == 0 {
        Seq::empty()
    } else {
        seq![(v % 256) as u8] + le_bytes(v / 256, (n - 1) as nat)
    }
}

/// The canonical 32-byte encoding of the field element `v`.
pub open spec fn scalar_encoding(v: int) -> Seq<u8> {
    le_bytes(v as nat, 32)
}

/// A byte string is the encoding of the integer it encodes.
pub proof fn lemma_le_bytes_le_nat(s: Seq<u8>)
    ensures
        le_bytes(le_nat(s), s.len()) == s,
    decreases s.len(),
{
    if s.len() > 0 {
        let rest = s.drop_first();
        lemma_le_bytes_le_nat(rest);
        let v = le_nat(s);
        assert(v == s[0] + 256 * le_nat(rest));
        assert(v % 256 == s[0] as int && v / 256 == le_nat(rest)) by {
            vstd::arithmetic::div_mod::lemma_fundamental_div_mod_converse(
                v as int,
                256,
                le_nat(rest) as int,
                s[0] as int,
            );
        }
        assert(le_bytes(v, s.len()) =~= s);
    }
}

/// An element of the scalar field, stored as its canonical 32-byte
/// little-endian encoding (the encoding `bls12_381::Scalar::to_bytes` gives).
#[derive(Clone, Copy, Debug, PartialEq, Eq)]
pub struct Scalar {
    bytes: [u8; 32],
}

impl Scalar {
    /// Only canonical encodings (integers below the group order) are ever held.
    #[verifier::type_invariant]
    spec fn canonical(self) -> bool {
        le_nat(self.bytes@) < group_order()
    }

    /// The encoding that `to_bytes` returns.
    pub closed spec fn encoding(self) -> Seq<u8> {
        self.bytes@
    }
}

impl View for Scalar {
    type V = int;

    /// The field element as an integer in `[0, q)`.
    closed spec fn view(&self) -> int {
        (le_nat(self.bytes@) as int) % group_order()
    }
}

/// Facts every scalar satisfies: its value is reduced, and its encoding has 32 bytes.
pub broadcast proof fn lemma_scalar_facts(s: Scalar)
    ensures
        0 <= #[trigger] s@ < group_order(),
        s.encoding().len() == 32,
{
}

/// The field element `v` (wraps `bls12_381::Scalar::from(u64)`).
#[verifier::external_body]
fn field_from_u64(v: u64) -> (res: Scalar)
    ensures
        res@ == v,
{
    Scalar { bytes: bls12_381::Scalar::from(v).to_bytes() }
}

/// A 512-bit little-endian integer reduced modulo `q`
/// (wraps `bls12_381::Scalar::from_bytes_wide`).
#[verifier::external_body]
fn field_from_bytes_wide(wide: &[u8; 64]) -> (res: Scalar)
    ensures
        res@ == (le_nat(wide@) as int) % group_order(),
{
    Scalar { bytes: bls12_381::Scalar::from_bytes_wide(wide).to_bytes() }
}

/// A field element drawn from the thread-local generator (wraps
/// `ff::Field::random` on `bls12_381::Scalar` with `rand::thread_rng`).
/// Nothing is stated of the value: it depends on chance.
#[verifier::external_body]
fn field_random() -> (res: Scalar) {
    Scalar { bytes: bls12_381::Scalar::random(&mut rand::thread_rng()).to_bytes() }
}

/// `a + b` in the field (wraps `bls12_381::Scalar::add`).
#[verifier::external_body]
fn field_add(a: &Scalar, b: &Scalar) -> (res: Scalar)
    ensures
        res@ == (a@ + b@) % group_order(),
{
    let x = bls12_381::Scalar::from_bytes(&a.bytes).unwrap();
    let y = bls12_381::Scalar::from_bytes(&b.bytes).unwrap();
    Scalar { bytes: x.add(&y).to_bytes() }
}

/// `a - b` in the field (wraps `bls12_381::Scalar::sub`).
#[verifier::external_body]
fn field_sub(a: &Scalar, b: &Scalar) -> (res: Scalar)
    ensures
        res@ == (a@ - b@) % group_order(),
{
    let x = bls12_381::Scalar::from_bytes(&a.bytes).unwrap();
    let y = bls12_381::Scalar::from_bytes(&b.bytes).unwrap();
    Scalar { bytes: x.sub(&y).to_bytes() }
}

/// `a * b` in the field (wraps `bls12_381::Scalar::mul`).
#[verifier::external_body]
fn field_mul(a: &Scalar, b: &Scalar) -> (res: Scalar)
    ensures
        res@ == (a@ * b@) % group_order(),
{
    let x = bls12_381::Scalar::from_bytes(&a.bytes).unwrap();
    let y = bls12_381::Scalar::from_bytes(&b.bytes).unwrap();
    Scalar { bytes: x.mul(&y).to_bytes() }
}

/// The multiplicative inverse of `a`, or `None` for zero
/// (wraps `bls12_381::Scalar::invert`).
#[verifier::external_body]
fn field_invert(a: &Scalar) -> (res: Option<Scalar>)
    ensures
        res is None <==> a@ == 0,
        res matches Some(v) ==> (a@ * v@) % group_order() == 1,
{
    let x = bls12_381::Scalar::from_bytes(&a.bytes).unwrap();
    let v: Option<bls12_381::Scalar> = x.invert().into();
    match v {
        Some(v) => Some(Scalar { bytes: v.to_bytes() }),
        None => None,
    }
}

impl Scalar {
    /// The field element `v`.
    pub fn from_u64(v: u64) -> (res: Scalar)
        ensures
            res@ == v,
    {
        field_from_u64(v)
    }

    /// Zero, the additive identity.
    pub fn zero() -> (res: Scalar)
        ensures
            res@ == 0,
    {
        Scalar::from_u64(0)
    }

    /// One, the multiplicative identity.
    pub fn one() -> (res: Scalar)
        ensures
            res@ == 1,
    {
        Scalar::from_u64(1)
    }

    /// Reduces a 512-bit little-endian integer modulo `q`.
    pub fn from_bytes_wide(wide: &[u8; 64]) -> (res: Scalar)
        ensures
            res@ == (le_nat(wide@) as int) % group_order(),
    {
        field_from_bytes_wide(wide)
    }

    /// A uniformly random field element.
    pub fn random() -> (res: Scalar) {
        field_random()
    }

    /// The canonical little-endian encoding.
    pub fn to_bytes(&self) -> (res: [u8; 32])
        ensures
            res@ == self.encoding(),
            res@ == scalar_encoding(self@),
            le_nat(res@) == self@,
    {
        proof {
            use_type_invariant(self);
            lemma_le_bytes_le_nat(self.bytes@);
            vstd::arithmetic::div_mod::lemma_small_mod(le_nat(self.bytes@), group_order() as nat);
        }
        self.bytes
    }

    /// `self + other` in the field.
    pub fn add(&self, other: &Scalar) -> (res: Scalar)
        ensures
            res@ == (self@ + other@) % group_order(),
    {
        field_add(self, other)
    }

    /// `self - other` in the field.
    pub fn sub(&self, other: &Scalar) -> (res: Scalar)
        ensures
            res@ == (self@ - other@) % group_order(),
    {
        field_sub(self, other)
    }

    /// `self * other` in the field.
    pub fn mul(&self, other: &Scalar) -> (res: Scalar)
        ensures
            res@ == (self@ * other@) % group_order(),
    {
        field_mul(self, other)
    }

    /// The multiplicative inverse, or `None` for zero.
    pub fn invert(&self) -> (res: Option<Scalar>)
        ensures
            res is None <==> self@ == 0,
            res matches Some(v) ==> (self@ * v@) % group_order() == 1 && v@ == inv(self@),
    {
        let res = field_invert(self);
        proof {
            if let Some(v) = res {
                lemma_inv_unique(self@, v@);
            }
        }
        res
    }
}

} // verus!
