//! Hashing into the scalar field and into the groups.
use vstd::prelude::*;

use crate::point::{
    encode_to_g1_exponent, g1_encode_to_curve, g1_hash_to_curve, g2_hash_to_curve, hash_to_g1_exponent,
    hash_to_g2_exponent, G1, G2,
};
use crate::scalar::{group_order, le_nat, Scalar};
use vstd::string::StringSliceAdditionalSpecFns;

verus! {

/// The SHA-256 digest of `data` (what `bitcoin_hashes::sha256::Hash::hash` returns).
pub uninterp spec fn sha256_digest(data: Seq<u8>) -> Seq<u8>;

/// SHA-256 of `data` (wraps `bitcoin_hashes::sha256::Hash::hash`).
#[verifier::external_body]
fn sha256(data: &[u8]) -> (res: [u8; 32])
    ensures
        res@ == sha256_digest(data@),
{
    bitcoin_hashes::Hash::to_byte_array(<bitcoin_hashes::sha256::Hash as bitcoin_hashes::Hash>::hash(data))
}

/// The field element that a 32-byte digest maps to: the digest read as a
/// little-endian integer, reduced modulo `q`.
pub open spec fn digest_scalar(digest: Seq<u8>) -> int {
    (le_nat(digest) as int) % group_order()
}

/// Appending zero bytes does not change a little-endian integer.
pub proof fn lemma_le_nat_zero_pad(s: Seq<u8>, n: nat)
    ensures
        le_nat(s + Seq::new(n, |i: int| 0u8)) == le_nat(s),
    decreases s.len() + n,
{
    if s.len() == 0 {
        if n > 0 {
            let z = Seq::new(n, |i: int| 0u8);
            assert(s + z =~= z);
            assert(z.drop_first() =~= Seq::new((n - 1) as nat, |i: int| 0u8));
            lemma_le_nat_zero_pad(s, (n - 1) as nat);
            assert(s + Seq::new((n - 1) as nat, |i: int| 0u8) =~= Seq::new((n - 1) as nat, |i: int| 0u8));
        } else {
            assert(s + Seq::new(n, |i: int| 0u8) =~= s);
        }
    } else {
        let z = Seq::new(n, |i: int| 0u8);
        assert((s + z).drop_first() =~= s.drop_first() + z);
        lemma_le_nat_zero_pad(s.drop_first(), n);
    }
}

/// Maps a 32-byte digest to a field element by reducing it modulo `q`.
pub fn map_to_scalar(digest: &[u8; 32]) -> (res: Scalar)
    ensures
        res@ == digest_scalar(digest@),
{
    let mut wide = [0u8; 64];
    let mut i: usize = 0;
    while i < 32
        invariant
            i <= 32,
            forall|j: int| 0 <= j < i ==> wide@[j] == digest@[j],
            forall|j: int| 32 <= j < 64 ==> wide@[j] == 0u8,
        decreases 32 - i,
    {
        wide[i] = digest[i];
        i = i + 1;
    }
    proof {
        assert(wide@ =~= digest@ + Seq::new(32, |i: int| 0u8));
        lemma_le_nat_zero_pad(digest@, 32);
    }
    Scalar::from_bytes_wide(&wide)
}

/// The field element that `msg` hashes to.
pub open spec fn hash_scalar(msg: Seq<u8>) -> int {
    digest_scalar(sha256_digest(msg))
}

/// Hashes a message into the scalar field: SHA-256, then reduction modulo `q`.
pub fn hash_to_scalar(msg: &[u8]) -> (res: Scalar)
    ensures
        res@ == hash_scalar(msg@),
{
    let digest = sha256(msg);
    map_to_scalar(&digest)
}

/// The domain separation tag for hashing into G1.
pub open spec fn g1_dst() -> Seq<u8> {
    "FEDIMINT_ECASH_NG_BLS12381G1_XMD:SHA-256_SSWU_RO_".spec_bytes()
}

/// The domain separation tag for the non-uniform encoding into G1.
pub open spec fn g1_encode_dst() -> Seq<u8> {
    "FEDIMINT_ECASH_NG_BLS12381G1_XMD:SHA-256_SSWU_NU_".spec_bytes()
}

/// The domain separation tag for hashing into G2.
pub open spec fn g2_dst() -> Seq<u8> {
    "FEDIMINT_ECASH_NG_BLS12381G2_XMD:SHA-256_SSWU_RO_".spec_bytes()
}

/// Hashes a message into G1.
pub fn hash_to_g1(msg: &[u8]) -> (res: G1)
    ensures
        res@ == hash_to_g1_exponent(msg@, g1_dst()),
{
    g1_hash_to_curve(msg, "FEDIMINT_ECASH_NG_BLS12381G1_XMD:SHA-256_SSWU_RO_".as_bytes())
}

/// Encodes a message into G1 with the non-uniform encoding, which maps one
/// field element to the curve where hashing maps two: half the work, for
/// points that need only an unknown discrete logarithm.
pub fn encode_to_g1(msg: &[u8]) -> (res: G1)
    ensures
        res@ == encode_to_g1_exponent(msg@, g1_encode_dst()),
{
    g1_encode_to_curve(msg, "FEDIMINT_ECASH_NG_BLS12381G1_XMD:SHA-256_SSWU_NU_".as_bytes())
}

/// Hashes a message into G2.
pub fn hash_to_g2(msg: &[u8]) -> (res: G2)
    ensures
        res@ == hash_to_g2_exponent(msg@, g2_dst()),
{
    g2_hash_to_curve(msg, "FEDIMINT_ECASH_NG_BLS12381G2_XMD:SHA-256_SSWU_RO_".as_bytes())
}

} // verus!
