//! Nothing-up-my-sleeve generators, each derived by hashing a fixed label.
use vstd::prelude::*;

use crate::hash::{encode_to_g1, g1_dst, g1_encode_dst, g2_dst, hash_to_g1, hash_to_g2};
use crate::parallel::join2;
use crate::point::{encode_to_g1_exponent, hash_to_g1_exponent, hash_to_g2_exponent, G1, G2};
use vstd::string::StringSliceAdditionalSpecFns;

verus! {

/// The ASCII decimal representation of `n`.
pub open spec fn decimal(n: nat) -> Seq<u8>
    decreases n,
{
    if n < 10 {
        seq![(48 + n) as u8]
    } else {
        decimal(n / 10).push((48 + n % 10) as u8)
    }
}

/// Writes `n` in decimal.
pub fn decimal_bytes(n: usize) -> (res: Vec<u8>)
    ensures
        res@ == decimal(n as nat),
    decreases n,
{
    if n < 10 {
        let d: u8 = 48 + n as u8;
        let mut v: Vec<u8> = Vec::new();
        v.push(d);
        proof {
            assert(v@ =~= seq![(48 + n) as u8]);
        }
        v
    } else {
        let mut v = decimal_bytes(n / 10);
        let d: u8 = 48 + (n % 10) as u8;
        v.push(d);
        v
    }
}

/// Exponent of the Pedersen generator `g`.
pub open spec fn pedersen_g_exponent() -> int {
    hash_to_g1_exponent("FEDIMINT_GENERATOR_PEDERSEN_G".spec_bytes(), g1_dst())
}

/// Exponent of the Pedersen generator `h`.
pub open spec fn pedersen_h_exponent() -> int {
    hash_to_g1_exponent("FEDIMINT_GENERATOR_PEDERSEN_H".spec_bytes(), g1_dst())
}

/// Label from which the `i`-th vector generator of `gv` is derived.
pub open spec fn gv_label(i: nat) -> Seq<u8> {
    "FEDIMINT_GENERATOR_GV_".spec_bytes() + decimal(i)
}

/// Label from which the `i`-th vector generator of `hv` is derived.
pub open spec fn hv_label(i: nat) -> Seq<u8> {
    "FEDIMINT_GENERATOR_HV_".spec_bytes() + decimal(i)
}

/// Exponent of the `i`-th vector generator of `gv`.
pub open spec fn gv_exponent(i: nat) -> int {
    encode_to_g1_exponent(gv_label(i), g1_encode_dst())
}

/// Exponent of the `i`-th vector generator of `hv`.
pub open spec fn hv_exponent(i: nat) -> int {
    encode_to_g1_exponent(hv_label(i), g1_encode_dst())
}

/// Exponent of the generator `U` that binds the inner product in range proofs.
pub open spec fn ipp_u_exponent() -> int {
    hash_to_g1_exponent("FEDIMINT_GENERATOR_IPP_U".spec_bytes(), g1_dst())
}

/// The Pedersen commitment generator `g`.
pub fn pedersen_g() -> (res: G1)
    ensures
        res@ == pedersen_g_exponent(),
{
    hash_to_g1("FEDIMINT_GENERATOR_PEDERSEN_G".as_bytes())
}

/// The Pedersen commitment generator `h`.
pub fn pedersen_h() -> (res: G1)
    ensures
        res@ == pedersen_h_exponent(),
{
    hash_to_g1("FEDIMINT_GENERATOR_PEDERSEN_H".as_bytes())
}

/// The e-cash generator `g1`.
pub fn ecash_g1() -> (res: G1)
    ensures
        res@ == hash_to_g1_exponent("FEDIMINT_GENERATOR_ECASH_G1".spec_bytes(), g1_dst()),
{
    hash_to_g1("FEDIMINT_GENERATOR_ECASH_G1".as_bytes())
}

/// The e-cash generator `g2` of G2.
pub fn ecash_g2() -> (res: G2)
    ensures
        res@ == hash_to_g2_exponent("FEDIMINT_GENERATOR_ECASH_G2".spec_bytes(), g2_dst()),
{
    hash_to_g2("FEDIMINT_GENERATOR_ECASH_G2".as_bytes())
}

/// The e-cash generator `h1`.
pub fn ecash_h1() -> (res: G1)
    ensures
        res@ == hash_to_g1_exponent("FEDIMINT_GENERATOR_ECASH_H1".spec_bytes(), g1_dst()),
{
    hash_to_g1("FEDIMINT_GENERATOR_ECASH_H1".as_bytes())
}

/// The e-cash generator `h2`.
pub fn ecash_h2() -> (res: G1)
    ensures
        res@ == hash_to_g1_exponent("FEDIMINT_GENERATOR_ECASH_H2".spec_bytes(), g1_dst()),
{
    hash_to_g1("FEDIMINT_GENERATOR_ECASH_H2".as_bytes())
}

/// The e-cash generator `h3`.
pub fn ecash_h3() -> (res: G1)
    ensures
        res@ == hash_to_g1_exponent("FEDIMINT_GENERATOR_ECASH_H3".spec_bytes(), g1_dst()),
{
    hash_to_g1("FEDIMINT_GENERATOR_ECASH_H3".as_bytes())
}

/// The generator `U` that binds the inner product in range proofs.
pub fn ipp_u() -> (res: G1)
    ensures
        res@ == ipp_u_exponent(),
{
    hash_to_g1("FEDIMINT_GENERATOR_IPP_U".as_bytes())
}

/// `encode_to_g1(prefix || decimal(i))`.
fn labelled_generator(prefix: &[u8], i: usize) -> (res: G1)
    ensures
        res@ == encode_to_g1_exponent(prefix@ + decimal(i as nat), g1_encode_dst()),
{
    let mut label: Vec<u8> = Vec::new();
    label.extend_from_slice(prefix);
    let digits = decimal_bytes(i);
    label.extend_from_slice(digits.as_slice());
    assert(label@ =~= prefix@ + decimal(i as nat));
    encode_to_g1(label.as_slice())
}

/// `encode_to_g1(prefix || decimal(i))` for each `i` in `range.0 .. range.1`.
fn labelled_range(prefix: &[u8], range: (usize, usize)) -> (res: Vec<G1>)
    requires
        range.0 <= range.1,
    ensures
        res.len() == range.1 - range.0,
        forall|j: int|
            0 <= j < res.len() ==> #[trigger] res[j]@ == encode_to_g1_exponent(
                prefix@ + decimal((range.0 + j) as nat),
                g1_encode_dst(),
            ),
{
    let mut res: Vec<G1> = Vec::new();
    let mut i = range.0;
    while i < range.1
        invariant
            range.0 <= i <= range.1,
            res.len() == i - range.0,
            forall|j: int|
                0 <= j < res.len() ==> #[trigger] res[j]@ == encode_to_g1_exponent(
                    prefix@ + decimal((range.0 + j) as nat),
                    g1_encode_dst(),
                ),
        decreases range.1 - i,
    {
        res.push(labelled_generator(prefix, i));
        i = i + 1;
    }
    res
}

/// The 64 generators `encode_to_g1(prefix || decimal(i))`, the two halves
/// derived on two threads.
fn labelled_generators(prefix: &[u8]) -> (res: [G1; 64])
    ensures
        forall|i: int|
            0 <= i < 64 ==> #[trigger] res[i]@ == encode_to_g1_exponent(
                prefix@ + decimal(i as nat),
                g1_encode_dst(),
            ),
{
    let (lo, hi) = join2(labelled_range, prefix, (0, 32), labelled_range, prefix, (32, 64));
    let mut res = [G1::identity(); 64];
    let mut i: usize = 0;
    while i < 64
        invariant
            i <= 64,
            lo.len() == 32,
            hi.len() == 32,
            forall|j: int|
                0 <= j < 32 ==> #[trigger] lo[j]@ == encode_to_g1_exponent(
                    prefix@ + decimal(j as nat),
                    g1_encode_dst(),
                ),
            forall|j: int|
                0 <= j < 32 ==> #[trigger] hi[j]@ == encode_to_g1_exponent(
                    prefix@ + decimal((32 + j) as nat),
                    g1_encode_dst(),
                ),
            forall|j: int|
                0 <= j < i ==> #[trigger] res[j]@ == encode_to_g1_exponent(
                    prefix@ + decimal(j as nat),
                    g1_encode_dst(),
                ),
        decreases 64 - i,
    {
        if i < 32 {
            res[i] = lo[i];
        } else {
            res[i] = hi[i - 32];
        }
        i = i + 1;
    }
    res
}

/// The vector generators `G_i = encode_to_g1("FEDIMINT_GENERATOR_GV_" || i)`, `i < 64`:
/// nothing-up-my-sleeve points whose discrete logarithms nobody knows.
pub fn gv() -> (res: [G1; 64])
    ensures
        forall|i: int| 0 <= i < 64 ==> #[trigger] res[i]@ == gv_exponent(i as nat),
{
    labelled_generators("FEDIMINT_GENERATOR_GV_".as_bytes())
}

/// The vector generators `H_i = encode_to_g1("FEDIMINT_GENERATOR_HV_" || i)`, `i < 64`:
/// nothing-up-my-sleeve points whose discrete logarithms nobody knows.
pub fn hv() -> (res: [G1; 64])
    ensures
        forall|i: int| 0 <= i < 64 ==> #[trigger] res[i]@ == hv_exponent(i as nat),
{
    labelled_generators("FEDIMINT_GENERATOR_HV_".as_bytes())
}

} // verus!
