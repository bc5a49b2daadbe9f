//! Fiat-Shamir challenges: SHA-256 over a domain tag and the compressed
//! encodings of the prover's messages, reduced into the scalar field.
use vstd::prelude::*;

use crate::hash::{hash_scalar, hash_to_scalar};
use crate::point::{g1_encoding, G1};
use crate::scalar::{scalar_encoding, Scalar};
use vstd::string::StringSliceAdditionalSpecFns;

verus! {

/// Challenge `y`, from the commitments `A` and `S` (given by their exponents).
pub open spec fn challenge_y(a: int, s: int) -> int {
    hash_scalar("FEDIMINT_BP_CHALLENGE_Y".spec_bytes() + g1_encoding(a) + g1_encoding(s))
}

/// Challenge `z`, from the challenge `y`.
pub open spec fn challenge_z(y: int) -> int {
    hash_scalar("FEDIMINT_BP_CHALLENGE_Z".spec_bytes() + scalar_encoding(y))
}

/// Challenge `x`, from the commitments `T1`, `T2` and the challenge `z`.
pub open spec fn challenge_x(t1: int, t2: int, z: int) -> int {
    hash_scalar(
        "FEDIMINT_BP_CHALLENGE_X".spec_bytes() + scalar_encoding(z) + g1_encoding(t1) + g1_encoding(
            t2,
        ),
    )
}

/// Challenge of one inner-product round, from its cross terms `L` and `R`.
pub open spec fn challenge_ipp(l: int, r: int) -> int {
    hash_scalar("FEDIMINT_BP_CHALLENGE_IPP".spec_bytes() + g1_encoding(l) + g1_encoding(r))
}

/// Challenge `w`, from the challenge `x` and the prover's `tau_x`, `mu` and
/// `t_hat`; it scales the generator that binds `t_hat` to `<l, r>`.
pub open spec fn challenge_w(x: int, tau_x: int, mu: int, t_hat: int) -> int {
    hash_scalar(
        "FEDIMINT_BP_CHALLENGE_W".spec_bytes() + scalar_encoding(x) + scalar_encoding(tau_x)
            + scalar_encoding(mu) + scalar_encoding(t_hat),
    )
}

/// Compute challenge y from commitments A and S
pub fn compute_challenge_y(a: &G1, s: &G1) -> (res: Scalar)
    ensures
        res@ == challenge_y(a@, s@),
{
    let mut msg: Vec<u8> = Vec::new();
    msg.extend_from_slice("FEDIMINT_BP_CHALLENGE_Y".as_bytes());
    msg.extend_from_slice(&a.to_compressed());
    msg.extend_from_slice(&s.to_compressed());
    assert(msg@ =~= "FEDIMINT_BP_CHALLENGE_Y".spec_bytes() + g1_encoding(a@) + g1_encoding(s@));
    hash_to_scalar(msg.as_slice())
}

/// Compute challenge z from y
pub fn compute_challenge_z(y: Scalar) -> (res: Scalar)
    ensures
        res@ == challenge_z(y@),
{
    let mut msg: Vec<u8> = Vec::new();
    msg.extend_from_slice("FEDIMINT_BP_CHALLENGE_Z".as_bytes());
    msg.extend_from_slice(&y.to_bytes());
    assert(msg@ =~= "FEDIMINT_BP_CHALLENGE_Z".spec_bytes() + scalar_encoding(y@));
    hash_to_scalar(msg.as_slice())
}

/// Compute challenge x from T1 and T2
pub fn compute_challenge_x(t1: &G1, t2: &G1, z: Scalar) -> (res: Scalar)
    ensures
        res@ == challenge_x(t1@, t2@, z@),
{
    let mut msg: Vec<u8> = Vec::new();
    msg.extend_from_slice("FEDIMINT_BP_CHALLENGE_X".as_bytes());
    msg.extend_from_slice(&z.to_bytes());
    msg.extend_from_slice(&t1.to_compressed());
    msg.extend_from_slice(&t2.to_compressed());
    assert(msg@ =~= "FEDIMINT_BP_CHALLENGE_X".spec_bytes() + scalar_encoding(z@) + g1_encoding(t1@)
        + g1_encoding(t2@));
    hash_to_scalar(msg.as_slice())
}

/// Compute challenge for inner product proof round
pub fn compute_challenge_ipp(l: &G1, r: &G1) -> (res: Scalar)
    ensures
        res@ == challenge_ipp(l@, r@),
{
    let mut msg: Vec<u8> = Vec::new();
    msg.extend_from_slice("FEDIMINT_BP_CHALLENGE_IPP".as_bytes());
    msg.extend_from_slice(&l.to_compressed());
    msg.extend_from_slice(&r.to_compressed());
    assert(msg@ =~= "FEDIMINT_BP_CHALLENGE_IPP".spec_bytes() + g1_encoding(l@) + g1_encoding(r@));
    hash_to_scalar(msg.as_slice())
}

/// Compute challenge w from x, tau_x, mu and t_hat
pub fn compute_challenge_w(x: Scalar, tau_x: Scalar, mu: Scalar, t_hat: Scalar) -> (res: Scalar)
    ensures
        res@ == challenge_w(x@, tau_x@, mu@, t_hat@),
{
    let mut msg: Vec<u8> = Vec::new();
    msg.extend_from_slice("FEDIMINT_BP_CHALLENGE_W".as_bytes());
    msg.extend_from_slice(&x.to_bytes());
    msg.extend_from_slice(&tau_x.to_bytes());
    msg.extend_from_slice(&mu.to_bytes());
    msg.extend_from_slice(&t_hat.to_bytes());
    assert(msg@ =~= "FEDIMINT_BP_CHALLENGE_W".spec_bytes() + scalar_encoding(x@) + scalar_encoding(
        tau_x@,
    ) + scalar_encoding(mu@) + scalar_encoding(t_hat@));
    hash_to_scalar(msg.as_slice())
}

} // verus!
