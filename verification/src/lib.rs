//! Bulletproofs range proofs over BLS12-381, with the algebra of the prover
//! and the verifier stated and proved over the exponents of group elements.
pub mod completeness;
pub mod generators;
pub mod hash;
pub mod inner_product;
pub mod modular;
pub mod parallel;
pub mod multiexp;
pub mod point;
pub mod rp;
pub mod scalar;
pub mod transcript;
pub mod vectors;

use vstd::prelude::*;

use crate::generators::{pedersen_g, pedersen_g_exponent, pedersen_h, pedersen_h_exponent};
use crate::modular::{fq, lemma_fq_add};
use crate::point::G1;
use crate::rp::commit_spec;
use crate::scalar::Scalar;

verus! {

/// The Pedersen commitment `value * g + blinding * h`.
pub fn pedersen_commit(value: u64, blinding: Scalar) -> (res: G1)
    ensures
        res@ == commit_spec(value as int, blinding@),
        res@ == fq(value * pedersen_g_exponent() + blinding@ * pedersen_h_exponent()),
{
    let v = Scalar::from_u64(value);
    let res = pedersen_g().mul(&v).add(&pedersen_h().mul(&blinding));
    proof {
        lemma_fq_add(value * crate::generators::pedersen_g_exponent(), blinding@ * crate::generators::pedersen_h_exponent());
    }
    res
}

} // verus!
