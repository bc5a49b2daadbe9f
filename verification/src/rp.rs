//! Bulletproofs range proofs that a committed value lies in `[0, 2^64)`.
use vstd::prelude::*;

use crate::modular::{
    fq, inv, invertible, lemma_fq_add, lemma_fq_range, lemma_invertible_witness,
    lemma_zero_not_invertible, lemma_fq_add_cong, lemma_fq_mul, lemma_fq_mul_cong, lemma_fq_small,
    lemma_fq_sub, lemma_fq_sub_cong, lemma_inv_unique,
};
use crate::completeness::lemma_range_proof_completeness;
use crate::generators::{
    gv, gv_exponent, hv, hv_exponent, ipp_u, ipp_u_exponent, pedersen_g, pedersen_g_exponent,
    pedersen_h, pedersen_h_exponent,
};
use crate::inner_product::{
    ipp_meets_zero, ipp_prove_spec, ipp_verify_spec, lemma_ipp_fails_only_on_zero, lemma_ipp_total, prove_ipp, verify_ipp, weighted, InnerProductProof,
};
use crate::point::{lemma_g1_reduced, G1};
use crate::transcript::{
    challenge_ipp, challenge_w, challenge_x, challenge_y, challenge_z, compute_challenge_w, compute_challenge_x,
    compute_challenge_y, compute_challenge_z,
};
use crate::scalar::{group_order, lemma_scalar_facts, Scalar};
use crate::vectors::{
    dot, hadamard_product, inner_product, lemma_fq_mul_regroup, lemma_sum_prod_cong,
    lemma_sum_prod_cong_terms, lemma_sum_upto_cong, points_view,
    powers_of_bp, scalar_vector_mul_bp, scalars_view, seq_sum, sum_prod, sum_scalars, sum_upto,
    vector_add_bp, vector_commit_bp, vector_sub_bp, ones_vec,
};
use vstd::arithmetic::power::pow;
use vstd::arithmetic::power2::pow2;

verus! {

broadcast use {lemma_scalar_facts, lemma_g1_reduced};

/// Bit `i` of `v`.
pub open spec fn bit(v: u64, i: int) -> int {
    (v as int / pow2(i as nat) as int) % 2
}

/// The 64 bits of `v`, least significant first.
pub open spec fn bits_of(v: u64) -> Seq<int> {
    Seq::new(64, |i: int| bit(v, i))
}

/// `[1, y, y², ..., y^(n-1)]` over the integers.
pub open spec fn powers(y: int, n: nat) -> Seq<int> {
    Seq::new(n, |i: int| pow(y, i as nat))
}

/// `[1, 2, 4, ..., 2^(n-1)]`.
pub open spec fn twos(n: nat) -> Seq<int> {
    Seq::new(n, |i: int| pow2(i as nat) as int)
}

/// `delta(y, z) = (z - z²) <1, y^n> - z³ <1, 2^n>` for `n = 64`, reduced.
pub open spec fn delta_spec(y: int, z: int) -> int {
    fq((z - z * z) * seq_sum(powers(y, 64)) - z * z * z * seq_sum(twos(64)))
}

/// `a - z` for each entry.
pub open spec fn minus_z(a: Seq<int>, z: int) -> Seq<int> {
    Seq::new(a.len(), |i: int| a[i] - z)
}

/// `y[i] * s[i]` for each entry of `s`.
pub open spec fn times(y: Seq<int>, s: Seq<int>) -> Seq<int> {
    Seq::new(s.len(), |i: int| y[i] * s[i])
}

/// `y[i] * (a[i] + z) + z² 2^i` for each entry of `a`.
pub open spec fn r_const(a: Seq<int>, y: Seq<int>, z: int) -> Seq<int> {
    Seq::new(a.len(), |i: int| y[i] * (a[i] + z) + z * z * pow2(i as nat))
}

/// The coefficient `t1 = <aL - z, y∘sR> + <sL, y∘(aR + z) + z² 2^n>`, reduced.
pub open spec fn t1_spec(
    a_l: Seq<int>,
    a_r: Seq<int>,
    s_l: Seq<int>,
    s_r: Seq<int>,
    y: Seq<int>,
    z: int,
) -> int {
    fq(dot(minus_z(a_l, z), times(y, s_r)) + dot(s_l, r_const(a_r, y, z)))
}

/// The coefficient `t2 = <sL, y∘sR>`, reduced.
pub open spec fn t2_spec(s_l: Seq<int>, s_r: Seq<int>, y: Seq<int>) -> int {
    fq(dot(s_l, times(y, s_r)))
}

/// Powers of two below `2^64` are field elements.
proof fn lemma_pow2_small(i: nat)
    requires
        i < 64,
    ensures
        0 < pow2(i) < group_order(),
        pow2(i) <= u64::MAX,
{
    vstd::arithmetic::power2::lemma_pow2_pos(i);
    vstd::arithmetic::power2::lemma_pow2_strictly_increases(i, 64);
    vstd::arithmetic::power2::lemma2_to64();
}

/// `[2^0, ..., 2^(n-1)]` as scalars.
fn two_powers_vec(n: usize) -> (res: Vec<Scalar>)
    requires
        n <= 64,
    ensures
        res.len() == n,
        forall|i: int| 0 <= i < n ==> #[trigger] res[i]@ == pow2(i as nat),
{
    let mut res: Vec<Scalar> = Vec::new();
    let mut i: usize = 0;
    while i < n
        invariant
            i <= n <= 64,
            res.len() == i,
            forall|j: int| 0 <= j < i ==> #[trigger] res[j]@ == pow2(j as nat),
        decreases n - i,
    {
        let k: u64 = i as u64;
        proof {
            lemma_pow2_small(i as nat);
            vstd::bits::lemma_u64_shl_is_mul(1, k);
        }
        res.push(Scalar::from_u64(1u64 << k));
        i = i + 1;
    }
    res
}

/// Decompose a value into its 64-bit representation (LSB first)
pub fn bit_decompose_bp(value: u64) -> (res: [Scalar; 64])
    ensures
        forall|i: int| 0 <= i < 64 ==> #[trigger] res[i]@ == bit(value, i),
{
    let mut bits = [Scalar::zero(); 64];
    let mut i: usize = 0;
    while i < 64
        invariant
            i <= 64,
            forall|j: int| 0 <= j < i ==> #[trigger] bits[j]@ == bit(value, j),
        decreases 64 - i,
    {
        let k: u64 = i as u64;
        let w: u64 = value >> k;
        proof {
            vstd::bits::lemma_u64_shr_is_div(value, k);
            assert((w & 1u64) == w % 2) by (bit_vector);
        }
        if (w & 1) == 1 {
            bits[i] = Scalar::one();
        } else {
            bits[i] = Scalar::zero();
        }
        i = i + 1;
    }
    bits
}

/// Compute delta(y,z) = (z - z^2)*<1^n, y^n> - z^3*<1^n, 2^n> for n=64
pub fn compute_delta_bp(y: Scalar, z: Scalar) -> (res: Scalar)
    ensures
        res@ == delta_spec(y@, z@),
{
    let z_sq = z.mul(&z);
    let z_cubed = z_sq.mul(&z);

    let y_powers = powers_of_bp(y, 64);
    let two_powers = two_powers_vec(64);

    let sum_y = sum_scalars(y_powers.as_slice());
    let sum_two = sum_scalars(two_powers.as_slice());

    let res = z.sub(&z_sq).mul(&sum_y).sub(&z_cubed.mul(&sum_two));
    proof {
        let py = powers(y@, 64);
        let tw = twos(64);
        assert forall|i: int| 0 <= i < 64 implies #[trigger] fq(scalars_view(y_powers@)[i]) == fq(
            py[i],
        ) by {
            lemma_fq_mul(pow(y@, i as nat), 1);
            lemma_fq_small(scalars_view(y_powers@)[i]);
        }
        assert forall|i: int| 0 <= i < 64 implies #[trigger] fq(scalars_view(two_powers@)[i]) == fq(
            tw[i],
        ) by {}
        lemma_sum_upto_cong(scalars_view(y_powers@), py, 64);
        lemma_sum_upto_cong(scalars_view(two_powers@), tw, 64);
        let sy = seq_sum(py);
        let st = seq_sum(tw);
        // sum_y = sy, sum_two = st, z_sq = z², z_cubed = z³ (mod q)
        lemma_fq_small(z@);
        lemma_fq_mul_cong(z_sq@, z@, z@ * z@, z@);
        lemma_fq_sub_cong(z@, z_sq@, z@, z@ * z@);
        lemma_fq_mul_cong(z@ - z_sq@, sum_y@, z@ - z@ * z@, sy);
        lemma_fq_mul_cong(z_cubed@, sum_two@, z@ * z@ * z@, st);
        lemma_fq_mul(z@ - z_sq@, sum_y@);
        lemma_fq_mul(z_cubed@, sum_two@);
        lemma_fq_sub_cong(
            fq(fq(z@ - z_sq@) * sum_y@),
            fq(z_cubed@ * sum_two@),
            (z@ - z@ * z@) * sy,
            z@ * z@ * z@ * st,
        );
        lemma_fq_small(z_sq@);
        lemma_fq_small(sum_y@);
        lemma_fq_small(sum_two@);
        lemma_fq_small(z_cubed@);
        lemma_fq_mul_cong(fq(z@ - z_sq@), sum_y@, z@ - z_sq@, sum_y@);
    }
    res
}

/// Create weighted H generators: H_i' = y^(-i) * H_i  (inverse powers!)
pub fn create_weighted_h_bp(h_vec: &[G1; 64], y_powers: &[Scalar; 64]) -> (res: [G1; 64])
    requires
        forall|i: int| 0 <= i < 64 ==> #[trigger] y_powers[i]@ != 0,
    ensures
        forall|i: int| 0 <= i < 64 ==> #[trigger] res[i]@ == fq(inv(y_powers[i]@) * h_vec[i]@),
{
    let mut weighted = [G1::identity(); 64];
    let mut i: usize = 0;
    while i < 64
        invariant
            i <= 64,
            forall|j: int| 0 <= j < 64 ==> #[trigger] y_powers[j]@ != 0,
            forall|j: int| 0 <= j < i ==> #[trigger] weighted[j]@ == fq(inv(y_powers[j]@) * h_vec[j]@),
        decreases 64 - i,
    {
        assert(y_powers[i as int]@ != 0);
        let y_inv = y_powers[i].invert().unwrap();
        proof {
            lemma_inv_unique(y_powers[i as int]@, y_inv@);
        }
        weighted[i] = h_vec[i].mul(&y_inv);
        i = i + 1;
    }
    weighted
}

/// Compute polynomial t1 coefficient
#[verifier::spinoff_prover]
pub fn compute_t1_bp(
    a_l: &[Scalar],
    a_r: &[Scalar],
    s_l: &[Scalar],
    s_r: &[Scalar],
    y_powers: &[Scalar],
    z: Scalar,
) -> (res: Scalar)
    requires
        a_l.len() <= 64,
        a_r.len() == a_l.len(),
        s_l.len() == a_l.len(),
        s_r.len() == a_l.len(),
        y_powers.len() == a_l.len(),
    ensures
        res@ == t1_spec(
            scalars_view(a_l@),
            scalars_view(a_r@),
            scalars_view(s_l@),
            scalars_view(s_r@),
            scalars_view(y_powers@),
            z@,
        ),
{
    let n = a_l.len();
    let ones = ones_vec(n);
    let two_powers = two_powers_vec(n);

    let z_sq = z.mul(&z);
    let z_ones = scalar_vector_mul_bp(z, ones.as_slice());

    let l0 = vector_sub_bp(a_l, z_ones.as_slice());
    let r0_temp = vector_add_bp(a_r, z_ones.as_slice());
    let y_sr = hadamard_product(y_powers, s_r);
    let y_r0 = hadamard_product(y_powers, r0_temp.as_slice());
    let z_sq_two = scalar_vector_mul_bp(z_sq, two_powers.as_slice());
    let r0 = vector_add_bp(y_r0.as_slice(), z_sq_two.as_slice());

    let res = inner_product(l0.as_slice(), y_sr.as_slice()).add(
        &inner_product(s_l, r0.as_slice()),
    );
    proof {
        let al = scalars_view(a_l@);
        let ar = scalars_view(a_r@);
        let sl = scalars_view(s_l@);
        let sr = scalars_view(s_r@);
        let yp = scalars_view(y_powers@);
        let zz = z@;
        lemma_fq_small(zz);
        assert forall|i: int| 0 <= i < n implies #[trigger] z_ones[i]@ == zz by {
            assert(zz * 1 == zz);
        }
        assert forall|i: int| 0 <= i < n implies #[trigger] fq(scalars_view(l0@)[i]) == fq(
            minus_z(al, zz)[i],
        ) by {
            lemma_fq_sub(al[i], zz);
            lemma_fq_small(l0[i]@);
        }
        assert forall|i: int| 0 <= i < n implies #[trigger] fq(scalars_view(y_sr@)[i]) == fq(
            times(yp, sr)[i],
        ) by {
            lemma_fq_small(y_sr[i]@);
        }
        assert forall|i: int| 0 <= i < n implies #[trigger] fq(scalars_view(r0@)[i]) == fq(
            r_const(ar, yp, zz)[i],
        ) by {
            lemma_fq_small(r0[i]@);
            lemma_fq_small(yp[i]);
            lemma_fq_small(sl[i]);
            // r0_temp = aR + z, y_r0 = y (aR + z), z_sq_two = z² 2^i
            lemma_fq_mul_cong(yp[i], r0_temp[i]@, yp[i], ar[i] + zz);
            lemma_fq_mul_cong(z_sq@, pow2(i as nat) as int, zz * zz, pow2(i as nat) as int);
            lemma_fq_add_cong(
                y_r0[i]@,
                z_sq_two[i]@,
                yp[i] * (ar[i] + zz),
                zz * zz * pow2(i as nat),
            );
        }
        assert forall|i: int| 0 <= i < n implies #[trigger] fq(sl[i]) == fq(sl[i]) by {}
        lemma_sum_prod_cong(scalars_view(l0@), scalars_view(y_sr@), minus_z(al, zz), times(yp, sr), n as int);
        lemma_sum_prod_cong(sl, scalars_view(r0@), sl, r_const(ar, yp, zz), n as int);
        lemma_fq_add_cong(
            fq(dot(scalars_view(l0@), scalars_view(y_sr@))),
            fq(dot(sl, scalars_view(r0@))),
            dot(minus_z(al, zz), times(yp, sr)),
            dot(sl, r_const(ar, yp, zz)),
        );
        lemma_fq_add(dot(scalars_view(l0@), scalars_view(y_sr@)), dot(sl, scalars_view(r0@)));
        lemma_fq_add(dot(minus_z(al, zz), times(yp, sr)), dot(sl, r_const(ar, yp, zz)));
    }
    res
}

/// Compute polynomial t2 coefficient
pub fn compute_t2_bp(s_l: &[Scalar], s_r: &[Scalar], y_powers: &[Scalar]) -> (res: Scalar)
    requires
        s_r.len() == s_l.len(),
        y_powers.len() == s_l.len(),
    ensures
        res@ == t2_spec(scalars_view(s_l@), scalars_view(s_r@), scalars_view(y_powers@)),
{
    let y_sr = hadamard_product(y_powers, s_r);
    proof {
        let sl = scalars_view(s_l@);
        let sr = scalars_view(s_r@);
        let yp = scalars_view(y_powers@);
        assert forall|i: int| 0 <= i < s_l.len() implies #[trigger] fq(scalars_view(y_sr@)[i]) == fq(
            times(yp, sr)[i],
        ) by {
            lemma_fq_small(y_sr[i]@);
        }
        assert forall|i: int| 0 <= i < s_l.len() implies #[trigger] fq(sl[i]) == fq(sl[i]) by {}
        lemma_sum_prod_cong(sl, scalars_view(y_sr@), sl, times(yp, sr), s_l.len() as int);
    }
    inner_product(s_l, y_sr.as_slice())
}

/// Compute l and r vectors at challenge point x
pub fn compute_lr_vectors_bp(
    a_l: &[Scalar],
    a_r: &[Scalar],
    s_l: &[Scalar],
    s_r: &[Scalar],
    y_powers: &[Scalar],
    z: Scalar,
    x: Scalar,
) -> (res: (Vec<Scalar>, Vec<Scalar>))
    requires
        a_l.len() <= 64,
        a_r.len() == a_l.len(),
        s_l.len() == a_l.len(),
        s_r.len() == a_l.len(),
        y_powers.len() == a_l.len(),
    ensures
        res.0.len() == a_l.len(),
        res.1.len() == a_l.len(),
        forall|i: int|
            0 <= i < a_l.len() ==> #[trigger] res.0[i]@ == fq(a_l[i]@ - z@ + x@ * s_l[i]@),
        forall|i: int|
            0 <= i < a_l.len() ==> #[trigger] res.1[i]@ == fq(
                y_powers[i]@ * (a_r[i]@ + z@ + x@ * s_r[i]@) + z@ * z@ * pow2(i as nat),
            ),
        scalars_view(res.0@) == l_spec(scalars_view(a_l@), scalars_view(s_l@), z@, x@),
        scalars_view(res.1@) == r_spec(
            scalars_view(a_r@),
            scalars_view(s_r@),
            scalars_view(y_powers@),
            z@,
            x@,
        ),
{
    let n = a_l.len();
    let ones = ones_vec(n);
    let two_powers = two_powers_vec(n);

    let z_sq = z.mul(&z);
    let z_ones = scalar_vector_mul_bp(z, ones.as_slice());

    // l = (aL - z*1^n) + sL*x
    let l0 = vector_sub_bp(a_l, z_ones.as_slice());
    let x_sl = scalar_vector_mul_bp(x, s_l);
    let l = vector_add_bp(l0.as_slice(), x_sl.as_slice());

    // r = y^n ∘ ((aR + z*1^n) + sR*x) + z^2*2^n
    let r0_temp = vector_add_bp(a_r, z_ones.as_slice());
    let x_sr = scalar_vector_mul_bp(x, s_r);
    let r_temp = vector_add_bp(r0_temp.as_slice(), x_sr.as_slice());
    let z_sq_two = scalar_vector_mul_bp(z_sq, two_powers.as_slice());
    let y_r = hadamard_product(y_powers, r_temp.as_slice());
    let r = vector_add_bp(y_r.as_slice(), z_sq_two.as_slice());
    proof {
        lemma_fq_small(z@);
        assert forall|i: int| 0 <= i < n implies #[trigger] l[i]@ == fq(
            a_l[i]@ - z@ + x@ * s_l[i]@,
        ) by {
            assert(z@ * 1 == z@);
            lemma_fq_add_cong(l0[i]@, x_sl[i]@, a_l[i]@ - z@, x@ * s_l[i]@);
            lemma_fq_sub(a_l[i]@, z@);
            lemma_fq_small(l0[i]@);
            lemma_fq_small(x_sl[i]@);
        }
        assert forall|i: int| 0 <= i < n implies #[trigger] r[i]@ == fq(
            y_powers[i]@ * (a_r[i]@ + z@ + x@ * s_r[i]@) + z@ * z@ * pow2(i as nat),
        ) by {
            assert(z@ * 1 == z@);
            lemma_fq_small(r0_temp[i]@);
            lemma_fq_small(x_sr[i]@);
            lemma_fq_small(y_powers[i]@);
            lemma_fq_add_cong(r0_temp[i]@, x_sr[i]@, a_r[i]@ + z@, x@ * s_r[i]@);
            lemma_fq_mul_cong(y_powers[i]@, r_temp[i]@, y_powers[i]@, a_r[i]@ + z@ + x@ * s_r[i]@);
            lemma_fq_mul_cong(z_sq@, pow2(i as nat) as int, z@ * z@, pow2(i as nat) as int);
            lemma_fq_add_cong(
                y_r[i]@,
                z_sq_two[i]@,
                y_powers[i]@ * (a_r[i]@ + z@ + x@ * s_r[i]@),
                z@ * z@ * pow2(i as nat),
            );
            lemma_fq_small(y_r[i]@);
            lemma_fq_small(z_sq_two[i]@);
        }
        assert(scalars_view(l@) =~= l_spec(scalars_view(a_l@), scalars_view(s_l@), z@, x@));
        assert(scalars_view(r@) =~= r_spec(
            scalars_view(a_r@),
            scalars_view(s_r@),
            scalars_view(y_powers@),
            z@,
            x@,
        ));
    }
    (l, r)
}

/// `l` is linear in the challenge `x`: `l(x) = l(0) + x sL`, where
/// `l(0) = aL - z 1^n`.
pub proof fn lemma_l_linear(a_l: Seq<int>, s_l: Seq<int>, z: int, x: int)
    ensures
        forall|i: int| 0 <= i < a_l.len() ==> #[trigger] l_spec(a_l, s_l, z, 0)[i] == fq(a_l[i] - z),
        forall|i: int|
            0 <= i < a_l.len() ==> #[trigger] l_spec(a_l, s_l, z, x)[i] == fq(
                l_spec(a_l, s_l, z, 0)[i] + x * s_l[i],
            ),
{
    assert forall|i: int| 0 <= i < a_l.len() implies #[trigger] l_spec(a_l, s_l, z, 0)[i] == fq(
        a_l[i] - z,
    ) by {
        assert(0 * s_l[i] == 0);
    }
    assert forall|i: int| 0 <= i < a_l.len() implies #[trigger] l_spec(a_l, s_l, z, x)[i] == fq(
        l_spec(a_l, s_l, z, 0)[i] + x * s_l[i],
    ) by {
        assert(0 * s_l[i] == 0);
        lemma_fq_add(a_l[i] - z, x * s_l[i]);
    }
}

/// The exponents of the vector generators `gv`.
pub open spec fn gv_exps() -> Seq<int> {
    Seq::new(64, |i: int| gv_exponent(i as nat))
}

/// The exponents of the vector generators `hv`.
pub open spec fn hv_exps() -> Seq<int> {
    Seq::new(64, |i: int| hv_exponent(i as nat))
}

/// `aR = aL - 1^n`, reduced.
pub open spec fn a_r_spec(a_l: Seq<int>) -> Seq<int> {
    Seq::new(a_l.len(), |i: int| fq(a_l[i] - 1))
}

/// `[1, y, ..., y^63]`, each reduced.
pub open spec fn y_powers_spec(y: int) -> Seq<int> {
    Seq::new(64, |i: int| fq(pow(y, i as nat)))
}

/// `H'_i = y_i⁻¹ H_i`.
pub open spec fn weighted_h_spec(y_powers: Seq<int>, h: Seq<int>) -> Seq<int> {
    Seq::new(h.len(), |i: int| fq(inv(y_powers[i]) * h[i]))
}

/// `l = aL - z 1^n + x sL`, reduced.
pub open spec fn l_spec(a_l: Seq<int>, s_l: Seq<int>, z: int, x: int) -> Seq<int> {
    Seq::new(a_l.len(), |i: int| fq(a_l[i] - z + x * s_l[i]))
}

/// `r = y^n ∘ (aR + z 1^n + x sR) + z² 2^n`, reduced.
pub open spec fn r_spec(a_r: Seq<int>, s_r: Seq<int>, y_powers: Seq<int>, z: int, x: int) -> Seq<
    int,
> {
    Seq::new(
        a_r.len(),
        |i: int| fq(y_powers[i] * (a_r[i] + z + x * s_r[i]) + z * z * pow2(i as nat)),
    )
}

/// The exponent of the Pedersen commitment `value * g + blinding * h`.
pub open spec fn commit_spec(value: int, blinding: int) -> int {
    fq(value * pedersen_g_exponent() + blinding * pedersen_h_exponent())
}

/// Pedersen commitments are additively homomorphic over every value and
/// blinding: the commitment to `v1 + v2` under `b1 + b2` is the sum of the
/// commitments to `v1` under `b1` and to `v2` under `b2`.
pub proof fn lemma_commit_homomorphic(v1: int, b1: int, v2: int, b2: int)
    ensures
        commit_spec(v1 + v2, b1 + b2) == fq(commit_spec(v1, b1) + commit_spec(v2, b2)),
{
    let g = pedersen_g_exponent();
    let h = pedersen_h_exponent();
    let x1 = v1 * g + b1 * h;
    let x2 = v2 * g + b2 * h;
    assert((v1 + v2) * g + (b1 + b2) * h == (v1 * g + b1 * h) + (v2 * g + b2 * h)) by (nonlinear_arith);
    lemma_fq_add(x1, x2);
}

/// Raising the committed value by one adds the generator `g` to the
/// commitment, and a zero value commits to `blinding * h` alone.
pub proof fn lemma_commit_step(value: int, blinding: int)
    ensures
        commit_spec(value + 1, blinding) == fq(commit_spec(value, blinding) + pedersen_g_exponent()),
        commit_spec(0, blinding) == fq(blinding * pedersen_h_exponent()),
{
    let g = pedersen_g_exponent();
    let h = pedersen_h_exponent();
    assert((value + 1) * g + blinding * h == (value * g + blinding * h) + g) by (nonlinear_arith);
    lemma_fq_add(value * g + blinding * h, g);
    lemma_fq_range(g);
    assert(0 * g == 0);
}

/// The exponent of the generator `Q = w U` that binds `t_hat` to `<l, r>`,
/// with `w` the challenge on `x`, `tau_x`, `mu` and `t_hat`.
pub open spec fn ipp_q_spec(x: int, tau_x: int, mu: int, t_hat: int) -> int {
    fq(challenge_w(x, tau_x, mu, t_hat) * ipp_u_exponent())
}

/// The values a range proof carries, with each group element given by its exponent.
pub struct RangeProofView {
    pub a: int,
    pub s: int,
    pub t1: int,
    pub t2: int,
    pub tau_x: int,
    pub mu: int,
    pub t_hat: int,
    pub ls: Seq<int>,
    pub rs: Seq<int>,
    pub ipp_a: int,
    pub ipp_b: int,
}

/// The range proof that the prover produces for `value` and `blinding` with
/// the random vectors `s_l`, `s_r` and blindings `alpha`, `rho`, `tau1`,
/// `tau2`; `None` where the prover meets a zero that it cannot invert.
pub open spec fn rp_prove_spec(
    value: u64,
    blinding: int,
    s_l: Seq<int>,
    s_r: Seq<int>,
    alpha: int,
    rho: int,
    tau1: int,
    tau2: int,
) -> Option<RangeProofView> {
    let g = pedersen_g_exponent();
    let h = pedersen_h_exponent();
    let a_l = bits_of(value);
    let a_r = a_r_spec(a_l);
    let a = fq(dot(a_l, gv_exps()) + dot(a_r, hv_exps()) + alpha * h);
    let s = fq(dot(s_l, gv_exps()) + dot(s_r, hv_exps()) + rho * h);
    let y = challenge_y(a, s);
    let z = challenge_z(y);
    let yp = y_powers_spec(y);
    let t1 = fq(t1_spec(a_l, a_r, s_l, s_r, yp, z) * g + tau1 * h);
    let t2 = fq(t2_spec(s_l, s_r, yp) * g + tau2 * h);
    let x = challenge_x(t1, t2, z);
    let l = l_spec(a_l, s_l, z, x);
    let r = r_spec(a_r, s_r, yp, z, x);
    if exists|i: int| 0 <= i < 64 && !invertible(#[trigger] yp[i]) {
        None
    } else {
        let tau_x = fq(tau1 * x + tau2 * x * x + z * z * blinding);
        let mu = fq(alpha + rho * x);
        let t_hat = fq(dot(l, r));
        let q = ipp_q_spec(x, tau_x, mu, t_hat);
        match ipp_prove_spec(l, r, gv_exps(), weighted_h_spec(yp, hv_exps()), q) {
            None => None,
            Some(t) => Some(
                RangeProofView {
                    a,
                    s,
                    t1,
                    t2,
                    tau_x,
                    mu,
                    t_hat,
                    ls: t.ls,
                    rs: t.rs,
                    ipp_a: t.a,
                    ipp_b: t.b,
                },
            ),
        }
    }
}

/// The prover fails only on a zero that it cannot invert: for every value, blinding
/// and choice of randomness it produces a proof unless some power `y^i` of the
/// challenge `y` has no inverse, or some round of the inner-product argument
/// draws a challenge with no inverse.
pub proof fn lemma_prover_fails_only_on_zero(
    value: u64,
    blinding: int,
    s_l: Seq<int>,
    s_r: Seq<int>,
    alpha: int,
    rho: int,
    tau1: int,
    tau2: int,
)
    ensures
        rp_prove_spec(value, blinding, s_l, s_r, alpha, rho, tau1, tau2) is None <==> ({
            let g = pedersen_g_exponent();
            let h = pedersen_h_exponent();
            let a_l = bits_of(value);
            let a_r = a_r_spec(a_l);
            let a = fq(dot(a_l, gv_exps()) + dot(a_r, hv_exps()) + alpha * h);
            let s = fq(dot(s_l, gv_exps()) + dot(s_r, hv_exps()) + rho * h);
            let y = challenge_y(a, s);
            let z = challenge_z(y);
            let yp = y_powers_spec(y);
            let x = challenge_x(
                fq(t1_spec(a_l, a_r, s_l, s_r, yp, z) * g + tau1 * h),
                fq(t2_spec(s_l, s_r, yp) * g + tau2 * h),
                z,
            );
            let l = l_spec(a_l, s_l, z, x);
            let r = r_spec(a_r, s_r, yp, z, x);
            let tau_x = fq(tau1 * x + tau2 * x * x + z * z * blinding);
            let mu = fq(alpha + rho * x);
            let q = ipp_q_spec(x, tau_x, mu, fq(dot(l, r)));
            ||| exists|i: int| 0 <= i < 64 && !invertible(#[trigger] yp[i])
            ||| ipp_meets_zero(l, r, gv_exps(), weighted_h_spec(yp, hv_exps()), q)
        }),
{
    let g = pedersen_g_exponent();
    let h = pedersen_h_exponent();
    let a_l = bits_of(value);
    let a_r = a_r_spec(a_l);
    let a = fq(dot(a_l, gv_exps()) + dot(a_r, hv_exps()) + alpha * h);
    let s = fq(dot(s_l, gv_exps()) + dot(s_r, hv_exps()) + rho * h);
    let y = challenge_y(a, s);
    let z = challenge_z(y);
    let yp = y_powers_spec(y);
    let x = challenge_x(
        fq(t1_spec(a_l, a_r, s_l, s_r, yp, z) * g + tau1 * h),
        fq(t2_spec(s_l, s_r, yp) * g + tau2 * h),
        z,
    );
    let l = l_spec(a_l, s_l, z, x);
    let r = r_spec(a_r, s_r, yp, z, x);
    let tau_x = fq(tau1 * x + tau2 * x * x + z * z * blinding);
    let mu = fq(alpha + rho * x);
    let q = ipp_q_spec(x, tau_x, mu, fq(dot(l, r)));
    lemma_ipp_fails_only_on_zero(l, r, gv_exps(), weighted_h_spec(yp, hv_exps()), q);
}

/// Where every challenge `y` has invertible powers and every inner-product
/// challenge has an inverse, the prover produces a proof for every value,
/// blinding and choice of randomness.
pub proof fn lemma_prover_total(
    value: u64,
    blinding: int,
    s_l: Seq<int>,
    s_r: Seq<int>,
    alpha: int,
    rho: int,
    tau1: int,
    tau2: int,
)
    requires
        forall|a: int, s: int, i: int|
            0 <= i < 64 ==> invertible(#[trigger] y_powers_spec(challenge_y(a, s))[i]),
        forall|l: int, r: int| invertible(#[trigger] challenge_ipp(l, r)),
    ensures
        rp_prove_spec(value, blinding, s_l, s_r, alpha, rho, tau1, tau2) is Some,
{
    lemma_prover_fails_only_on_zero(value, blinding, s_l, s_r, alpha, rho, tau1, tau2);
    let g = pedersen_g_exponent();
    let h = pedersen_h_exponent();
    let a_l = bits_of(value);
    let a_r = a_r_spec(a_l);
    let a = fq(dot(a_l, gv_exps()) + dot(a_r, hv_exps()) + alpha * h);
    let s = fq(dot(s_l, gv_exps()) + dot(s_r, hv_exps()) + rho * h);
    let y = challenge_y(a, s);
    let z = challenge_z(y);
    let yp = y_powers_spec(y);
    let x = challenge_x(
        fq(t1_spec(a_l, a_r, s_l, s_r, yp, z) * g + tau1 * h),
        fq(t2_spec(s_l, s_r, yp) * g + tau2 * h),
        z,
    );
    let l = l_spec(a_l, s_l, z, x);
    let r = r_spec(a_r, s_r, yp, z, x);
    let tau_x = fq(tau1 * x + tau2 * x * x + z * z * blinding);
    let mu = fq(alpha + rho * x);
    let q = ipp_q_spec(x, tau_x, mu, fq(dot(l, r)));
    lemma_ipp_total(l, r, gv_exps(), weighted_h_spec(yp, hv_exps()), q);
    lemma_ipp_fails_only_on_zero(l, r, gv_exps(), weighted_h_spec(yp, hv_exps()), q);
    assert forall|i: int| 0 <= i < 64 implies invertible(#[trigger] yp[i]) by {
        assert(invertible(y_powers_spec(challenge_y(a, s))[i]));
    }
}

/// Bulletproofs range proof structure
#[derive(Clone, Copy)]
pub struct BulletproofRangeProof {
    /// Commitment to aL, aR
    pub a: G1,
    /// Commitment to sL, sR
    pub s: G1,
    /// Commitment to t1
    pub t1: G1,
    /// Commitment to t2
    pub t2: G1,
    /// Blinding for t
    pub tau_x: Scalar,
    /// Blinding for vectors
    pub mu: Scalar,
    /// Inner product value <l, r>
    pub t_hat: Scalar,
    /// Inner product proof
    pub ipp: InnerProductProof,
}

/// The values a proof carries.
pub open spec fn proof_view(p: BulletproofRangeProof) -> RangeProofView {
    RangeProofView {
        a: p.a@,
        s: p.s@,
        t1: p.t1@,
        t2: p.t2@,
        tau_x: p.tau_x@,
        mu: p.mu@,
        t_hat: p.t_hat@,
        ls: points_view(p.ipp.l_vec@),
        rs: points_view(p.ipp.r_vec@),
        ipp_a: p.ipp.a@,
        ipp_b: p.ipp.b@,
    }
}

/// The view of an optional proof.
pub open spec fn option_view(p: Option<BulletproofRangeProof>) -> Option<RangeProofView> {
    match p {
        Some(p) => Some(proof_view(p)),
        None => None,
    }
}

/// Whether every power of `y` has an inverse.
fn all_invertible(y_powers: &[Scalar; 64]) -> (res: bool)
    ensures
        res == forall|i: int| 0 <= i < 64 ==> invertible(#[trigger] y_powers[i]@),
        res ==> forall|i: int| 0 <= i < 64 ==> #[trigger] y_powers[i]@ != 0,
{
    let mut i: usize = 0;
    while i < 64
        invariant
            i <= 64,
            forall|j: int| 0 <= j < i ==> invertible(#[trigger] y_powers[j]@),
            forall|j: int| 0 <= j < i ==> #[trigger] y_powers[j]@ != 0,
        decreases 64 - i,
    {
        match y_powers[i].invert() {
            None => {
                proof {
                    lemma_zero_not_invertible();
                }
                return false;
            },
            Some(v) => {
                proof {
                    lemma_invertible_witness(y_powers[i as int]@, v@);
                }
            },
        }
        i = i + 1;
    }
    true
}

/// `<a, G> + <b, H> + c * P` for the two vector commitments and a blinding term.
fn commit_vectors(a: &[Scalar], b: &[Scalar], gs: &[G1], hs: &[G1], c: &Scalar, p: &G1) -> (res: G1)
    requires
        a.len() == gs.len(),
        b.len() == hs.len(),
    ensures
        res@ == fq(dot(scalars_view(a@), points_view(gs@)) + dot(scalars_view(b@), points_view(hs@))
            + c@ * p@),
{
    let va = vector_commit_bp(a, gs);
    let vb = vector_commit_bp(b, hs);
    let res = va.add(&vb).add(&p.mul(c));
    proof {
        let da = dot(scalars_view(a@), points_view(gs@));
        let db = dot(scalars_view(b@), points_view(hs@));
        lemma_fq_add(da, db);
        lemma_fq_add(da + db, c@ * p@);
    }
    res
}

/// `<a_L, G> + <a_L - 1, H> + c p` for the bits `a_L` of `value`: the sum of
/// the `G_i` whose bit is set, minus the `H_i` whose bit is clear, plus `c p`.
fn commit_bits(value: u64, gs: &[G1], hs: &[G1], c: &Scalar, p: &G1) -> (res: G1)
    requires
        gs.len() == 64,
        hs.len() == 64,
    ensures
        res@ == fq(dot(bits_of(value), points_view(gs@)) + dot(
            a_r_spec(bits_of(value)),
            points_view(hs@),
        ) + c@ * p@),
{
    let ghost bits = bits_of(value);
    let ghost ar = a_r_spec(bits);
    let ghost gsv = points_view(gs@);
    let ghost hsv = points_view(hs@);
    let mut acc = G1::identity();
    let mut i: usize = 0;
    proof {
        lemma_fq_small(0);
    }
    while i < 64
        invariant
            i <= 64,
            gs.len() == 64,
            hs.len() == 64,
            bits == bits_of(value),
            ar == a_r_spec(bits),
            gsv == points_view(gs@),
            hsv == points_view(hs@),
            acc@ == fq(sum_prod(bits, gsv, i as int) + sum_prod(ar, hsv, i as int)),
        decreases 64 - i,
    {
        let k: u64 = i as u64;
        let w: u64 = value >> k;
        proof {
            vstd::bits::lemma_u64_shr_is_div(value, k);
            assert((w & 1u64) == w % 2) by (bit_vector);
        }
        let ghost prev = sum_prod(bits, gsv, i as int) + sum_prod(ar, hsv, i as int);
        let ghost gi = gsv[i as int];
        let ghost hi = hsv[i as int];
        if (w & 1) == 1 {
            proof {
                assert(bits[i as int] == 1);
                assert(ar[i as int] == fq(0));
                lemma_fq_small(0);
                lemma_fq_add(prev, gi);
                assert(prev + gi == prev + bits[i as int] * gi + ar[i as int] * hi);
            }
            acc = acc.add(&gs[i]);
        } else {
            proof {
                assert(bits[i as int] == 0);
                assert(ar[i as int] == fq(-1));
                lemma_fq_mul(-1, hi);
                lemma_fq_sub(prev, hi);
                lemma_fq_add_cong(prev, ar[i as int] * hi, prev, -1 * hi);
                assert(bits[i as int] * gi == 0) by (nonlinear_arith)
                    requires
                        bits[i as int] == 0,
                ;
            }
            acc = acc.sub(&hs[i]);
        }
        i = i + 1;
    }
    let res = acc.add(&p.mul(c));
    proof {
        lemma_fq_add(dot(bits, gsv) + dot(ar, hsv), c@ * p@);
    }
    res
}

/// The inverse powers `y_i⁻¹`, the weights of the H generators.
fn inverse_powers(y_powers: &[Scalar; 64]) -> (res: [Scalar; 64])
    requires
        forall|i: int| 0 <= i < 64 ==> #[trigger] y_powers[i]@ != 0,
    ensures
        forall|i: int| 0 <= i < 64 ==> #[trigger] res[i]@ == inv(y_powers[i]@),
        forall|i: int| 0 <= i < 64 ==> #[trigger] fq(y_powers[i]@ * res[i]@) == 1,
{
    let mut res = [Scalar::zero(); 64];
    let mut i: usize = 0;
    while i < 64
        invariant
            i <= 64,
            forall|j: int| 0 <= j < 64 ==> #[trigger] y_powers[j]@ != 0,
            forall|j: int| 0 <= j < i ==> #[trigger] res[j]@ == inv(y_powers[j]@),
            forall|j: int| 0 <= j < i ==> #[trigger] fq(y_powers[j]@ * res[j]@) == 1,
        decreases 64 - i,
    {
        assert(y_powers[i as int]@ != 0);
        res[i] = y_powers[i].invert().unwrap();
        i = i + 1;
    }
    res
}

/// Prove, with the given randomness, that `value` lies in `[0, 2^64)`.
///
/// The inner-product argument runs over `l`, `r`, the generators `G`, the
/// weighted generators `y^-i H_i` and `Q = w U`, so that it binds `t_hat`.
///
/// Returns `None` where the prover meets a zero that it cannot invert (a
/// challenge, or a power of one). Whenever it returns a proof, `verify`
/// accepts that proof against `pedersen_commit(value, blinding)`.
pub fn prove_with_randomness(
    value: u64,
    blinding: Scalar,
    s_l: &[Scalar],
    s_r: &[Scalar],
    alpha: Scalar,
    rho: Scalar,
    tau1: Scalar,
    tau2: Scalar,
) -> (res: Option<BulletproofRangeProof>)
    requires
        s_l.len() == 64,
        s_r.len() == 64,
    ensures
        option_view(res) == rp_prove_spec(
            value,
            blinding@,
            scalars_view(s_l@),
            scalars_view(s_r@),
            alpha@,
            rho@,
            tau1@,
            tau2@,
        ),
        res matches Some(p) ==> rp_verify_spec(commit_spec(value as int, blinding@), proof_view(p)),
{
    proof {
        lemma_range_proof_completeness(
            value,
            blinding@,
            scalars_view(s_l@),
            scalars_view(s_r@),
            alpha@,
            rho@,
            tau1@,
            tau2@,
        );
    }
    let gs = gv();
    let hs = hv();
    let g = pedersen_g();
    let h = pedersen_h();
    proof {
        assert(points_view(gs@) =~= gv_exps());
        assert(points_view(hs@) =~= hv_exps());
    }

    // Bit decomposition and aR = aL - 1^n
    let a_l = bit_decompose_bp(value);
    let ones = ones_vec(64);
    let a_r = vector_sub_bp(a_l.as_slice(), ones.as_slice());
    proof {
        assert(scalars_view(a_l@) =~= bits_of(value));
        assert(scalars_view(a_r@) =~= a_r_spec(bits_of(value)));
    }

    // Commit to aL, aR and sL, sR
    let a_commit = commit_bits(value, gs.as_slice(), hs.as_slice(), &alpha, &h);
    let s_commit = commit_vectors(s_l, s_r, gs.as_slice(), hs.as_slice(), &rho, &h);

    // Challenges y and z
    let y = compute_challenge_y(&a_commit, &s_commit);
    let z = compute_challenge_z(y);
    let y_powers = powers_of_bp(y, 64);
    proof {
        assert(scalars_view(y_powers@) =~= y_powers_spec(y@));
    }

    // Polynomial coefficients t1, t2
    let t1 = compute_t1_bp(a_l.as_slice(), a_r.as_slice(), s_l, s_r, y_powers.as_slice(), z);
    let t2 = compute_t2_bp(s_l, s_r, y_powers.as_slice());

    // Commit to t1 and t2
    let t1_commit = g.mul(&t1).add(&h.mul(&tau1));
    let t2_commit = g.mul(&t2).add(&h.mul(&tau2));
    proof {
        lemma_fq_add(t1@ * g@, tau1@ * h@);
        lemma_fq_add(t2@ * g@, tau2@ * h@);
    }

    // Challenge x
    let x = compute_challenge_x(&t1_commit, &t2_commit, z);

    // l and r at the point x
    let (l, r) = compute_lr_vectors_bp(
        a_l.as_slice(),
        a_r.as_slice(),
        s_l,
        s_r,
        y_powers.as_slice(),
        z,
        x,
    );
    let t_hat = inner_product(l.as_slice(), r.as_slice());
    proof {
        assert(scalars_view(l@) =~= l_spec(bits_of(value), scalars_view(s_l@), z@, x@));
        assert(scalars_view(r@) =~= r_spec(
            a_r_spec(bits_of(value)),
            scalars_view(s_r@),
            y_powers_spec(y@),
            z@,
            x@,
        ));
    }

    // tau_x and mu
    let z_sq = z.mul(&z);
    let tau_x = tau1.mul(&x).add(&tau2.mul(&x).mul(&x)).add(&z_sq.mul(&blinding));
    let mu = alpha.add(&rho.mul(&x));
    proof {
        lemma_fq_mul(tau2@ * x@, x@);
        lemma_fq_add(tau1@ * x@, tau2@ * x@ * x@);
        lemma_fq_mul(z@ * z@, blinding@);
        lemma_fq_add(tau1@ * x@ + tau2@ * x@ * x@, z@ * z@ * blinding@);
        lemma_fq_add(alpha@, rho@ * x@);
        lemma_fq_small(alpha@);
    }

    // Weighted H generators (by exponent) and the inner product proof
    if !all_invertible(&y_powers) {
        proof {
            let i = choose|i: int| 0 <= i < 64 && !invertible(#[trigger] y_powers[i]@);
            assert(y_powers_spec(y@)[i] == scalars_view(y_powers@)[i]);
        }
        return None;
    }
    let weights = inverse_powers(&y_powers);
    let w = compute_challenge_w(x, tau_x, mu, t_hat);
    let q = ipp_u().mul(&w);
    proof {
        assert(weighted(scalars_view(weights@), points_view(hs@)) =~= weighted_h_spec(
            y_powers_spec(y@),
            hv_exps(),
        ));
    }
    let ipp = match prove_ipp(
        gs.as_slice(),
        hs.as_slice(),
        weights.as_slice(),
        &q,
        l.as_slice(),
        r.as_slice(),
    ) {
        Some(p) => p,
        None => {
            return None;
        },
    };

    Some(
        BulletproofRangeProof {
            a: a_commit,
            s: s_commit,
            t1: t1_commit,
            t2: t2_commit,
            tau_x,
            mu,
            t_hat,
            ipp,
        },
    )
}

/// `z * y_i + z² 2^i`, the coefficients of `H'` that the verifier adds back.
pub open spec fn h_adjust_spec(y_powers: Seq<int>, z: int) -> Seq<int> {
    Seq::new(64, |i: int| z * y_powers[i] + z * z * pow2(i as nat))
}

/// `z` repeated 64 times.
pub open spec fn z_ones_spec(z: int) -> Seq<int> {
    Seq::new(64, |i: int| z)
}

/// The commitment `P = A + x S - <z 1^n, G> + <z y^n + z² 2^n, H'> - mu h`
/// that the verifier hands to the inner-product argument.
pub open spec fn ipp_commitment_spec(p: RangeProofView, y: int, z: int, x: int) -> int {
    let yp = y_powers_spec(y);
    fq(p.a + x * p.s - dot(z_ones_spec(z), gv_exps()) + dot(
        h_adjust_spec(yp, z),
        weighted_h_spec(yp, hv_exps()),
    ) - p.mu * pedersen_h_exponent())
}

/// Whether the verifier accepts the proof `p` for the commitment whose exponent is
/// `commitment`: the `t_hat` commitment check holds, every power of `y` is
/// invertible, and the inner-product argument verifies for `P + t_hat Q`, which
/// binds `t_hat` to `<l, r>`.
pub open spec fn rp_verify_spec(commitment: int, p: RangeProofView) -> bool {
    let g = pedersen_g_exponent();
    let h = pedersen_h_exponent();
    let y = challenge_y(p.a, p.s);
    let z = challenge_z(y);
    let x = challenge_x(p.t1, p.t2, z);
    let yp = y_powers_spec(y);
    &&& fq(p.t_hat * g + p.tau_x * h) == fq(
        z * z * commitment + delta_spec(y, z) * g + x * p.t1 + x * x * p.t2,
    )
    &&& forall|i: int| 0 <= i < 64 ==> invertible(#[trigger] yp[i])
    &&& ipp_verify_spec(
        gv_exps(),
        weighted_h_spec(yp, hv_exps()),
        ipp_q_spec(x, p.tau_x, p.mu, p.t_hat),
        fq(ipp_commitment_spec(p, y, z, x) + p.t_hat * ipp_q_spec(x, p.tau_x, p.mu, p.t_hat)),
        p.ls,
        p.rs,
        p.ipp_a,
        p.ipp_b,
    )
}

/// Whether `t_hat * g + tau_x * h == z² V + delta(y, z) g + x T1 + x² T2`.
fn t_hat_check(commitment: &G1, proof: &BulletproofRangeProof, y: Scalar, z: Scalar, x: Scalar) -> (res:
    bool)
    ensures
        res == (fq(proof.t_hat@ * pedersen_g_exponent() + proof.tau_x@ * pedersen_h_exponent())
            == fq(z@ * z@ * commitment@ + delta_spec(y@, z@) * pedersen_g_exponent() + x@
            * proof.t1@ + x@ * x@ * proof.t2@)),
{
    let g = pedersen_g();
    let h = pedersen_h();
    let z_sq = z.mul(&z);
    let delta = compute_delta_bp(y, z);
    let lhs = g.mul(&proof.t_hat).add(&h.mul(&proof.tau_x));
    let rhs = commitment.mul(&z_sq).add(&g.mul(&delta)).add(&proof.t1.mul(&x)).add(
        &proof.t2.mul(&x.mul(&x)),
    );
    proof {
        let c = commitment@;
        let t1 = proof.t1@;
        let t2 = proof.t2@;
        lemma_fq_add(proof.t_hat@ * g@, proof.tau_x@ * h@);
        lemma_fq_mul(z@ * z@, c);
        lemma_fq_add(z@ * z@ * c, delta@ * g@);
        lemma_fq_add(z@ * z@ * c + delta@ * g@, x@ * t1);
        lemma_fq_mul(x@ * x@, t2);
        lemma_fq_add(z@ * z@ * c + delta@ * g@ + x@ * t1, x@ * x@ * t2);
    }
    lhs.equals(&rhs)
}

/// Reduction of each step of `A + x S - MG + MH - mu h` gives the reduced whole.
proof fn lemma_reconstruct_chain(
    a: int,
    s: int,
    x: int,
    msm_g: int,
    msm_h: int,
    dg: int,
    dh: int,
    mu: int,
    hh: int,
)
    requires
        0 <= a < group_order(),
        0 <= msm_g < group_order(),
        0 <= msm_h < group_order(),
        msm_g == fq(dg),
        msm_h == fq(dh),
    ensures
        fq(fq(fq(fq(a + fq(x * s)) - msm_g) + msm_h) - fq(mu * hh)) == fq(a + x * s - dg + dh - mu
            * hh),
{
    lemma_fq_add(a, x * s);
    lemma_fq_sub_cong(fq(a + x * s), msm_g, a + x * s, dg);
    lemma_fq_add_cong(fq(a + x * s - dg), msm_h, a + x * s - dg, dh);
    lemma_fq_sub_cong(fq(a + x * s - dg + dh), fq(mu * hh), a + x * s - dg + dh, mu * hh);
    lemma_fq_range(a + x * s - dg);
    lemma_fq_range(a + x * s - dg + dh);
    lemma_fq_range(mu * hh);
    lemma_fq_range(a + x * s);
    lemma_fq_range(x * s);
}

/// `sum_{i<n} z g_i = z sum_{i<n} g_i`.
proof fn lemma_sum_prod_const(zs: Seq<int>, z: int, g: Seq<int>, n: int)
    requires
        forall|i: int| 0 <= i < n ==> #[trigger] zs[i] == z,
    ensures
        sum_prod(zs, g, n) == z * sum_upto(g, n),
    decreases n,
{
    if n > 0 {
        lemma_sum_prod_const(zs, z, g, n - 1);
        assert(zs[n - 1] == z);
        let a = sum_upto(g, n - 1);
        let b = g[n - 1];
        assert(z * a + z * b == z * (a + b)) by (nonlinear_arith);
    }
}

/// `<z 1^n, G>`, the term of `P` from the G generators, computed as
/// `z (G_0 + ... + G_63)`.
fn z_ones_commit(z: Scalar, gs: &[G1; 64]) -> (res: G1)
    requires
        points_view(gs@) == gv_exps(),
    ensures
        res@ == fq(dot(z_ones_spec(z@), gv_exps())),
{
    let ghost gv_ = gv_exps();
    let mut acc = G1::identity();
    let mut i: usize = 0;
    proof {
        lemma_fq_small(0);
    }
    while i < 64
        invariant
            i <= 64,
            gv_ == gv_exps(),
            points_view(gs@) == gv_,
            acc@ == fq(sum_upto(gv_, i as int)),
        decreases 64 - i,
    {
        proof {
            assert(gs[i as int]@ == gv_[i as int]);
            lemma_fq_add(sum_upto(gv_, i as int), gv_[i as int]);
        }
        acc = acc.add(&gs[i]);
        i = i + 1;
    }
    let res = acc.mul(&z);
    proof {
        lemma_fq_mul(z@, sum_upto(gv_, 64));
        lemma_sum_prod_const(z_ones_spec(z@), z@, gv_, 64);
    }
    res
}

/// `<z y^n + z² 2^n, H'>`, the term of `P` from the weighted H generators
/// `H'_i = y_i⁻¹ H_i`, computed as `<(z y^n + z² 2^n) ∘ y^-n, H>`.
fn h_adjust_commit(
    z: Scalar,
    y: Scalar,
    y_powers: &[Scalar; 64],
    weights: &[Scalar; 64],
    hs: &[G1; 64],
) -> (res: G1)
    requires
        scalars_view(y_powers@) == y_powers_spec(y@),
        points_view(hs@) == hv_exps(),
        forall|i: int| 0 <= i < 64 ==> #[trigger] weights[i]@ == inv(y_powers[i]@),
    ensures
        res@ == fq(dot(h_adjust_spec(y_powers_spec(y@), z@), weighted_h_spec(y_powers_spec(y@), hv_exps()))),
{
    let z_sq = z.mul(&z);
    let two_powers = two_powers_vec(64);
    let z_y_ones = scalar_vector_mul_bp(z, y_powers.as_slice());
    let z_sq_two = scalar_vector_mul_bp(z_sq, two_powers.as_slice());
    let h_adjustment = vector_add_bp(z_y_ones.as_slice(), z_sq_two.as_slice());
    let scaled = hadamard_product(h_adjustment.as_slice(), weights.as_slice());
    proof {
        let yp = y_powers_spec(y@);
        let zz = z@;
        let hv_ = hv_exps();
        let hw = weighted_h_spec(yp, hv_);
        let ha = h_adjust_spec(yp, zz);
        assert forall|i: int| 0 <= i < 64 implies #[trigger] fq(scalars_view(scaled@)[i] * hv_[i])
            == fq(ha[i] * hw[i]) by {
            assert(y_powers[i]@ == yp[i]);
            lemma_fq_small(h_adjustment[i]@);
            lemma_fq_mul_cong(z_sq@, pow2(i as nat) as int, zz * zz, pow2(i as nat) as int);
            lemma_fq_add_cong(z_y_ones[i]@, z_sq_two[i]@, zz * yp[i], zz * zz * pow2(i as nat));
            lemma_fq_mul_regroup(h_adjustment[i]@, weights[i]@, hv_[i]);
            lemma_fq_mul_cong(h_adjustment[i]@, hw[i], ha[i], hw[i]);
        }
        lemma_sum_prod_cong_terms(scalars_view(scaled@), hv_, ha, hw, 64);
    }
    vector_commit_bp(scaled.as_slice(), hs.as_slice())
}

/// `P = A + x*S - <z*1^n, G> + <z*y^n + z^2*2^n, H'> - mu*h`.
fn reconstruct_ipp_commitment(
    proof: &BulletproofRangeProof,
    y: Scalar,
    z: Scalar,
    x: Scalar,
    y_powers: &[Scalar; 64],
    gs: &[G1; 64],
    hs: &[G1; 64],
    weights: &[Scalar; 64],
) -> (res: G1)
    requires
        scalars_view(y_powers@) == y_powers_spec(y@),
        points_view(gs@) == gv_exps(),
        points_view(hs@) == hv_exps(),
        forall|i: int| 0 <= i < 64 ==> #[trigger] weights[i]@ == inv(y_powers[i]@),
    ensures
        res@ == ipp_commitment_spec(proof_view(*proof), y@, z@, x@),
{
    let h = pedersen_h();
    let msm_g = z_ones_commit(z, gs);
    let msm_h = h_adjust_commit(z, y, y_powers, weights, hs);
    let p = proof.a.add(&proof.s.mul(&x)).sub(&msm_g).add(&msm_h).sub(&h.mul(&proof.mu));
    proof {
        let yp = y_powers_spec(y@);
        lemma_reconstruct_chain(
            proof.a@,
            proof.s@,
            x@,
            msm_g@,
            msm_h@,
            dot(z_ones_spec(z@), gv_exps()),
            dot(h_adjust_spec(yp, z@), weighted_h_spec(yp, hv_exps())),
            proof.mu@,
            h@,
        );
    }
    p
}

/// Verify a Bulletproofs range proof
///
/// A proof whose challenge `y` has a power that is zero (so not invertible) is
/// rejected. The inner-product argument is checked against `P + t_hat Q`, so an
/// accepted proof binds `t_hat` to `<l, r>`.
pub fn verify(commitment: G1, proof: &BulletproofRangeProof) -> (res: bool)
    ensures
        res == rp_verify_spec(commitment@, proof_view(*proof)),
{
    // Regenerate the challenges
    let y = compute_challenge_y(&proof.a, &proof.s);
    let z = compute_challenge_z(y);
    let x = compute_challenge_x(&proof.t1, &proof.t2, z);

    // Check the t_hat commitment
    if !t_hat_check(&commitment, proof, y, z, x) {
        return false;
    }

    // Weighted H generators, by exponent
    let y_powers = powers_of_bp(y, 64);
    proof {
        assert(scalars_view(y_powers@) =~= y_powers_spec(y@));
    }
    if !all_invertible(&y_powers) {
        proof {
            let i = choose|i: int| 0 <= i < 64 && !invertible(#[trigger] y_powers[i]@);
            assert(y_powers_spec(y@)[i] == scalars_view(y_powers@)[i]);
        }
        return false;
    }
    let gs = gv();
    let hs = hv();
    let weights = inverse_powers(&y_powers);
    proof {
        assert(points_view(gs@) =~= gv_exps());
        assert(points_view(hs@) =~= hv_exps());
        assert(weighted(scalars_view(weights@), points_view(hs@)) =~= weighted_h_spec(
            y_powers_spec(y@),
            hv_exps(),
        ));
    }

    // Reconstruct the commitment P for the inner product argument, and add
    // t_hat Q, Q = w U, so that the argument binds t_hat to <l, r>
    let p = reconstruct_ipp_commitment(proof, y, z, x, &y_powers, &gs, &hs, &weights);
    let w = compute_challenge_w(x, proof.tau_x, proof.mu, proof.t_hat);
    let q = ipp_u().mul(&w);
    let p_t = p.add(&q.mul(&proof.t_hat));
    proof {
        lemma_fq_add(p@, proof.t_hat@ * q@);
    }

    // Verify the inner product proof
    verify_ipp(gs.as_slice(), hs.as_slice(), weights.as_slice(), &q, &p_t, &proof.ipp)
}

/// Whether `view` is what the prover produces with the given randomness.
pub open spec fn produced_with(
    value: u64,
    blinding: int,
    view: Option<RangeProofView>,
    s_l: Seq<int>,
    s_r: Seq<int>,
    alpha: int,
    rho: int,
    tau1: int,
    tau2: int,
) -> bool {
    &&& s_l.len() == 64
    &&& s_r.len() == 64
    &&& view == rp_prove_spec(value, blinding, s_l, s_r, alpha, rho, tau1, tau2)
}

/// `n` random field elements.
fn random_scalars(n: usize) -> (res: Vec<Scalar>)
    ensures
        res.len() == n,
{
    let mut res: Vec<Scalar> = Vec::new();
    let mut i: usize = 0;
    while i < n
        invariant
            i <= n,
            res.len() == i,
        decreases n - i,
    {
        res.push(Scalar::random());
        i = i + 1;
    }
    res
}

/// Prove that a committed value lies in [0, 2^64)
///
/// The proof is the one that `prove_with_randomness` gives for freshly drawn
/// random vectors and blindings; `None` where the prover meets a zero that it
/// cannot invert.
pub fn prove(value: u64, blinding: Scalar) -> (res: Option<BulletproofRangeProof>)
    ensures
        exists|s_l: Seq<int>, s_r: Seq<int>, alpha: int, rho: int, tau1: int, tau2: int|
            #[trigger] produced_with(
                value,
                blinding@,
                option_view(res),
                s_l,
                s_r,
                alpha,
                rho,
                tau1,
                tau2,
            ),
        res matches Some(p) ==> rp_verify_spec(commit_spec(value as int, blinding@), proof_view(p)),
{
    // Random vectors sL, sR and blindings
    let s_l = random_scalars(64);
    let s_r = random_scalars(64);
    let alpha = Scalar::random();
    let rho = Scalar::random();
    let tau1 = Scalar::random();
    let tau2 = Scalar::random();
    let res = prove_with_randomness(
        value,
        blinding,
        s_l.as_slice(),
        s_r.as_slice(),
        alpha,
        rho,
        tau1,
        tau2,
    );
    proof {
        assert(produced_with(
            value,
            blinding@,
            option_view(res),
            scalars_view(s_l@),
            scalars_view(s_r@),
            alpha@,
            rho@,
            tau1@,
            tau2@,
        ));
    }
    res
}

} // verus!
