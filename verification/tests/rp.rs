use ecash_ng_crypto::generators::{gv, hv, pedersen_g, pedersen_h};
use ecash_ng_crypto::inner_product::{
    fold_generators_g_bp, fold_generators_h_bp, prove_inner_product_bp, verify_inner_product_bp,
};
use ecash_ng_crypto::pedersen_commit;
use ecash_ng_crypto::point::G1;
use ecash_ng_crypto::rp::{
    bit_decompose_bp, compute_delta_bp, compute_lr_vectors_bp, compute_t1_bp, compute_t2_bp,
    create_weighted_h_bp, prove, verify,
};
use ecash_ng_crypto::scalar::Scalar;
use ecash_ng_crypto::transcript::{
    compute_challenge_ipp, compute_challenge_x, compute_challenge_y, compute_challenge_z,
};
use ecash_ng_crypto::vectors::{
    hadamard_product, inner_product, powers_of_bp, scalar_vector_mul_bp, vector_add_bp,
    vector_commit_bp, vector_sub_bp,
};

fn s(v: u64) -> Scalar {
    Scalar::from_u64(v)
}

fn sum(v: &[Scalar]) -> Scalar {
    v.iter().fold(Scalar::zero(), |acc, x| acc.add(x))
}

#[test]
fn test_inner_product() {
    let a = vec![s(1), s(2), s(3)];
    let b = vec![s(4), s(5), s(6)];

    let result = inner_product(&a, &b);
    // 1*4 + 2*5 + 3*6 = 4 + 10 + 18 = 32
    assert_eq!(result, s(32));
}

#[test]
fn test_hadamard_product() {
    let a = vec![s(2), s(3)];
    let b = vec![s(5), s(6)];

    let result = hadamard_product(&a, &b);
    assert_eq!(result[0], s(10));
    assert_eq!(result[1], s(18));
}

#[test]
fn test_vector_add() {
    let a = vec![s(1), s(2)];
    let b = vec![s(3), s(4)];

    let result = vector_add_bp(&a, &b);
    assert_eq!(result[0], s(4));
    assert_eq!(result[1], s(6));
}

#[test]
fn test_vector_sub() {
    let a = vec![s(5), s(7)];
    let b = vec![s(2), s(3)];

    let result = vector_sub_bp(&a, &b);
    assert_eq!(result[0], s(3));
    assert_eq!(result[1], s(4));
}

#[test]
fn test_scalar_vector_mul() {
    let x = s(3);
    let v = vec![s(2), s(4)];

    let result = scalar_vector_mul_bp(x, &v);
    assert_eq!(result[0], s(6));
    assert_eq!(result[1], s(12));
}

#[test]
fn test_powers_of() {
    let x = s(3);
    let powers = powers_of_bp(x, 64);

    assert_eq!(powers[0], s(1)); // 3^0 = 1
    assert_eq!(powers[1], s(3)); // 3^1 = 3
    assert_eq!(powers[2], s(9)); // 3^2 = 9
    assert_eq!(powers[3], s(27)); // 3^3 = 27
    assert_eq!(powers.len(), 64);
}

#[test]
fn test_vector_commit() {
    let scalars = vec![s(2), s(3)];
    let g = pedersen_g();
    let h = pedersen_h();
    let points = vec![g, h];

    let result = vector_commit_bp(&scalars, &points);
    let expected = g.mul(&s(2)).add(&h.mul(&s(3)));

    assert!(result == expected);
}

#[test]
fn test_gen_vectors() {
    let g = gv();
    let h = hv();
    assert_eq!(g.len(), 64);
    assert_eq!(h.len(), 64);

    // All generators should be different
    for i in 0..64 {
        for j in (i + 1)..64 {
            assert!(g[i] != g[j]);
            assert!(h[i] != h[j]);
            assert!(g[i] != h[j]);
        }
    }
}

#[test]
fn test_challenge_y() {
    let a = pedersen_g().mul(&s(5));
    let sc = pedersen_h().mul(&s(7));

    let y1 = compute_challenge_y(&a, &sc);
    let y2 = compute_challenge_y(&a, &sc);

    // Same inputs should give same output (deterministic)
    assert_eq!(y1, y2);

    // Different inputs should give different output
    let s_different = pedersen_h().mul(&s(8));
    let y3 = compute_challenge_y(&a, &s_different);
    assert_ne!(y1, y3);
}

#[test]
fn test_challenge_z() {
    let y = s(12345);

    let z1 = compute_challenge_z(y);
    let z2 = compute_challenge_z(y);

    // Deterministic
    assert_eq!(z1, z2);

    // Different input
    let y_different = s(54321);
    let z3 = compute_challenge_z(y_different);
    assert_ne!(z1, z3);
}

#[test]
fn test_challenge_x() {
    let t1 = pedersen_g().mul(&s(3));
    let t2 = pedersen_g().mul(&s(5));
    let z = s(99);

    let x1 = compute_challenge_x(&t1, &t2, z);
    let x2 = compute_challenge_x(&t1, &t2, z);

    // Deterministic
    assert_eq!(x1, x2);

    // Different input
    let t2_different = pedersen_g().mul(&s(6));
    let x3 = compute_challenge_x(&t1, &t2_different, z);
    assert_ne!(x1, x3);
}

#[test]
fn test_challenge_ipp() {
    let l = pedersen_g().mul(&s(11));
    let r = pedersen_g().mul(&s(13));

    let u1 = compute_challenge_ipp(&l, &r);
    let u2 = compute_challenge_ipp(&l, &r);

    // Deterministic
    assert_eq!(u1, u2);

    // Different input
    let r_different = pedersen_g().mul(&s(14));
    let u3 = compute_challenge_ipp(&l, &r_different);
    assert_ne!(u1, u3);
}

#[test]
fn test_inner_product_proof_simple() {
    // Test with vectors of length 64 (6 rounds)
    // Simple vectors: a = [1..64], b = [1..64]
    let a: Vec<Scalar> = (1..=64).map(s).collect();
    let b: Vec<Scalar> = (1..=64).map(s).collect();
    let (g, h) = (gv(), hv());

    // Compute commitment P = <a, G> + <b, H>
    let commitment = vector_commit_bp(&a, &g).add(&vector_commit_bp(&b, &h));

    // Generate proof
    let proof = prove_inner_product_bp(&g, &h, &a, &b).unwrap();

    // Verify proof
    assert!(verify_inner_product_bp(&g, &h, &commitment, &proof));

    // Check proof structure
    assert_eq!(proof.l_vec.len(), 6); // log2(64) = 6 rounds
    assert_eq!(proof.r_vec.len(), 6);
}

#[test]
fn test_inner_product_proof_64() {
    // Test with vectors of length 64 (6 rounds) - actual Bulletproofs size
    let a: Vec<Scalar> = (1..=64).map(s).collect();
    let b: Vec<Scalar> = (65..=128).map(s).collect();
    let (g, h) = (gv(), hv());

    // Compute commitment P = <a, G> + <b, H>
    let commitment = vector_commit_bp(&a, &g).add(&vector_commit_bp(&b, &h));

    // Generate proof
    let proof = prove_inner_product_bp(&g, &h, &a, &b).unwrap();

    // Verify proof
    assert!(verify_inner_product_bp(&g, &h, &commitment, &proof));

    // Check proof structure
    assert_eq!(proof.l_vec.len(), 6); // log2(64) = 6 rounds
    assert_eq!(proof.r_vec.len(), 6);
}

#[test]
fn test_inner_product_proof_invalid() {
    // Test that invalid proofs fail
    let a = vec![s(1); 64];
    let b = vec![s(2); 64];
    let (g, h) = (gv(), hv());

    let commitment = vector_commit_bp(&a, &g).add(&vector_commit_bp(&b, &h));
    let proof = prove_inner_product_bp(&g, &h, &a, &b).unwrap();

    // Correct proof should verify
    assert!(verify_inner_product_bp(&g, &h, &commitment, &proof));

    // Wrong commitment should fail
    let wrong_commitment = commitment.add(&pedersen_g());

    assert!(!verify_inner_product_bp(&g, &h, &wrong_commitment, &proof));
}

#[test]
fn test_fold_generators() {
    // Create 6 challenges for 64->32->16->8->4->2->1 folding
    let challenges = vec![s(2), s(3), s(5), s(7), s(11), s(13)];

    let result_g = fold_generators_g_bp(&gv(), &challenges);
    let result_h = fold_generators_h_bp(&hv(), &challenges);

    // Should be single generators (can't test exact values, but shouldn't panic)
    let _ = (result_g, result_h);
}

#[test]
fn test_inner_product_proof_size_2() {
    // Test with n=64 (standard size)
    let a = vec![s(7); 64];
    let b = vec![s(11); 64];
    let (g, h) = (gv(), hv());

    let commitment = vector_commit_bp(&a, &g).add(&vector_commit_bp(&b, &h));
    let proof = prove_inner_product_bp(&g, &h, &a, &b).unwrap();

    assert!(verify_inner_product_bp(&g, &h, &commitment, &proof));
    assert_eq!(proof.l_vec.len(), 6); // log2(64) = 6 rounds
    assert_eq!(proof.r_vec.len(), 6);
}

#[test]
fn test_inner_product_proof_zeros() {
    // Edge case: zero vectors
    let a = vec![Scalar::zero(); 64];
    let b = vec![s(1); 64];
    let (g, h) = (gv(), hv());

    let commitment = vector_commit_bp(&a, &g).add(&vector_commit_bp(&b, &h));
    let proof = prove_inner_product_bp(&g, &h, &a, &b).unwrap();

    assert!(verify_inner_product_bp(&g, &h, &commitment, &proof));
}

#[test]
fn test_inner_product_proof_random() {
    // Random vectors (more realistic)
    let a: Vec<Scalar> = (0..64).map(|_| Scalar::random()).collect();
    let b: Vec<Scalar> = (0..64).map(|_| Scalar::random()).collect();
    let (g, h) = (gv(), hv());

    let commitment = vector_commit_bp(&a, &g).add(&vector_commit_bp(&b, &h));
    let proof = prove_inner_product_bp(&g, &h, &a, &b).unwrap();

    assert!(verify_inner_product_bp(&g, &h, &commitment, &proof));
}

#[test]
fn test_inner_product_proof_tampered_l() {
    // Modify L_vec, should fail
    let a = vec![s(1); 64];
    let b = vec![s(2); 64];
    let (g, h) = (gv(), hv());

    let commitment = vector_commit_bp(&a, &g).add(&vector_commit_bp(&b, &h));
    let mut proof = prove_inner_product_bp(&g, &h, &a, &b).unwrap();

    // Tamper with L_vec
    proof.l_vec[0] = proof.l_vec[0].add(&pedersen_g());

    assert!(!verify_inner_product_bp(&g, &h, &commitment, &proof));
}

#[test]
fn test_inner_product_proof_tampered_r() {
    // Modify R_vec, should fail
    let a = vec![s(3); 64];
    let b = vec![s(5); 64];
    let (g, h) = (gv(), hv());

    let commitment = vector_commit_bp(&a, &g).add(&vector_commit_bp(&b, &h));
    let mut proof = prove_inner_product_bp(&g, &h, &a, &b).unwrap();

    // Tamper with R_vec
    proof.r_vec[1] = proof.r_vec[1].add(&pedersen_h());

    assert!(!verify_inner_product_bp(&g, &h, &commitment, &proof));
}

#[test]
fn test_inner_product_proof_tampered_final_scalars() {
    // Modify a or b, should fail
    let a = vec![s(2); 64];
    let b = vec![s(3); 64];
    let (g, h) = (gv(), hv());

    let commitment = vector_commit_bp(&a, &g).add(&vector_commit_bp(&b, &h));
    let mut proof = prove_inner_product_bp(&g, &h, &a, &b).unwrap();

    // Tamper with final scalar a
    proof.a = proof.a.add(&Scalar::one());

    assert!(!verify_inner_product_bp(&g, &h, &commitment, &proof));

    // Reset and tamper with final scalar b
    proof = prove_inner_product_bp(&g, &h, &a, &b).unwrap();
    proof.b = proof.b.add(&Scalar::one());

    assert!(!verify_inner_product_bp(&g, &h, &commitment, &proof));
}

#[test]
fn test_inner_product_challenge_consistency() {
    // Same L,R -> same challenge
    let l = pedersen_g().mul(&s(42));
    let r = pedersen_h().mul(&s(99));

    let u1 = compute_challenge_ipp(&l, &r);
    let u2 = compute_challenge_ipp(&l, &r);
    let u3 = compute_challenge_ipp(&l, &r);

    // Should be deterministic
    assert_eq!(u1, u2);
    assert_eq!(u2, u3);

    // Different L should give different challenge
    let l_different = pedersen_g().mul(&s(43));
    let u4 = compute_challenge_ipp(&l_different, &r);
    assert_ne!(u1, u4);
}

#[test]
fn test_bit_decompose() {
    // Test zero
    let bits = bit_decompose_bp(0);
    assert_eq!(bits.len(), 64);
    assert!(bits.iter().all(|b| *b == Scalar::zero()));

    // Test one
    let bits = bit_decompose_bp(1);
    assert_eq!(bits[0], Scalar::one());
    assert!(bits[1..].iter().all(|b| *b == Scalar::zero()));

    // Test power of 2
    let bits = bit_decompose_bp(256); // 2^8
    assert_eq!(bits[8], Scalar::one());
    for i in 0..64 {
        if i != 8 {
            assert_eq!(bits[i], Scalar::zero());
        }
    }

    // Test max value
    let bits = bit_decompose_bp(u64::MAX);
    assert!(bits.iter().all(|b| *b == Scalar::one()));

    // Test arbitrary value
    let value = 0b10110101u64;
    let bits = bit_decompose_bp(value);
    assert_eq!(bits[0], Scalar::one()); // bit 0
    assert_eq!(bits[1], Scalar::zero()); // bit 1
    assert_eq!(bits[2], Scalar::one()); // bit 2
    assert_eq!(bits[3], Scalar::zero()); // bit 3
    assert_eq!(bits[4], Scalar::one()); // bit 4
    assert_eq!(bits[5], Scalar::one()); // bit 5
    assert_eq!(bits[6], Scalar::zero()); // bit 6
    assert_eq!(bits[7], Scalar::one()); // bit 7
}

#[test]
fn test_compute_delta() {
    let y = s(2);
    let z = s(3);

    let delta = compute_delta_bp(y, z);

    // For n=64, compute expected manually
    let y_powers = powers_of_bp(y, 64);
    let two_powers: Vec<Scalar> = (0..64).map(|i| s(1u64 << i)).collect();
    let sum_y = sum(&y_powers);
    let sum_two = sum(&two_powers);
    let z_sq = z.mul(&z);
    let z_cubed = z_sq.mul(&z);
    let expected = z.sub(&z_sq).mul(&sum_y).sub(&z_cubed.mul(&sum_two));

    assert_eq!(delta, expected);
}

#[test]
fn test_create_weighted_h() {
    let y_powers = powers_of_bp(s(3), 64);
    let h = hv();

    let h_weighted = create_weighted_h_bp(&h, &y_powers);

    assert_eq!(h_weighted.len(), 64);
    // Check that H'[i] = y^(-i) * H[i]
    for i in 0..64 {
        assert!(h_weighted[i] == h[i].mul(&y_powers[i].invert().unwrap()));
    }
}

#[test]
fn test_compute_t1_t2() {
    let a_l: Vec<Scalar> = (0..64).map(|_| Scalar::random()).collect();
    let a_r: Vec<Scalar> = (0..64).map(|_| Scalar::random()).collect();
    let s_l: Vec<Scalar> = (0..64).map(|_| Scalar::random()).collect();
    let s_r: Vec<Scalar> = (0..64).map(|_| Scalar::random()).collect();
    let y_powers = powers_of_bp(s(2), 64);
    let z = s(3);

    let t1 = compute_t1_bp(&a_l, &a_r, &s_l, &s_r, &y_powers, z);
    let t2 = compute_t2_bp(&s_l, &s_r, &y_powers);

    // t2 should be <sL, y^n ∘ sR>
    let y_sr = hadamard_product(&y_powers, &s_r);
    let expected_t2 = inner_product(&s_l, &y_sr);
    assert_eq!(t2, expected_t2);

    // Just check they compute without panicking
    let _ = (t1, t2);
}

#[test]
fn test_compute_lr_vectors() {
    let a_l: Vec<Scalar> = (0..64).map(|_| Scalar::random()).collect();
    let a_r: Vec<Scalar> = (0..64).map(|_| Scalar::random()).collect();
    let s_l: Vec<Scalar> = (0..64).map(|_| Scalar::random()).collect();
    let s_r: Vec<Scalar> = (0..64).map(|_| Scalar::random()).collect();
    let y_powers = powers_of_bp(s(2), 64);
    let z = s(3);
    let x = s(5);

    let (l, r) = compute_lr_vectors_bp(&a_l, &a_r, &s_l, &s_r, &y_powers, z, x);

    assert_eq!(l.len(), 64);
    assert_eq!(r.len(), 64);

    // l should be linear in x: l = l0 + x*sL
    // When x=0, should get l0 = aL - z*1^n
    let (l_at_zero, _) = compute_lr_vectors_bp(&a_l, &a_r, &s_l, &s_r, &y_powers, z, Scalar::zero());
    let ones = vec![Scalar::one(); 64];
    let z_ones = scalar_vector_mul_bp(z, &ones);
    let expected_l0 = vector_sub_bp(&a_l, &z_ones);
    assert_eq!(l_at_zero, expected_l0);
}

#[test]
fn test_commitment_reconstruction() {
    // Test that we can reconstruct P correctly
    let (g, h) = (gv(), hv());

    // Simulate prover: create aL, aR, sL, sR
    let a_l = bit_decompose_bp(100u64);
    let ones = [Scalar::one(); 64];
    let a_r = vector_sub_bp(&a_l, &ones);
    let s_l: Vec<Scalar> = (0..64).map(|_| Scalar::random()).collect();
    let s_r: Vec<Scalar> = (0..64).map(|_| Scalar::random()).collect();
    let alpha = Scalar::random();
    let rho = Scalar::random();

    // Create A and S commitments
    let a_commit = vector_commit_bp(&a_l, &g)
        .add(&vector_commit_bp(&a_r, &h))
        .add(&pedersen_h().mul(&alpha));
    let s_commit = vector_commit_bp(&s_l, &g)
        .add(&vector_commit_bp(&s_r, &h))
        .add(&pedersen_h().mul(&rho));

    // Generate challenges
    let y = compute_challenge_y(&a_commit, &s_commit);
    let z = compute_challenge_z(y);
    let y_powers = powers_of_bp(y, 64);

    // Create dummy t1, t2 for x challenge
    let t1_commit = pedersen_g().mul(&Scalar::random());
    let t2_commit = pedersen_g().mul(&Scalar::random());
    let x = compute_challenge_x(&t1_commit, &t2_commit, z);

    // Compute l and r
    let (l, r) = compute_lr_vectors_bp(&a_l, &a_r, &s_l, &s_r, &y_powers, z, x);
    let mu = alpha.add(&rho.mul(&x));

    // Prover's P with weighted H
    let h_vec_weighted = create_weighted_h_bp(&h, &y_powers);
    let p_prover = vector_commit_bp(&l, &g).add(&vector_commit_bp(&r, &h_vec_weighted));

    // Verifier's P reconstruction
    // P = A + x*S - mu*h - <z*1^n, G> + <z*y^n*1^n + z^2*2^n, H'>
    let z_sq = z.mul(&z);
    let two_powers: Vec<Scalar> = (0..64).map(|i| s(1u64 << i)).collect();
    let z_ones = scalar_vector_mul_bp(z, &ones);
    let z_y_ones = scalar_vector_mul_bp(z, &y_powers); // z * y^n * 1^n
    let z_sq_two = scalar_vector_mul_bp(z_sq, &two_powers);
    let h_adjustment = vector_add_bp(&z_y_ones, &z_sq_two);

    let p_verifier = a_commit
        .add(&s_commit.mul(&x))
        .sub(&vector_commit_bp(&z_ones, &g))
        .add(&vector_commit_bp(&h_adjustment, &h_vec_weighted))
        .sub(&pedersen_h().mul(&mu));

    println!("P prover:   {:?}", p_prover.to_compressed());
    println!("P verifier: {:?}", p_verifier.to_compressed());

    assert!(p_prover == p_verifier, "P commitments should match!");
}

#[test]
fn test_rp_max() {
    let blinding = Scalar::random();
    let commitment = pedersen_commit(u64::MAX, blinding);

    assert!(verify(commitment, &prove(u64::MAX, blinding).unwrap()));
}

#[test]
fn test_rp_powers_of_two() {
    for i in 0..8 {
        let blinding = Scalar::random();
        let commitment = pedersen_commit(1 << i, blinding);

        assert!(verify(commitment, &prove(1 << i, blinding).unwrap()));
    }
}

#[test]
fn test_rp_range() {
    for value in 0..10 {
        let blinding = Scalar::random();
        let commitment = pedersen_commit(value, blinding);

        assert!(verify(commitment, &prove(value, blinding).unwrap()));
    }
}

#[test]
fn test_rp_wrong_commitment() {
    let blinding = Scalar::random();

    let wrong_commitment = pedersen_commit(54321u64, blinding);

    assert!(!verify(wrong_commitment, &prove(12345u64, blinding).unwrap()));
}

#[test]
fn test_rp_tampered_proof() {
    let blinding = Scalar::random();
    let commitment = pedersen_commit(999, blinding);

    // Tamper with A
    let mut proof = prove(999, blinding).unwrap();

    proof.a = proof.a.add(&pedersen_g());

    assert!(!verify(commitment, &proof));

    // Tamper with t_hat
    let mut proof = prove(999, blinding).unwrap();

    proof.t_hat = proof.t_hat.add(&Scalar::one());

    assert!(!verify(commitment, &proof));

    // Tamper with tau_x
    let mut proof = prove(999, blinding).unwrap();

    proof.tau_x = proof.tau_x.add(&Scalar::one());

    assert!(!verify(commitment, &proof));
}
