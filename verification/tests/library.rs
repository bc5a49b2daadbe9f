use ecash_ng_crypto::generators::{
    decimal_bytes, ipp_u, ecash_g1, ecash_g2, ecash_h1, ecash_h2, ecash_h3, gv, hv, pedersen_g, pedersen_h,
};
use ecash_ng_crypto::hash::{encode_to_g1, hash_to_g1, hash_to_scalar, map_to_scalar};
use ecash_ng_crypto::inner_product::{
    fold_generators_g_bp, fold_generators_h_bp, prove_inner_product_bp, prove_ipp,
    verify_inner_product_bp, verify_ipp,
};
use ecash_ng_crypto::multiexp::multiexp;
use ecash_ng_crypto::pedersen_commit;
use ecash_ng_crypto::point::G1;
use ecash_ng_crypto::rp::{
    bit_decompose_bp, compute_delta_bp, compute_lr_vectors_bp, compute_t1_bp, compute_t2_bp,
    create_weighted_h_bp, prove_with_randomness, verify, BulletproofRangeProof,
};
use ecash_ng_crypto::scalar::Scalar;
use ecash_ng_crypto::transcript::{
    compute_challenge_ipp, compute_challenge_w, compute_challenge_x, compute_challenge_y,
    compute_challenge_z,
};
use ecash_ng_crypto::vectors::{
    inner_product, powers_of_bp, scalar_vector_mul_bp, sum_scalars, vector_commit_bp,
};

fn s(v: u64) -> Scalar {
    Scalar::from_u64(v)
}

/// The group order `q`, little-endian.
const Q_LE: [u8; 32] = [
    0x01, 0x00, 0x00, 0x00, 0xff, 0xff, 0xff, 0xff, 0xfe, 0x5b, 0xfe, 0xff, 0x02, 0xa4, 0xbd, 0x53,
    0x05, 0xd8, 0xa1, 0x09, 0x08, 0xd8, 0x39, 0x33, 0x48, 0x7d, 0x9d, 0x29, 0x53, 0xa7, 0xed, 0x73,
];

/// SHA-256 of "abc".
const ABC_DIGEST: [u8; 32] = [
    0xba, 0x78, 0x16, 0xbf, 0x8f, 0x01, 0xcf, 0xea, 0x41, 0x41, 0x40, 0xde, 0x5d, 0xae, 0x22, 0x23,
    0xb0, 0x03, 0x61, 0xa3, 0x96, 0x17, 0x7a, 0x9c, 0xb4, 0x10, 0xff, 0x61, 0xf2, 0x00, 0x15, 0xad,
];

fn wide(low: &[u8]) -> [u8; 64] {
    let mut w = [0u8; 64];
    w[..low.len()].copy_from_slice(low);
    w
}

fn random_vec(n: usize) -> Vec<Scalar> {
    (0..n).map(|_| Scalar::random()).collect()
}

#[test]
fn test_scalar_arithmetic_exact() {
    assert_eq!(s(2).add(&s(3)), s(5));
    assert_eq!(s(7).mul(&s(6)), s(42));
    assert_eq!(s(9).sub(&s(4)), s(5));
    // 5 - 7 wraps around q and comes back
    assert_eq!(s(5).sub(&s(7)).add(&s(7)), s(5));
    assert_ne!(s(5).sub(&s(7)), s(5));
    // -1 * -1 = 1
    let minus_one = Scalar::zero().sub(&Scalar::one());
    assert_eq!(minus_one.mul(&minus_one), Scalar::one());
    assert_eq!(Scalar::zero().add(&Scalar::zero()), Scalar::zero());
}

#[test]
fn test_scalar_invert() {
    assert!(Scalar::zero().invert().is_none());
    let seven = s(7);
    let inv = seven.invert().unwrap();
    assert_eq!(seven.mul(&inv), Scalar::one());
    assert_eq!(Scalar::one().invert().unwrap(), Scalar::one());
}

#[test]
fn test_scalar_encoding() {
    let mut expected = [0u8; 32];
    expected[0] = 2;
    expected[1] = 1;
    assert_eq!(s(258).to_bytes(), expected);
    assert_eq!(Scalar::zero().to_bytes(), [0u8; 32]);
    let minus_one = Scalar::zero().sub(&Scalar::one());
    let mut q_minus_one = Q_LE;
    q_minus_one[0] = 0;
    assert_eq!(minus_one.to_bytes(), q_minus_one);
}

#[test]
fn test_from_bytes_wide_reduces() {
    assert_eq!(Scalar::from_bytes_wide(&wide(&[5])), s(5));
    assert_eq!(Scalar::from_bytes_wide(&wide(&Q_LE)), Scalar::zero());
    let mut q_plus_5 = Q_LE;
    q_plus_5[0] = 6;
    assert_eq!(Scalar::from_bytes_wide(&wide(&q_plus_5)), s(5));
    // 2^256 = 1 * 2^256, the 33rd byte
    let mut two_256 = [0u8; 64];
    two_256[32] = 1;
    let r = Scalar::from_bytes_wide(&two_256);
    let mut two_128 = [0u8; 64];
    two_128[16] = 1;
    let t = Scalar::from_bytes_wide(&two_128);
    assert_eq!(r, t.mul(&t));
}

#[test]
fn test_map_to_scalar_reduces() {
    assert_eq!(map_to_scalar(&[0u8; 32]), Scalar::zero());
    assert_eq!(map_to_scalar(&Q_LE), Scalar::zero());
    let mut digest = [0u8; 32];
    digest[0] = 9;
    assert_eq!(map_to_scalar(&digest), s(9));
}

#[test]
fn test_hash_to_scalar_is_sha256() {
    assert_eq!(hash_to_scalar(b"abc"), map_to_scalar(&ABC_DIGEST));
    assert_ne!(hash_to_scalar(b"abc"), hash_to_scalar(b"abd"));
}

#[test]
fn test_g1_group_law() {
    let g = G1::generator();
    let id = G1::identity();
    assert!(g.add(&g) == g.double());
    assert!(g.sub(&g) == id);
    assert!(g.neg().add(&g) == id);
    assert!(g.add(&id) == g);
    assert!(g.mul(&s(3)) == g.add(&g).add(&g));
    assert!(g.mul(&Scalar::zero()) == id);
    let minus_one = Scalar::zero().sub(&Scalar::one());
    assert!(g.mul(&minus_one) == g.neg());
    assert!(!(g == id));
    assert!(g.equals(&g));
    assert!(!g.equals(&g.double()));
}

#[test]
fn test_g1_compressed_encoding() {
    let id = G1::identity().to_compressed();
    assert_eq!(id[0], 0xc0);
    assert!(id[1..].iter().all(|b| *b == 0));
    let g = G1::generator().to_compressed();
    assert_eq!(&g[..4], &[0x97, 0xf1, 0xd3, 0xa7]);
}

#[test]
fn test_scalar_multiplication_large() {
    let g = pedersen_g();
    let a = hash_to_scalar(b"a");
    let b = hash_to_scalar(b"b");
    // (a + b) P = a P + b P, and (a b) P = a (b P)
    assert!(g.mul(&a.add(&b)) == g.mul(&a).add(&g.mul(&b)));
    assert!(g.mul(&a.mul(&b)) == g.mul(&b).mul(&a));
}

#[test]
fn test_multiexp_exact() {
    let g = pedersen_g();
    let h = pedersen_h();
    let r = multiexp(&[s(2), s(3), Scalar::zero()], &[g, h, g]);
    assert!(r == g.add(&g).add(&h).add(&h).add(&h));
    assert!(multiexp(&[], &[]) == G1::identity());
    let a = hash_to_scalar(b"x");
    let b = hash_to_scalar(b"y");
    assert!(multiexp(&[a, b], &[g, h]) == g.mul(&a).add(&h.mul(&b)));
}

#[test]
fn test_pedersen_commit_value() {
    let b = hash_to_scalar(b"blinding");
    let c = pedersen_commit(5, b);
    assert!(c == pedersen_g().mul(&s(5)).add(&pedersen_h().mul(&b)));
    assert!(pedersen_commit(0, Scalar::zero()) == G1::identity());
    assert!(!(pedersen_commit(5, b) == pedersen_commit(6, b)));
}

#[test]
fn test_hash_to_g1_deterministic() {
    assert!(hash_to_g1(b"a") == hash_to_g1(b"a"));
    assert!(!(hash_to_g1(b"a") == hash_to_g1(b"b")));
    assert!(!(hash_to_g1(b"a") == G1::identity()));
    assert!(encode_to_g1(b"a") == encode_to_g1(b"a"));
    assert!(!(encode_to_g1(b"a") == encode_to_g1(b"b")));
    assert!(!(encode_to_g1(b"a") == hash_to_g1(b"a")));
    assert!(pedersen_g() == hash_to_g1(b"FEDIMINT_GENERATOR_PEDERSEN_G"));
    assert!(pedersen_h() == hash_to_g1(b"FEDIMINT_GENERATOR_PEDERSEN_H"));
}

#[test]
fn test_fixed_generators_distinct() {
    let all = [pedersen_g(), pedersen_h(), ecash_g1(), ecash_h1(), ecash_h2(), ecash_h3()];
    for i in 0..all.len() {
        for j in 0..all.len() {
            assert_eq!(all[i] == all[j], i == j);
        }
    }
    let _ = ecash_g2();
}

#[test]
fn test_decimal_bytes() {
    assert_eq!(decimal_bytes(0), b"0".to_vec());
    assert_eq!(decimal_bytes(7), b"7".to_vec());
    assert_eq!(decimal_bytes(10), b"10".to_vec());
    assert_eq!(decimal_bytes(63), b"63".to_vec());
}

#[test]
fn test_vector_generators_from_labels() {
    let g = gv();
    let h = hv();
    for i in [0usize, 1, 9, 10, 63] {
        let gl = format!("FEDIMINT_GENERATOR_GV_{}", i);
        let hl = format!("FEDIMINT_GENERATOR_HV_{}", i);
        assert!(g[i] == encode_to_g1(gl.as_bytes()));
        assert!(h[i] == encode_to_g1(hl.as_bytes()));
        assert!(!(g[i] == hash_to_g1(gl.as_bytes())));
    }
    assert!(ipp_u() == hash_to_g1(b"FEDIMINT_GENERATOR_IPP_U"));
}

#[test]
fn test_challenges_exact() {
    let a = pedersen_g().mul(&s(5));
    let b = pedersen_h().mul(&s(7));
    let z = s(99);

    let mut msg = b"FEDIMINT_BP_CHALLENGE_Y".to_vec();
    msg.extend_from_slice(&a.to_compressed());
    msg.extend_from_slice(&b.to_compressed());
    assert_eq!(compute_challenge_y(&a, &b), hash_to_scalar(&msg));

    let mut msg = b"FEDIMINT_BP_CHALLENGE_Z".to_vec();
    msg.extend_from_slice(&z.to_bytes());
    assert_eq!(compute_challenge_z(z), hash_to_scalar(&msg));

    let mut msg = b"FEDIMINT_BP_CHALLENGE_X".to_vec();
    msg.extend_from_slice(&z.to_bytes());
    msg.extend_from_slice(&a.to_compressed());
    msg.extend_from_slice(&b.to_compressed());
    assert_eq!(compute_challenge_x(&a, &b, z), hash_to_scalar(&msg));

    let mut msg = b"FEDIMINT_BP_CHALLENGE_IPP".to_vec();
    msg.extend_from_slice(&a.to_compressed());
    msg.extend_from_slice(&b.to_compressed());
    assert_eq!(compute_challenge_ipp(&a, &b), hash_to_scalar(&msg));
}

#[test]
fn test_fold_generators_by_hand() {
    let g = gv();
    let h = hv();
    let gs = &g[..4];
    let hs = &h[..4];
    let u = [s(2), s(3)];
    let u0_inv = u[0].invert().unwrap();
    let u1_inv = u[1].invert().unwrap();

    // G' = u^-1 G_lo + u G_hi, twice
    let g1 = [
        gs[0].mul(&u0_inv).add(&gs[2].mul(&u[0])),
        gs[1].mul(&u0_inv).add(&gs[3].mul(&u[0])),
    ];
    let g2 = g1[0].mul(&u1_inv).add(&g1[1].mul(&u[1]));
    assert!(fold_generators_g_bp(gs, &u) == g2);

    // H' = u H_lo + u^-1 H_hi, twice
    let h1 = [
        hs[0].mul(&u[0]).add(&hs[2].mul(&u0_inv)),
        hs[1].mul(&u[0]).add(&hs[3].mul(&u0_inv)),
    ];
    let h2 = h1[0].mul(&u[1]).add(&h1[1].mul(&u1_inv));
    assert!(fold_generators_h_bp(hs, &u) == h2);

    // no challenges leave a single generator as it is
    assert!(fold_generators_g_bp(&gs[..1], &[]) == gs[0]);
}

#[test]
fn test_powers_of_all_entries() {
    let x = s(3);
    let p = powers_of_bp(x, 64);
    let mut acc = Scalar::one();
    for i in 0..64 {
        assert_eq!(p[i], acc);
        acc = acc.mul(&x);
    }
}

#[test]
fn test_sum_scalars_exact() {
    assert_eq!(sum_scalars(&[s(1), s(2), s(3)]), s(6));
    assert_eq!(sum_scalars(&[]), Scalar::zero());
}

#[test]
fn test_bits_recompose_value() {
    for value in [0u64, 1, 2, 255, 256, 1234567, u64::MAX, 1 << 63] {
        let bits = bit_decompose_bp(value);
        let mut acc = Scalar::zero();
        let mut two = Scalar::one();
        for b in bits.iter() {
            assert!(*b == Scalar::zero() || *b == Scalar::one());
            acc = acc.add(&b.mul(&two));
            two = two.add(&two);
        }
        assert_eq!(acc, s(value));
    }
}

#[test]
fn test_l_linear_in_x() {
    let a_l = random_vec(64);
    let a_r = random_vec(64);
    let s_l = random_vec(64);
    let s_r = random_vec(64);
    let y_powers = powers_of_bp(s(2), 64);
    let z = s(3);
    let x = hash_to_scalar(b"x");
    let (l, _) = compute_lr_vectors_bp(&a_l, &a_r, &s_l, &s_r, &y_powers, z, x);
    let (l0, _) = compute_lr_vectors_bp(&a_l, &a_r, &s_l, &s_r, &y_powers, z, Scalar::zero());
    for i in 0..64 {
        assert_eq!(l0[i], a_l[i].sub(&z));
        assert_eq!(l[i], l0[i].add(&x.mul(&s_l[i])));
    }
}

#[test]
fn test_t_hat_polynomial_identity() {
    let value = 1234567u64;
    let a_l = bit_decompose_bp(value);
    let ones = vec![Scalar::one(); 64];
    let a_r: Vec<Scalar> = a_l.iter().zip(ones.iter()).map(|(a, o)| a.sub(o)).collect();
    let s_l = random_vec(64);
    let s_r = random_vec(64);
    let y = hash_to_scalar(b"y");
    let z = hash_to_scalar(b"z");
    let x = hash_to_scalar(b"x");
    let y_powers = powers_of_bp(y, 64);

    let t1 = compute_t1_bp(&a_l, &a_r, &s_l, &s_r, &y_powers, z);
    let t2 = compute_t2_bp(&s_l, &s_r, &y_powers);
    let (l, r) = compute_lr_vectors_bp(&a_l, &a_r, &s_l, &s_r, &y_powers, z, x);
    let t_hat = inner_product(&l, &r);

    let delta = compute_delta_bp(y, z);
    let expected = z
        .mul(&z)
        .mul(&s(value))
        .add(&delta)
        .add(&x.mul(&t1))
        .add(&x.mul(&x).mul(&t2));
    assert_eq!(t_hat, expected);
}

#[test]
fn test_vector_commit_linear() {
    let g = gv();
    let a = random_vec(64);
    let b = scalar_vector_mul_bp(s(5), &a);
    let ca = vector_commit_bp(&a, &g);
    let cb = vector_commit_bp(&b, &g);
    assert!(cb == ca.mul(&s(5)));
}

fn same_proof(p: &BulletproofRangeProof, q: &BulletproofRangeProof) -> bool {
    p.a == q.a
        && p.s == q.s
        && p.t1 == q.t1
        && p.t2 == q.t2
        && p.tau_x == q.tau_x
        && p.mu == q.mu
        && p.t_hat == q.t_hat
        && (0..6).all(|k| p.ipp.l_vec[k] == q.ipp.l_vec[k] && p.ipp.r_vec[k] == q.ipp.r_vec[k])
        && p.ipp.a == q.ipp.a
        && p.ipp.b == q.ipp.b
}

#[test]
fn test_prove_with_randomness_deterministic() {
    let value = 4242u64;
    let blinding = hash_to_scalar(b"blinding");
    let s_l = random_vec(64);
    let s_r = random_vec(64);
    let (alpha, rho, tau1, tau2) = (s(11), s(13), s(17), s(19));
    let p1 = prove_with_randomness(value, blinding, &s_l, &s_r, alpha, rho, tau1, tau2).unwrap();
    let p2 = prove_with_randomness(value, blinding, &s_l, &s_r, alpha, rho, tau1, tau2).unwrap();
    assert!(same_proof(&p1, &p2));
    assert!(verify(pedersen_commit(value, blinding), &p1));
    // mu and tau_x as the prover computes them
    let y = compute_challenge_y(&p1.a, &p1.s);
    let z = compute_challenge_z(y);
    let x = compute_challenge_x(&p1.t1, &p1.t2, z);
    assert_eq!(p1.mu, alpha.add(&rho.mul(&x)));
    assert_eq!(
        p1.tau_x,
        tau1.mul(&x).add(&tau2.mul(&x).mul(&x)).add(&z.mul(&z).mul(&blinding))
    );
}

#[test]
fn test_range_proof_completeness_edges() {
    for value in [0u64, u64::MAX - 1] {
        let blinding = Scalar::random();
        let proof = prove_with_randomness(
            value,
            blinding,
            &random_vec(64),
            &random_vec(64),
            Scalar::random(),
            Scalar::random(),
            Scalar::random(),
            Scalar::random(),
        )
        .unwrap();
        assert!(verify(pedersen_commit(value, blinding), &proof));
        // another blinding gives another commitment, which the proof does not open
        assert!(!verify(pedersen_commit(value, blinding.add(&Scalar::one())), &proof));
    }
}

#[test]
fn test_range_proof_tampered_fields() {
    let blinding = hash_to_scalar(b"b");
    let value = 77u64;
    let c = pedersen_commit(value, blinding);
    let base = prove_with_randomness(
        value,
        blinding,
        &random_vec(64),
        &random_vec(64),
        s(1),
        s(2),
        s(3),
        s(4),
    )
    .unwrap();
    assert!(verify(c, &base));

    let mut p = base;
    p.tau_x = p.tau_x.add(&Scalar::one());
    assert!(!verify(c, &p));

    let mut p = base;
    p.mu = p.mu.add(&Scalar::one());
    assert!(!verify(c, &p));

    let mut p = base;
    p.t1 = p.t1.add(&pedersen_g());
    assert!(!verify(c, &p));

    let mut p = base;
    p.ipp.r_vec[5] = p.ipp.r_vec[5].add(&pedersen_g());
    assert!(!verify(c, &p));
}

#[test]
fn test_inner_product_proof_completeness_random() {
    let g = gv();
    let h = hv();
    for _ in 0..2 {
        let a = random_vec(64);
        let b = random_vec(64);
        let p = vector_commit_bp(&a, &g).add(&vector_commit_bp(&b, &h));
        let proof = prove_inner_product_bp(&g, &h, &a, &b).unwrap();
        assert!(verify_inner_product_bp(&g, &h, &p, &proof));
        // the same proof against the generators swapped is refused
        assert!(!verify_inner_product_bp(&h, &g, &p, &proof));
    }
}

#[test]
fn test_challenge_w_exact() {
    let (x, t, m, th) = (s(1), s(2), s(3), s(4));
    let mut msg = b"FEDIMINT_BP_CHALLENGE_W".to_vec();
    for v in [x, t, m, th] {
        msg.extend_from_slice(&v.to_bytes());
    }
    assert_eq!(compute_challenge_w(x, t, m, th), hash_to_scalar(&msg));
}

#[test]
fn test_forged_t_hat_rejected() {
    // An honest proof for 5, with t_hat shifted so that the t_hat check passes
    // for a commitment to -1 under the same blinding.
    let blinding = hash_to_scalar(b"gamma");
    let honest = prove_with_randomness(
        5,
        blinding,
        &random_vec(64),
        &random_vec(64),
        s(21),
        s(22),
        s(23),
        s(24),
    )
    .unwrap();
    let minus_one = Scalar::zero().sub(&Scalar::one());
    let forged_commitment = pedersen_g().mul(&minus_one).add(&pedersen_h().mul(&blinding));
    let y = compute_challenge_y(&honest.a, &honest.s);
    let z = compute_challenge_z(y);
    let x = compute_challenge_x(&honest.t1, &honest.t2, z);
    let z_sq = z.mul(&z);
    let mut forged = honest;
    forged.t_hat = honest.t_hat.add(&z_sq.mul(&minus_one.sub(&s(5))));

    // the forged t_hat passes the polynomial check for the forged commitment
    let delta = compute_delta_bp(y, z);
    let lhs = pedersen_g().mul(&forged.t_hat).add(&pedersen_h().mul(&forged.tau_x));
    let rhs = forged_commitment
        .mul(&z_sq)
        .add(&pedersen_g().mul(&delta))
        .add(&forged.t1.mul(&x))
        .add(&forged.t2.mul(&x.mul(&x)));
    assert!(lhs == rhs);
    // but the inner-product argument binds t_hat to <l, r>
    assert!(!verify(forged_commitment, &forged));
    assert!(verify(pedersen_commit(5, blinding), &honest));
}

#[test]
fn test_fold_h_is_g_with_inverted_challenges() {
    let h = hv();
    let u = [s(2), s(3), s(5), s(7), s(11), s(13)];
    let u_inv: Vec<Scalar> = u.iter().map(|c| c.invert().unwrap()).collect();
    assert!(fold_generators_h_bp(&h, &u) == fold_generators_g_bp(&h, &u_inv));
}

#[test]
fn test_t_polynomial_any_vectors() {
    let a_l = random_vec(64);
    let a_r = random_vec(64);
    let s_l = random_vec(64);
    let s_r = random_vec(64);
    let y_powers = powers_of_bp(hash_to_scalar(b"y"), 64);
    let z = hash_to_scalar(b"z");
    let x = hash_to_scalar(b"x");
    let t1 = compute_t1_bp(&a_l, &a_r, &s_l, &s_r, &y_powers, z);
    let t2 = compute_t2_bp(&s_l, &s_r, &y_powers);
    let (l, r) = compute_lr_vectors_bp(&a_l, &a_r, &s_l, &s_r, &y_powers, z, x);
    let (l0, r0) = compute_lr_vectors_bp(&a_l, &a_r, &s_l, &s_r, &y_powers, z, Scalar::zero());
    let t0 = inner_product(&l0, &r0);
    assert_eq!(
        inner_product(&l, &r),
        t0.add(&t1.mul(&x)).add(&t2.mul(&x).mul(&x))
    );
}

#[test]
fn test_commitment_reconstruction_any_vectors() {
    let g = gv();
    let h = hv();
    let a_l = random_vec(64);
    let a_r = random_vec(64);
    let s_l = random_vec(64);
    let s_r = random_vec(64);
    let (alpha, rho) = (Scalar::random(), Scalar::random());
    let a = vector_commit_bp(&a_l, &g).add(&vector_commit_bp(&a_r, &h)).add(&pedersen_h().mul(&alpha));
    let sc = vector_commit_bp(&s_l, &g).add(&vector_commit_bp(&s_r, &h)).add(&pedersen_h().mul(&rho));
    let y = hash_to_scalar(b"y");
    let z = hash_to_scalar(b"z");
    let x = hash_to_scalar(b"x");
    let y_powers = powers_of_bp(y, 64);
    let (l, r) = compute_lr_vectors_bp(&a_l, &a_r, &s_l, &s_r, &y_powers, z, x);
    let hw = create_weighted_h_bp(&h, &y_powers);
    let p_prover = vector_commit_bp(&l, &g).add(&vector_commit_bp(&r, &hw));
    let mu = alpha.add(&rho.mul(&x));
    let z_ones = vec![z; 64];
    let adj: Vec<Scalar> = (0..64)
        .map(|i| z.mul(&y_powers[i]).add(&z.mul(&z).mul(&Scalar::from_u64(1u64 << i))))
        .collect();
    let p_verifier = a
        .add(&sc.mul(&x))
        .sub(&vector_commit_bp(&z_ones, &g))
        .add(&vector_commit_bp(&adj, &hw))
        .sub(&pedersen_h().mul(&mu));
    assert!(p_prover == p_verifier);
}

#[test]
fn test_inner_product_argument_binds_q() {
    let g = gv();
    let h = hv();
    let a = random_vec(64);
    let b = random_vec(64);
    let w: Vec<Scalar> = (1..=64).map(s).collect();
    let q = ipp_u().mul(&s(7));
    let hw: Vec<G1> = (0..64).map(|i| h[i].mul(&w[i])).collect();
    let c = inner_product(&a, &b);
    let p = vector_commit_bp(&a, &g).add(&vector_commit_bp(&b, &hw)).add(&q.mul(&c));
    let proof = prove_ipp(&g, &h, &w, &q, &a, &b).unwrap();
    assert!(verify_ipp(&g, &h, &w, &q, &p, &proof));
    // a commitment to another inner product is refused
    let p_other = p.add(&q);
    assert!(!verify_ipp(&g, &h, &w, &q, &p_other, &proof));
}
