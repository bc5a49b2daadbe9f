//! Completeness of the range proof: what the prover produces for a value in
//! range, the verifier accepts against the value's Pedersen commitment.
use vstd::prelude::*;

use crate::modular::{
    fq, inv, invertible, lemma_fq_add, lemma_fq_add_cong, lemma_fq_mul, lemma_fq_mul_cong,
    lemma_fq_range, lemma_fq_small, lemma_fq_sub_cong, lemma_inv_of_invertible,
};
use crate::rp::{
    a_r_spec, bit, bits_of, delta_spec, h_adjust_spec, l_spec, minus_z, powers, r_const, r_spec,
    t1_spec, t2_spec, times, twos, weighted_h_spec, y_powers_spec, z_ones_spec, commit_spec,
    gv_exps, hv_exps, ipp_q_spec, RangeProofView, ipp_commitment_spec, rp_prove_spec, rp_verify_spec,
};
use crate::generators::{pedersen_g_exponent, pedersen_h_exponent};
use crate::scalar::group_order;
use crate::inner_product::{is_pow2, lemma_ipp_completeness};
use crate::transcript::{challenge_x, challenge_y, challenge_z};
use crate::vectors::{dot, lemma_sum_prod_cong, lemma_sum_upto_cong, seq_sum, sum_prod, sum_upto};
use vstd::arithmetic::div_mod::{lemma_mod_breakdown, lemma_small_mod};
use vstd::arithmetic::mul::lemma_mul_is_distributive_add;
use vstd::arithmetic::power2::{lemma2_to64, lemma2_to64_rest, lemma_pow2_pos, lemma_pow2_unfold, pow2};

verus! {

/// The bits of `v` below `k`, weighted by powers of two, add up to `v mod 2^k`.
proof fn lemma_bits_sum(v: u64, k: nat)
    requires
        k <= 64,
    ensures
        sum_prod(twos(64), bits_of(v), k as int) == v as int % pow2(k) as int,
    decreases k,
{
    if k == 0 {
        lemma2_to64();
    } else {
        let j = (k - 1) as nat;
        lemma_bits_sum(v, j);
        lemma_pow2_pos(j);
        lemma_pow2_unfold(k);
        lemma_mod_breakdown(v as int, pow2(j) as int, 2);
        assert(twos(64)[j as int] == pow2(j));
        assert(bits_of(v)[j as int] == bit(v, j as int));
    }
}

/// The bits of a 64-bit value are each zero or one and, weighted by powers
/// of two, add up to the value.
pub proof fn lemma_bits_value(v: u64)
    ensures
        forall|i: int| 0 <= i < 64 ==> 0 <= #[trigger] bits_of(v)[i] <= 1,
        sum_prod(twos(64), bits_of(v), 64) == v,
{
    assert forall|i: int| 0 <= i < 64 implies 0 <= #[trigger] bits_of(v)[i] <= 1 by {
        lemma_bit_square(v, i);
    }
    lemma_bits_sum(v, 64);
    lemma2_to64_rest();
    lemma_small_mod(v as nat, pow2(64));
}

/// A bit is its own square.
proof fn lemma_bit_square(v: u64, i: int)
    ensures
        bit(v, i) * bit(v, i) == bit(v, i),
        0 <= bit(v, i) <= 1,
{
    let b = bit(v, i);
    assert(0 <= b < 2);
    if b == 0 {
        assert(b * b == 0);
    } else {
        assert(b == 1);
        assert(b * b == 1);
    }
}

/// A ring identity behind each entry of `<l(x), r(x)>`.
proof fn lemma_entry_ring(p: int, s: int, x: int, y: int, bb: int, r: int, c: int, t: int)
    ensures
        (p + x * s) * (y * (bb + x * r) + c * t) == y * (p * bb) + c * (t * p) + x * (p * (y * r)
            + s * (y * bb + c * t)) + x * x * (s * (y * r)),
{
    let w = y * (bb + x * r) + c * t;
    assert((p + x * s) * w == p * w + (x * s) * w) by (nonlinear_arith);
    assert(w == y * bb + y * (x * r) + c * t) by (nonlinear_arith)
        requires
            w == y * (bb + x * r) + c * t,
    ;
    assert(p * w == p * (y * bb) + p * (y * (x * r)) + p * (c * t)) by (nonlinear_arith)
        requires
            w == y * bb + y * (x * r) + c * t,
    ;
    assert((x * s) * w == (x * s) * (y * bb) + (x * s) * (y * (x * r)) + (x * s) * (c * t))
        by (nonlinear_arith)
        requires
            w == y * bb + y * (x * r) + c * t,
    ;
    assert(p * (y * bb) == y * (p * bb)) by (nonlinear_arith);
    assert(p * (c * t) == c * (t * p)) by (nonlinear_arith);
    assert(p * (y * (x * r)) == x * (p * (y * r))) by (nonlinear_arith);
    assert((x * s) * (y * (x * r)) == x * x * (s * (y * r))) by (nonlinear_arith);
    assert((x * s) * (y * bb) + (x * s) * (c * t) == x * (s * (y * bb + c * t)))
        by (nonlinear_arith);
    assert(x * (p * (y * r)) + x * (s * (y * bb + c * t)) == x * (p * (y * r) + s * (y * bb + c
        * t))) by (nonlinear_arith);
}

/// One entry of `<l(x), r(x)>`, for a bit `b`, expanded in powers of `x`.
proof fn lemma_t_entry(b: int, z: int, x: int, sl: int, sr: int, yi: int, ti: int)
    requires
        b * b == b,
    ensures
        (b - z + x * sl) * (yi * ((b - 1) + z + x * sr) + z * z * ti) == (z - z * z) * yi + z * z * (
        ti * b) - z * z * z * ti + x * ((b - z) * (yi * sr) + sl * (yi * ((b - 1) + z) + z * z
            * ti)) + x * x * (sl * (yi * sr)),
{
    let p = b - z;
    let bb = (b - 1) + z;
    lemma_entry_ring(p, sl, x, yi, bb, sr, z * z, ti);
    assert(p * bb == z - z * z) by (nonlinear_arith)
        requires
            b * b == b,
            p == b - z,
            bb == (b - 1) + z,
    ;
    assert(z * z * (ti * p) == z * z * (ti * b) - z * z * z * ti) by (nonlinear_arith)
        requires
            p == b - z,
    ;
    assert(yi * (p * bb) == (z - z * z) * yi) by (nonlinear_arith)
        requires
            p * bb == z - z * z,
    ;
    assert(b - z + x * sl == p + x * sl);
    assert((b - 1) + z + x * sr == bb + x * sr);
}

/// `l(x)` before reduction.
spec fn l_int(bits: Seq<int>, s_l: Seq<int>, z: int, x: int) -> Seq<int> {
    Seq::new(64, |i: int| bits[i] - z + x * s_l[i])
}

/// `r(x)` before reduction, with `aR = aL - 1`.
spec fn r_int(bits: Seq<int>, s_r: Seq<int>, yp: Seq<int>, z: int, x: int) -> Seq<int> {
    Seq::new(64, |i: int| yp[i] * ((bits[i] - 1) + z + x * s_r[i]) + z * z * pow2(i as nat))
}

/// `aL - 1` before reduction.
spec fn bits_minus_one(bits: Seq<int>) -> Seq<int> {
    Seq::new(64, |i: int| bits[i] - 1)
}

/// `<l(x), r(x)> = t0 + t1 x + t2 x²` over the first `k` entries, with
/// `t0 = (z - z²) <1, y^n> + z² <2^n, aL> - z³ <1, 2^n>`.
proof fn lemma_t_poly(v: u64, s_l: Seq<int>, s_r: Seq<int>, yp: Seq<int>, z: int, x: int, k: int)
    requires
        0 <= k <= 64,
        s_l.len() == 64,
        s_r.len() == 64,
    ensures
        ({
            let bits = bits_of(v);
            sum_prod(l_int(bits, s_l, z, x), r_int(bits, s_r, yp, z, x), k) == (z - z * z) * sum_upto(
                yp,
                k,
            ) + z * z * sum_prod(twos(64), bits, k) - z * z * z * sum_upto(twos(64), k) + x * (
            sum_prod(minus_z(bits, z), times(yp, s_r), k) + sum_prod(
                s_l,
                r_const(bits_minus_one(bits), yp, z),
                k,
            )) + x * x * sum_prod(s_l, times(yp, s_r), k)
        }),
    decreases k,
{
    if k > 0 {
        lemma_t_poly(v, s_l, s_r, yp, z, x, k - 1);
        let i = k - 1;
        let bits = bits_of(v);
        let b = bits[i];
        let ti = twos(64)[i];
        lemma_bit_square(v, i);
        lemma_t_entry(b, z, x, s_l[i], s_r[i], yp[i], ti);
        let c1 = z - z * z;
        let c2 = z * z;
        let c3 = z * z * z;
        let sy = sum_upto(yp, i);
        let stb = sum_prod(twos(64), bits, i);
        let st = sum_upto(twos(64), i);
        let s1 = sum_prod(minus_z(bits, z), times(yp, s_r), i);
        let s2 = sum_prod(s_l, r_const(bits_minus_one(bits), yp, z), i);
        let s3 = sum_prod(s_l, times(yp, s_r), i);
        let a1 = (b - z) * (yp[i] * s_r[i]);
        let a2 = s_l[i] * (yp[i] * ((b - 1) + z) + z * z * ti);
        let a3 = s_l[i] * (yp[i] * s_r[i]);
        assert(minus_z(bits, z)[i] * times(yp, s_r)[i] == a1);
        assert(s_l[i] * r_const(bits_minus_one(bits), yp, z)[i] == a2);
        assert(s_l[i] * times(yp, s_r)[i] == a3);
        lemma_mul_is_distributive_add(c1, sy, yp[i]);
        lemma_mul_is_distributive_add(c2, stb, ti * b);
        lemma_mul_is_distributive_add(c3, st, ti);
        lemma_mul_is_distributive_add(x, s1 + s2, a1 + a2);
        lemma_mul_is_distributive_add(x * x, s3, a3);
        assert(ti * b == twos(64)[i] * bits[i]);
        assert((s1 + a1) + (s2 + a2) == (s1 + s2) + (a1 + a2));
        let ll = l_int(bits, s_l, z, x);
        let rr = r_int(bits, s_r, yp, z, x);
        assert(ll[i] == b - z + x * s_l[i]);
        assert(rr[i] == yp[i] * ((b - 1) + z + x * s_r[i]) + z * z * ti);
        assert(ll[i] * rr[i] == c1 * yp[i] + c2 * (ti * b) - c3 * ti + x * (a1 + a2) + x * x * a3);
        assert(sum_prod(ll, rr, k) == sum_prod(ll, rr, i) + ll[i] * rr[i]);
        assert(sum_upto(yp, k) == sy + yp[i]);
        assert(sum_prod(twos(64), bits, k) == stb + ti * b);
        assert(sum_upto(twos(64), k) == st + ti);
        assert(sum_prod(minus_z(bits, z), times(yp, s_r), k) == s1 + a1);
        assert(sum_prod(s_l, r_const(bits_minus_one(bits), yp, z), k) == s2 + a2);
        assert(sum_prod(s_l, times(yp, s_r), k) == s3 + a3);
    } else {
        let bits = bits_of(v);
        assert(sum_upto(yp, 0) == 0);
        assert(sum_prod(twos(64), bits, 0) == 0);
        assert(sum_upto(twos(64), 0) == 0);
        assert(sum_prod(minus_z(bits, z), times(yp, s_r), 0) == 0);
        assert(sum_prod(s_l, r_const(bits_minus_one(bits), yp, z), 0) == 0);
        assert(sum_prod(s_l, times(yp, s_r), 0) == 0);
        assert((z - z * z) * 0 + z * z * 0 - z * z * z * 0 + x * (0 + 0) + x * x * 0 == 0)
            by (nonlinear_arith);
    }
}

/// `r(x)` and `r(x)` before reduction agree modulo `q`, and so do the
/// constant parts of `r` with `aR` reduced or not.
proof fn lemma_r_entries(v: u64, s_r: Seq<int>, yp: Seq<int>, z: int, x: int)
    requires
        s_r.len() == 64,
    ensures
        forall|i: int|
            0 <= i < 64 ==> #[trigger] fq(r_spec(a_r_spec(bits_of(v)), s_r, yp, z, x)[i]) == fq(
                r_int(bits_of(v), s_r, yp, z, x)[i],
            ),
        forall|i: int|
            0 <= i < 64 ==> #[trigger] fq(r_const(a_r_spec(bits_of(v)), yp, z)[i]) == fq(
                r_const(bits_minus_one(bits_of(v)), yp, z)[i],
            ),
{
    let bits = bits_of(v);
    let ar = a_r_spec(bits);
    assert forall|i: int| 0 <= i < 64 implies #[trigger] fq(r_spec(ar, s_r, yp, z, x)[i]) == fq(
        r_int(bits, s_r, yp, z, x)[i],
    ) by {
        let b1 = bits[i] - 1;
        let t = z * z * pow2(i as nat);
        lemma_fq_add(b1, z);
        lemma_fq_add_cong(ar[i] + z, x * s_r[i], b1 + z, x * s_r[i]);
        lemma_fq_mul_cong(yp[i], ar[i] + z + x * s_r[i], yp[i], b1 + z + x * s_r[i]);
        lemma_fq_add_cong(yp[i] * (ar[i] + z + x * s_r[i]), t, yp[i] * (b1 + z + x * s_r[i]), t);
        lemma_fq_range(yp[i] * (ar[i] + z + x * s_r[i]) + t);
    }
    assert forall|i: int| 0 <= i < 64 implies #[trigger] fq(r_const(ar, yp, z)[i]) == fq(
        r_const(bits_minus_one(bits), yp, z)[i],
    ) by {
        let b1 = bits[i] - 1;
        let t = z * z * pow2(i as nat);
        lemma_fq_add(b1, z);
        lemma_fq_mul_cong(yp[i], ar[i] + z, yp[i], b1 + z);
        lemma_fq_add_cong(yp[i] * (ar[i] + z), t, yp[i] * (b1 + z), t);
    }
}

/// The ring identity that regroups `t_hat g + tau_x h` by commitment.
proof fn lemma_t_hat_ring(
    a: int,
    b: int,
    s12: int,
    s3: int,
    v: int,
    bl: int,
    t1: int,
    t2: int,
    zz: int,
    x: int,
    g: int,
    h: int,
)
    ensures
        (a + zz * v - b + x * s12 + x * x * s3) * g + (t1 * x + t2 * x * x + zz * bl) * h == zz * (v
            * g + bl * h) + (a - b) * g + x * (s12 * g + t1 * h) + x * x * (s3 * g + t2 * h),
{
    assert((a + zz * v - b + x * s12 + x * x * s3) * g == a * g + (zz * v) * g - b * g + (x * s12)
        * g + (x * x * s3) * g) by (nonlinear_arith);
    assert((zz * v) * g == zz * (v * g)) by (nonlinear_arith);
    assert((x * s12) * g == x * (s12 * g)) by (nonlinear_arith);
    assert((x * x * s3) * g == x * x * (s3 * g)) by (nonlinear_arith);
    assert((t1 * x + t2 * x * x + zz * bl) * h == (t1 * x) * h + (t2 * x * x) * h + (zz * bl) * h)
        by (nonlinear_arith);
    assert((t1 * x) * h == x * (t1 * h)) by (nonlinear_arith);
    assert((t2 * x * x) * h == x * x * (t2 * h)) by (nonlinear_arith);
    assert((zz * bl) * h == zz * (bl * h)) by (nonlinear_arith);
    assert(zz * (v * g + bl * h) == zz * (v * g) + zz * (bl * h)) by (nonlinear_arith);
    assert((a - b) * g == a * g - b * g) by (nonlinear_arith);
    assert(x * (s12 * g + t1 * h) == x * (s12 * g) + x * (t1 * h)) by (nonlinear_arith);
    assert(x * x * (s3 * g + t2 * h) == x * x * (s3 * g) + x * x * (t2 * h)) by (nonlinear_arith);
}

/// The polynomial identity behind the `t_hat` check: for the bits of a value
/// and `aR = aL - 1`, whatever the challenges `y`, `z`, `x`, the prover's
/// `t_hat = <l, r>` and `tau_x` satisfy
/// `t_hat g + tau_x h = z² V + delta(y, z) g + x T1 + x² T2`.
pub proof fn lemma_t_hat_identity(
    value: u64,
    blinding: int,
    s_l: Seq<int>,
    s_r: Seq<int>,
    y: int,
    z: int,
    x: int,
    tau1: int,
    tau2: int,
    g: int,
    h: int,
)
    requires
        s_l.len() == 64,
        s_r.len() == 64,
    ensures
        ({
            let bits = bits_of(value);
            let ar = a_r_spec(bits);
            let yp = y_powers_spec(y);
            let l = l_spec(bits, s_l, z, x);
            let r = r_spec(ar, s_r, yp, z, x);
            fq(fq(dot(l, r)) * g + fq(tau1 * x + tau2 * x * x + z * z * blinding) * h) == fq(z * z
                * fq(value * g + blinding * h) + delta_spec(y, z) * g + x * fq(
                t1_spec(bits, ar, s_l, s_r, yp, z) * g + tau1 * h,
            ) + x * x * fq(t2_spec(s_l, s_r, yp) * g + tau2 * h))
        }),
{
    let bits = bits_of(value);
    let ar = a_r_spec(bits);
    let yp = y_powers_spec(y);
    let l = l_spec(bits, s_l, z, x);
    let r = r_spec(ar, s_r, yp, z, x);
    let ll = l_int(bits, s_l, z, x);
    let rr = r_int(bits, s_r, yp, z, x);
    let tw = twos(64);
    // t_hat = <l, r> is congruent to the unreduced inner product
    assert forall|i: int| 0 <= i < 64 implies #[trigger] fq(l[i]) == fq(ll[i]) by {
        lemma_fq_range(ll[i]);
    }
    lemma_r_entries(value, s_r, yp, z, x);
    lemma_sum_prod_cong(l, r, ll, rr, 64);
    lemma_t_poly(value, s_l, s_r, yp, z, x, 64);
    lemma_bits_value(value);
    let c1 = z - z * z;
    let c3 = z * z * z;
    let sy = sum_upto(yp, 64);
    let st = sum_upto(tw, 64);
    let s1 = sum_prod(minus_z(bits, z), times(yp, s_r), 64);
    let s2 = sum_prod(s_l, r_const(bits_minus_one(bits), yp, z), 64);
    let s3 = sum_prod(s_l, times(yp, s_r), 64);
    let tt = c1 * sy + z * z * value - c3 * st + x * (s1 + s2) + x * x * s3;
    assert(fq(dot(l, r)) == fq(tt));
    // t1 and t2
    let d2 = dot(s_l, r_const(ar, yp, z));
    assert forall|i: int| 0 <= i < 64 implies #[trigger] fq(s_l[i]) == fq(s_l[i]) by {}
    lemma_sum_prod_cong(s_l, r_const(ar, yp, z), s_l, r_const(bits_minus_one(bits), yp, z), 64);
    lemma_fq_add_cong(s1, d2, s1, s2);
    let t1 = t1_spec(bits, ar, s_l, s_r, yp, z);
    let t2 = t2_spec(s_l, s_r, yp);
    lemma_fq_range(s1 + d2);
    lemma_fq_range(s3);
    assert(fq(t1) == fq(s1 + s2));
    assert(fq(t2) == fq(s3));
    // delta
    let py = powers(y, 64);
    assert forall|i: int| 0 <= i < 64 implies #[trigger] fq(py[i]) == fq(yp[i]) by {
        lemma_fq_range(py[i]);
    }
    lemma_sum_upto_cong(py, yp, 64);
    lemma_fq_mul_cong(c1, seq_sum(py), c1, sy);
    lemma_fq_sub_cong(c1 * seq_sum(py), c3 * st, c1 * sy, c3 * st);
    let d = delta_spec(y, z);
    lemma_fq_range(c1 * seq_sum(py) - c3 * st);
    assert(fq(d) == fq(c1 * sy - c3 * st));
    // the left side
    let tau = tau1 * x + tau2 * x * x + z * z * blinding;
    lemma_fq_range(dot(l, r));
    lemma_fq_range(tau);
    lemma_fq_mul_cong(fq(dot(l, r)), g, tt, g);
    lemma_fq_mul_cong(fq(tau), h, tau, h);
    lemma_fq_add_cong(fq(dot(l, r)) * g, fq(tau) * h, tt * g, tau * h);
    // the right side
    let vv = value * g + blinding * h;
    let e1 = (s1 + s2) * g + tau1 * h;
    let e2 = s3 * g + tau2 * h;
    lemma_fq_range(vv);
    lemma_fq_mul_cong(z * z, fq(vv), z * z, vv);
    lemma_fq_mul_cong(d, g, c1 * sy - c3 * st, g);
    lemma_fq_mul_cong(t1, g, s1 + s2, g);
    lemma_fq_add_cong(t1 * g, tau1 * h, (s1 + s2) * g, tau1 * h);
    lemma_fq_range(t1 * g + tau1 * h);
    lemma_fq_mul_cong(x, fq(t1 * g + tau1 * h), x, e1);
    lemma_fq_mul_cong(t2, g, s3, g);
    lemma_fq_add_cong(t2 * g, tau2 * h, s3 * g, tau2 * h);
    lemma_fq_range(t2 * g + tau2 * h);
    lemma_fq_mul_cong(x * x, fq(t2 * g + tau2 * h), x * x, e2);
    let r1 = z * z * fq(vv);
    let r2 = d * g;
    let r3 = x * fq(t1 * g + tau1 * h);
    let r4 = x * x * fq(t2 * g + tau2 * h);
    lemma_fq_add_cong(r1, r2, z * z * vv, (c1 * sy - c3 * st) * g);
    lemma_fq_add_cong(r1 + r2, r3, z * z * vv + (c1 * sy - c3 * st) * g, x * e1);
    lemma_fq_add_cong(
        r1 + r2 + r3,
        r4,
        z * z * vv + (c1 * sy - c3 * st) * g + x * e1,
        x * x * e2,
    );
    // and the two sides agree before reduction
    lemma_t_hat_ring(c1 * sy, c3 * st, s1 + s2, s3, value as int, blinding, tau1, tau2, z * z, x, g, h);
}

/// `r(x)` before reduction, with `aR` as given.
spec fn r_ar_int(a_r: Seq<int>, s_r: Seq<int>, yp: Seq<int>, z: int, x: int) -> Seq<int> {
    Seq::new(64, |i: int| yp[i] * (a_r[i] + z + x * s_r[i]) + z * z * pow2(i as nat))
}

/// `y_i H'_i` before reduction.
spec fn y_times(yp: Seq<int>, hp: Seq<int>) -> Seq<int> {
    Seq::new(64, |i: int| yp[i] * hp[i])
}

/// A ring identity behind each entry of `<l, G> + <r, H'>`.
proof fn lemma_commit_entry(
    b: int,
    z: int,
    x: int,
    sl: int,
    gi: int,
    y: int,
    a: int,
    sr: int,
    zz: int,
    t: int,
    hp: int,
)
    ensures
        (b - z + x * sl) * gi + (y * (a + z + x * sr) + zz * t) * hp == b * gi + a * (y * hp) + x * (
        sl * gi + sr * (y * hp)) - z * gi + (z * y + zz * t) * hp,
{
    assert((b - z + x * sl) * gi == b * gi - z * gi + x * (sl * gi)) by (nonlinear_arith);
    assert(y * (a + z + x * sr) == y * a + y * z + y * (x * sr)) by (nonlinear_arith);
    assert((y * a + y * z + y * (x * sr) + zz * t) * hp == (y * a) * hp + (y * z) * hp + (y * (x
        * sr)) * hp + (zz * t) * hp) by (nonlinear_arith);
    assert((y * a) * hp == a * (y * hp)) by (nonlinear_arith);
    assert((y * (x * sr)) * hp == x * (sr * (y * hp))) by (nonlinear_arith);
    assert((z * y + zz * t) * hp == (y * z) * hp + (zz * t) * hp) by (nonlinear_arith);
    assert(x * (sl * gi + sr * (y * hp)) == x * (sl * gi) + x * (sr * (y * hp)))
        by (nonlinear_arith);
}

/// `<l, G> + <r, H'>` over the first `k` entries, regrouped by the vectors
/// that the commitments `A` and `S` hold.
proof fn lemma_commit_sum(
    bits: Seq<int>,
    a_r: Seq<int>,
    s_l: Seq<int>,
    s_r: Seq<int>,
    yp: Seq<int>,
    g: Seq<int>,
    hp: Seq<int>,
    z: int,
    x: int,
    k: int,
)
    requires
        0 <= k <= 64,
    ensures
        sum_prod(l_int(bits, s_l, z, x), g, k) + sum_prod(r_ar_int(a_r, s_r, yp, z, x), hp, k)
            == sum_prod(bits, g, k) + sum_prod(a_r, y_times(yp, hp), k) + x * (sum_prod(s_l, g, k)
            + sum_prod(s_r, y_times(yp, hp), k)) - sum_prod(z_ones_spec(z), g, k) + sum_prod(
            h_adjust_spec(yp, z),
            hp,
            k,
        ),
    decreases k,
{
    if k > 0 {
        lemma_commit_sum(bits, a_r, s_l, s_r, yp, g, hp, z, x, k - 1);
        let i = k - 1;
        let ti = pow2(i as nat) as int;
        lemma_commit_entry(bits[i], z, x, s_l[i], g[i], yp[i], a_r[i], s_r[i], z * z, ti, hp[i]);
        let yh = y_times(yp, hp);
        assert(yh[i] == yp[i] * hp[i]);
        assert(z_ones_spec(z)[i] == z);
        assert(h_adjust_spec(yp, z)[i] == z * yp[i] + z * z * ti);
        let p1 = sum_prod(s_l, g, i);
        let p2 = sum_prod(s_r, yh, i);
        lemma_mul_is_distributive_add(x, p1 + p2, s_l[i] * g[i] + s_r[i] * yh[i]);
        assert((p1 + s_l[i] * g[i]) + (p2 + s_r[i] * yh[i]) == (p1 + p2) + (s_l[i] * g[i] + s_r[i]
            * yh[i]));
    } else {
        assert(x * (0 + 0) == 0) by (nonlinear_arith);
    }
}

/// `y_i H'_i = H_i` modulo `q`, where `H'_i = y_i⁻¹ H_i`.
proof fn lemma_y_times_weighted(yp: Seq<int>, h: Seq<int>)
    requires
        h.len() == 64,
        forall|i: int| 0 <= i < 64 ==> invertible(#[trigger] yp[i]),
    ensures
        forall|i: int|
            0 <= i < 64 ==> #[trigger] fq(y_times(yp, weighted_h_spec(yp, h))[i]) == fq(h[i]),
{
    assert forall|i: int| 0 <= i < 64 implies #[trigger] fq(y_times(yp, weighted_h_spec(yp, h))[i])
        == fq(h[i]) by {
        let y = yp[i];
        let v = inv(y);
        assert(invertible(y));
        lemma_inv_of_invertible(y);
        lemma_fq_mul(y, v * h[i]);
        assert(y * (v * h[i]) == (y * v) * h[i]) by (nonlinear_arith);
        lemma_fq_small(1);
        lemma_fq_mul_cong(y * v, h[i], 1, h[i]);
        assert(1 * h[i] == h[i]);
    }
}

/// The commitment that the verifier rebuilds for the inner-product argument,
/// `A + x S - <z 1^n, G> + <z y^n + z² 2^n, H'> - mu h`, is the prover's
/// `<l, G> + <r, H'>`, for any vectors `aL`, `aR`, `sL`, `sR` and whatever the
/// challenges, where every power of `y` is invertible.
pub proof fn lemma_ipp_commitment_identity(
    a_l: Seq<int>,
    a_r: Seq<int>,
    s_l: Seq<int>,
    s_r: Seq<int>,
    alpha: int,
    rho: int,
    y: int,
    z: int,
    x: int,
    g: Seq<int>,
    h: Seq<int>,
    hh: int,
)
    requires
        a_l.len() == 64,
        a_r.len() == 64,
        s_l.len() == 64,
        s_r.len() == 64,
        g.len() == 64,
        h.len() == 64,
        forall|i: int| 0 <= i < 64 ==> invertible(#[trigger] y_powers_spec(y)[i]),
    ensures
        ({
            let yp = y_powers_spec(y);
            let hp = weighted_h_spec(yp, h);
            let a = fq(dot(a_l, g) + dot(a_r, h) + alpha * hh);
            let s = fq(dot(s_l, g) + dot(s_r, h) + rho * hh);
            let mu = fq(alpha + rho * x);
            fq(a + x * s - dot(z_ones_spec(z), g) + dot(h_adjust_spec(yp, z), hp) - mu * hh) == fq(
                dot(l_spec(a_l, s_l, z, x), g) + dot(r_spec(a_r, s_r, yp, z, x), hp),
            )
        }),
{
    let bits = a_l;
    let ar = a_r;
    let yp = y_powers_spec(y);
    let hp = weighted_h_spec(yp, h);
    let yh = y_times(yp, hp);
    let l = l_spec(bits, s_l, z, x);
    let r = r_spec(ar, s_r, yp, z, x);
    let lu = l_int(bits, s_l, z, x);
    let ru = r_ar_int(ar, s_r, yp, z, x);
    lemma_commit_sum(bits, ar, s_l, s_r, yp, g, hp, z, x, 64);
    // the reduced l and r against their unreduced forms
    assert forall|i: int| 0 <= i < 64 implies #[trigger] fq(l[i]) == fq(lu[i]) by {
        lemma_fq_range(lu[i]);
    }
    assert forall|i: int| 0 <= i < 64 implies #[trigger] fq(r[i]) == fq(ru[i]) by {
        lemma_fq_range(ru[i]);
    }
    assert forall|i: int| 0 <= i < 64 implies #[trigger] fq(g[i]) == fq(g[i]) by {}
    assert forall|i: int| 0 <= i < 64 implies #[trigger] fq(hp[i]) == fq(hp[i]) by {}
    assert forall|i: int| 0 <= i < 64 implies #[trigger] fq(ar[i]) == fq(ar[i]) by {}
    assert forall|i: int| 0 <= i < 64 implies #[trigger] fq(s_r[i]) == fq(s_r[i]) by {}
    lemma_sum_prod_cong(l, g, lu, g, 64);
    lemma_sum_prod_cong(r, hp, ru, hp, 64);
    lemma_y_times_weighted(yp, h);
    lemma_sum_prod_cong(ar, h, ar, yh, 64);
    lemma_sum_prod_cong(s_r, h, s_r, yh, 64);
    let db = dot(bits, g);
    let dar = dot(ar, h);
    let dsl = dot(s_l, g);
    let dsr = dot(s_r, h);
    let dz = dot(z_ones_spec(z), g);
    let dh = dot(h_adjust_spec(yp, z), hp);
    let sar = sum_prod(ar, yh, 64);
    let ssr = sum_prod(s_r, yh, 64);
    let a0 = db + dar + alpha * hh;
    let s0 = dsl + dsr + rho * hh;
    let m0 = alpha + rho * x;
    // reduce each commitment away
    lemma_fq_range(a0);
    lemma_fq_range(s0);
    lemma_fq_range(m0);
    lemma_fq_mul_cong(x, fq(s0), x, s0);
    lemma_fq_mul_cong(fq(m0), hh, m0, hh);
    lemma_fq_add_cong(fq(a0), x * fq(s0), a0, x * s0);
    lemma_fq_sub_cong(fq(a0) + x * fq(s0), dz, a0 + x * s0, dz);
    lemma_fq_add_cong(fq(a0) + x * fq(s0) - dz, dh, a0 + x * s0 - dz, dh);
    lemma_fq_sub_cong(fq(a0) + x * fq(s0) - dz + dh, fq(m0) * hh, a0 + x * s0 - dz + dh, m0 * hh);
    // the blinding terms cancel
    assert(a0 + x * s0 - dz + dh - m0 * hh == db + dar + x * (dsl + dsr) - dz + dh)
        by (nonlinear_arith)
        requires
            a0 == db + dar + alpha * hh,
            s0 == dsl + dsr + rho * hh,
            m0 == alpha + rho * x,
    ;
    // H against y H'
    lemma_fq_add_cong(dsl, dsr, dsl, ssr);
    lemma_fq_mul_cong(x, dsl + dsr, x, dsl + ssr);
    lemma_fq_add_cong(db, dar, db, sar);
    lemma_fq_add_cong(db + dar, x * (dsl + dsr), db + sar, x * (dsl + ssr));
    lemma_fq_sub_cong(db + dar + x * (dsl + dsr), dz, db + sar + x * (dsl + ssr), dz);
    lemma_fq_add_cong(db + dar + x * (dsl + dsr) - dz, dh, db + sar + x * (dsl + ssr) - dz, dh);
    // and the unreduced l and r against the reduced ones
    lemma_fq_add_cong(sum_prod(lu, g, 64), sum_prod(ru, hp, 64), dot(l, g), dot(r, hp));
}

/// Completeness of the range proof: for any 64-bit value, any blinding and
/// any randomness of the prover, a proof that the prover produces is accepted
/// by the verifier against the Pedersen commitment `value * g + blinding * h`.
pub proof fn lemma_range_proof_completeness(
    value: u64,
    blinding: int,
    s_l: Seq<int>,
    s_r: Seq<int>,
    alpha: int,
    rho: int,
    tau1: int,
    tau2: int,
)
    requires
        s_l.len() == 64,
        s_r.len() == 64,
    ensures
        rp_prove_spec(value, blinding, s_l, s_r, alpha, rho, tau1, tau2) matches Some(p)
            ==> rp_verify_spec(commit_spec(value as int, blinding), p),
{
    if let Some(p) = rp_prove_spec(value, blinding, s_l, s_r, alpha, rho, tau1, tau2) {
        let g = pedersen_g_exponent();
        let h = pedersen_h_exponent();
        let bits = bits_of(value);
        let ar = a_r_spec(bits);
        let y = challenge_y(p.a, p.s);
        let z = challenge_z(y);
        let x = challenge_x(p.t1, p.t2, z);
        let yp = y_powers_spec(y);
        let hp = weighted_h_spec(yp, hv_exps());
        let l = l_spec(bits, s_l, z, x);
        let r = r_spec(ar, s_r, yp, z, x);
        lemma_t_hat_identity(value, blinding, s_l, s_r, y, z, x, tau1, tau2, g, h);
        assert(forall|i: int| 0 <= i < 64 ==> invertible(#[trigger] yp[i]));
        lemma_ipp_commitment_identity(bits, ar, s_l, s_r, alpha, rho, y, z, x, gv_exps(), hv_exps(), h);
        let q = ipp_q_spec(x, p.tau_x, p.mu, p.t_hat);
        reveal_with_fuel(is_pow2, 8);
        lemma_ipp_completeness(l, r, gv_exps(), hp, q);
        // P + t_hat Q is the commitment that the inner-product argument opens
        let pc = ipp_commitment_spec(p, y, z, x);
        let dg = dot(l, gv_exps()) + dot(r, hp);
        let dlr = dot(l, r);
        lemma_fq_range(pc);
        lemma_fq_mul(dlr, q);
        lemma_fq_add_cong(pc, p.t_hat * q, dg, dlr * q);
    }
}

/// `l(x)` before reduction, for any `aL`.
spec fn lx_int(a_l: Seq<int>, s_l: Seq<int>, z: int, x: int) -> Seq<int> {
    Seq::new(a_l.len(), |i: int| a_l[i] - z + x * s_l[i])
}

/// `r(x)` before reduction, for any `aR`.
spec fn rx_int(a_r: Seq<int>, s_r: Seq<int>, yp: Seq<int>, z: int, x: int) -> Seq<int> {
    Seq::new(a_r.len(), |i: int| yp[i] * (a_r[i] + z + x * s_r[i]) + z * z * pow2(i as nat))
}

/// `<l(x), r(x)> = <l(0), r(0)> + x (<aL - z, y∘sR> + <sL, y∘(aR + z) + z² 2^n>) + x² <sL, y∘sR>`
/// over the first `k` entries, before reduction.
proof fn lemma_t_poly_any(
    a_l: Seq<int>,
    a_r: Seq<int>,
    s_l: Seq<int>,
    s_r: Seq<int>,
    yp: Seq<int>,
    z: int,
    x: int,
    k: int,
)
    requires
        0 <= k <= a_l.len(),
        a_r.len() == a_l.len(),
        s_l.len() == a_l.len(),
        s_r.len() == a_l.len(),
    ensures
        sum_prod(lx_int(a_l, s_l, z, x), rx_int(a_r, s_r, yp, z, x), k) == sum_prod(
            lx_int(a_l, s_l, z, 0),
            rx_int(a_r, s_r, yp, z, 0),
            k,
        ) + x * (sum_prod(minus_z(a_l, z), times(yp, s_r), k) + sum_prod(
            s_l,
            r_const(a_r, yp, z),
            k,
        )) + x * x * sum_prod(s_l, times(yp, s_r), k),
    decreases k,
{
    if k > 0 {
        lemma_t_poly_any(a_l, a_r, s_l, s_r, yp, z, x, k - 1);
        let i = k - 1;
        let p = a_l[i] - z;
        let bb = a_r[i] + z;
        let t = pow2(i as nat) as int;
        let y = yp[i];
        lemma_entry_ring(p, s_l[i], x, y, bb, s_r[i], z * z, t);
        lemma_entry_ring(p, s_l[i], 0, y, bb, s_r[i], z * z, t);
        assert(0 * s_l[i] == 0 && 0 * s_r[i] == 0 && 0 * 0 == 0);
        assert(0 * (p * (y * s_r[i]) + s_l[i] * (y * bb + z * z * t)) == 0);
        assert(0 * 0 * (s_l[i] * (y * s_r[i])) == 0);
        let a1 = minus_z(a_l, z)[i] * times(yp, s_r)[i];
        let a2 = s_l[i] * r_const(a_r, yp, z)[i];
        let a3 = s_l[i] * times(yp, s_r)[i];
        assert(a1 == p * (y * s_r[i]));
        assert(a2 == s_l[i] * (y * bb + z * z * t));
        assert(a3 == s_l[i] * (y * s_r[i]));
        let s1 = sum_prod(minus_z(a_l, z), times(yp, s_r), i);
        let s2 = sum_prod(s_l, r_const(a_r, yp, z), i);
        let s3 = sum_prod(s_l, times(yp, s_r), i);
        lemma_mul_is_distributive_add(x, s1 + s2, a1 + a2);
        lemma_mul_is_distributive_add(x * x, s3, a3);
        assert((s1 + a1) + (s2 + a2) == (s1 + s2) + (a1 + a2));
        assert(lx_int(a_l, s_l, z, x)[i] == p + x * s_l[i]);
        assert(rx_int(a_r, s_r, yp, z, x)[i] == y * (bb + x * s_r[i]) + z * z * t);
        assert(lx_int(a_l, s_l, z, 0)[i] == p + 0 * s_l[i]);
        assert(rx_int(a_r, s_r, yp, z, 0)[i] == y * (bb + 0 * s_r[i]) + z * z * t);
    } else {
        assert(x * (0 + 0) + x * x * 0 == 0) by (nonlinear_arith);
    }
}

/// `t(X) = <l(X), r(X)>` is the polynomial `t0 + t1 X + t2 X²`, for any
/// vectors `aL`, `aR`, `sL`, `sR` of one length, any `y`-powers and any `z`:
/// `t0` is `<l(0), r(0)>`, `t1` is what `compute_t1_bp` computes and `t2`
/// what `compute_t2_bp` computes.
pub proof fn lemma_t_polynomial(
    a_l: Seq<int>,
    a_r: Seq<int>,
    s_l: Seq<int>,
    s_r: Seq<int>,
    yp: Seq<int>,
    z: int,
    x: int,
)
    requires
        a_r.len() == a_l.len(),
        s_l.len() == a_l.len(),
        s_r.len() == a_l.len(),
    ensures
        fq(dot(l_spec(a_l, s_l, z, x), r_spec(a_r, s_r, yp, z, x))) == fq(dot(
            l_spec(a_l, s_l, z, 0),
            r_spec(a_r, s_r, yp, z, 0),
        ) + t1_spec(a_l, a_r, s_l, s_r, yp, z) * x + t2_spec(s_l, s_r, yp) * x * x),
{
    let n = a_l.len() as int;
    let lx = lx_int(a_l, s_l, z, x);
    let rx = rx_int(a_r, s_r, yp, z, x);
    let l0 = lx_int(a_l, s_l, z, 0);
    let r0 = rx_int(a_r, s_r, yp, z, 0);
    lemma_t_poly_any(a_l, a_r, s_l, s_r, yp, z, x, n);
    assert forall|i: int| 0 <= i < n implies #[trigger] fq(l_spec(a_l, s_l, z, x)[i]) == fq(lx[i]) by {
        lemma_fq_range(lx[i]);
    }
    assert forall|i: int| 0 <= i < n implies #[trigger] fq(r_spec(a_r, s_r, yp, z, x)[i]) == fq(
        rx[i],
    ) by {
        lemma_fq_range(rx[i]);
    }
    assert forall|i: int| 0 <= i < n implies #[trigger] fq(l_spec(a_l, s_l, z, 0)[i]) == fq(l0[i]) by {
        lemma_fq_range(l0[i]);
    }
    assert forall|i: int| 0 <= i < n implies #[trigger] fq(r_spec(a_r, s_r, yp, z, 0)[i]) == fq(
        r0[i],
    ) by {
        lemma_fq_range(r0[i]);
    }
    lemma_sum_prod_cong(l_spec(a_l, s_l, z, x), r_spec(a_r, s_r, yp, z, x), lx, rx, n);
    lemma_sum_prod_cong(l_spec(a_l, s_l, z, 0), r_spec(a_r, s_r, yp, z, 0), l0, r0, n);
    let d0 = dot(l_spec(a_l, s_l, z, 0), r_spec(a_r, s_r, yp, z, 0));
    let e0 = sum_prod(l0, r0, n);
    let s12 = sum_prod(minus_z(a_l, z), times(yp, s_r), n) + sum_prod(s_l, r_const(a_r, yp, z), n);
    let s3 = sum_prod(s_l, times(yp, s_r), n);
    let t1 = t1_spec(a_l, a_r, s_l, s_r, yp, z);
    let t2 = t2_spec(s_l, s_r, yp);
    lemma_fq_range(s12);
    lemma_fq_range(s3);
    lemma_fq_mul_cong(t1, x, s12, x);
    lemma_fq_mul_cong(t2, x, s3, x);
    lemma_fq_mul_cong(t2 * x, x, s3 * x, x);
    lemma_fq_add_cong(d0, t1 * x, e0, s12 * x);
    lemma_fq_add_cong(d0 + t1 * x, t2 * x * x, e0 + s12 * x, s3 * x * x);
    assert(s12 * x == x * s12) by (nonlinear_arith);
    assert(s3 * x * x == x * x * s3) by (nonlinear_arith);
}

/// A proof opens at most one commitment: where the challenge `z` of a proof
/// is invertible, the verifier accepts that proof against no two different
/// commitments (the `t_hat` check fixes `z² V`).
pub proof fn lemma_proof_opens_one_commitment(c1: int, c2: int, p: RangeProofView)
    requires
        0 <= c1 < group_order(),
        0 <= c2 < group_order(),
        invertible(challenge_z(challenge_y(p.a, p.s))),
        rp_verify_spec(c1, p),
        rp_verify_spec(c2, p),
    ensures
        c1 == c2,
{
    let g = pedersen_g_exponent();
    let y = challenge_y(p.a, p.s);
    let z = challenge_z(y);
    let x = challenge_x(p.t1, p.t2, z);
    let t = delta_spec(y, z) * g + x * p.t1 + x * x * p.t2;
    let a1 = z * z * c1;
    let a2 = z * z * c2;
    assert(fq(a1 + t) == fq(a2 + t));
    lemma_fq_sub_cong(a1 + t, t, a2 + t, t);
    assert(a1 + t - t == a1);
    assert(a2 + t - t == a2);
    let v = inv(z);
    lemma_inv_of_invertible(z);
    lemma_fq_mul_cong(v * v, a1, v * v, a2);
    assert(v * v * a1 == (z * v) * (z * v) * c1) by (nonlinear_arith)
        requires
            a1 == z * z * c1,
    ;
    assert(v * v * a2 == (z * v) * (z * v) * c2) by (nonlinear_arith)
        requires
            a2 == z * z * c2,
    ;
    lemma_fq_small(1);
    lemma_fq_mul_cong(z * v, z * v, 1, 1);
    lemma_fq_mul_cong((z * v) * (z * v), c1, 1, c1);
    lemma_fq_mul_cong((z * v) * (z * v), c2, 1, c2);
    assert(1 * 1 == 1);
    assert(1 * c1 == c1 && 1 * c2 == c2);
    lemma_fq_small(c1);
    lemma_fq_small(c2);
}

} // verus!
