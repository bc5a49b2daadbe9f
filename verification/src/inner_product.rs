//! The inner-product argument for vectors of length 64 (six folding rounds).
use vstd::prelude::*;
use vstd::arithmetic::mul::lemma_mul_is_distributive_add;

use crate::modular::{
    fq, inv, invertible, lemma_fq_add, lemma_fq_add_cong, lemma_fq_mul, lemma_fq_mul_cong,
    lemma_fq_range, lemma_fq_small, lemma_inv_of_invertible, lemma_inv_unique,
    lemma_invertible_witness, lemma_zero_not_invertible,
};
use crate::parallel::join2;
use crate::point::{lemma_g1_reduced, G1};
use crate::scalar::{group_order, lemma_scalar_facts, Scalar};
use crate::transcript::{challenge_ipp, compute_challenge_ipp};
use crate::vectors::{
    dot, hadamard_product, inner_product, lemma_fq_mul_regroup, lemma_sum_prod_bilinear,
    lemma_sum_prod_cong_terms, lemma_sum_prod_prefix, ones_vec, scalar_vector_mul_bp, lemma_sum_prod_cong, lemma_sum_prod_linear_right,
    lemma_sum_prod_scale, lemma_sum_prod_split, points_view, scalars_view, sum_prod,
};

verus! {

broadcast use {lemma_scalar_facts, lemma_g1_reduced};

/// The first half of a vector.
pub open spec fn lo(s: Seq<int>) -> Seq<int> {
    s.subrange(0, (s.len() / 2) as int)
}

/// The second half of a vector (one longer than `lo` when the length is odd).
pub open spec fn hi(s: Seq<int>) -> Seq<int> {
    s.subrange((s.len() / 2) as int, s.len() as int)
}

/// `x * lo[i] + y * hi[i]` for each `i` below the length of `lo`, reduced.
pub open spec fn fold_vec(lo: Seq<int>, hi: Seq<int>, x: int, y: int) -> Seq<int> {
    Seq::new(lo.len(), |i: int| fq(x * lo[i] + y * hi[i]))
}

/// One folding step of a generator vector under challenge `u`: the G generators
/// fold as `G' = u⁻¹ G_lo + u G_hi`, the H generators (`swap`) as `H' = u H_lo + u⁻¹ H_hi`.
pub open spec fn fold_once(g: Seq<int>, u: int, swap: bool) -> Seq<int> {
    if swap {
        fold_vec(lo(g), hi(g), u, inv(u))
    } else {
        fold_vec(lo(g), hi(g), inv(u), u)
    }
}

/// A generator vector folded under each challenge in turn.
pub open spec fn fold_all(g: Seq<int>, us: Seq<int>, swap: bool) -> Seq<int>
    decreases us.len(),
{
    if us.len() == 0 {
        g
    } else {
        fold_all(fold_once(g, us[0], swap), us.drop_first(), swap)
    }
}

/// The G generators folded under each challenge in turn.
pub open spec fn fold_g_all(g: Seq<int>, us: Seq<int>) -> Seq<int> {
    fold_all(g, us, false)
}

/// The H generators folded under each challenge in turn.
pub open spec fn fold_h_all(h: Seq<int>, us: Seq<int>) -> Seq<int> {
    fold_all(h, us, true)
}

/// The coefficients `c` with `fold_all(g, us, swap)[0] = <c, g>` for generator
/// vectors of length `n`.
pub open spec fn fold_coeffs(us: Seq<int>, n: nat, swap: bool) -> Seq<int>
    decreases us.len(),
{
    if us.len() == 0 {
        Seq::new(n, |i: int| if i == 0 { 1int } else { 0int })
    } else {
        let m = n / 2;
        let c = fold_coeffs(us.drop_first(), m, swap);
        let x = if swap { us[0] } else { inv(us[0]) };
        let y = if swap { inv(us[0]) } else { us[0] };
        Seq::new(
            n,
            |i: int|
                if i < m {
                    fq(x * c[i])
                } else if i < 2 * m {
                    fq(y * c[i - m])
                } else {
                    0int
                },
        )
    }
}

/// The length left after halving `n` (rounding down) `k` times.
pub open spec fn halved(n: nat, k: nat) -> nat
    decreases k,
{
    if k == 0 {
        n
    } else {
        halved(n / 2, (k - 1) as nat)
    }
}

/// Whether `n` is a power of two.
pub open spec fn is_pow2(n: nat) -> bool
    decreases n,
{
    if n == 0 {
        false
    } else if n == 1 {
        true
    } else {
        n % 2 == 0 && is_pow2(n / 2)
    }
}

/// The number of halvings that bring `n` down to one.
pub open spec fn log2(n: nat) -> nat
    decreases n,
{
    if n <= 1 {
        0
    } else {
        1 + log2(n / 2)
    }
}

/// The cross term `L = <a_lo, G_hi> + <b_hi, H_lo> + <a_lo, b_hi> Q` of a round.
pub open spec fn cross_l(a: Seq<int>, b: Seq<int>, g: Seq<int>, h: Seq<int>, q: int) -> int {
    fq(dot(lo(a), hi(g)) + dot(hi(b), lo(h)) + dot(lo(a), hi(b)) * q)
}

/// The cross term `R = <a_hi, G_lo> + <b_lo, H_hi> + <a_hi, b_lo> Q` of a round.
pub open spec fn cross_r(a: Seq<int>, b: Seq<int>, g: Seq<int>, h: Seq<int>, q: int) -> int {
    fq(dot(hi(a), lo(g)) + dot(lo(b), hi(h)) + dot(hi(a), lo(b)) * q)
}

/// Generators `h` scaled by the weights `w`: `w_i h_i`, reduced.
pub open spec fn weighted(w: Seq<int>, h: Seq<int>) -> Seq<int> {
    Seq::new(h.len(), |i: int| fq(w[i] * h[i]))
}

/// A transcript of the inner-product argument: the cross terms of each
/// round, and the final folded scalars.
pub struct IppTranscript {
    pub ls: Seq<int>,
    pub rs: Seq<int>,
    pub a: int,
    pub b: int,
}

/// The prover's transcript for `a`, `b` over generators `g`, `h` and the
/// inner-product generator `q`, or `None` when some round's challenge has no
/// inverse (is zero, `q` being prime).
#[verifier::opaque]
pub open spec fn ipp_prove_spec(a: Seq<int>, b: Seq<int>, g: Seq<int>, h: Seq<int>, q: int) -> Option<
    IppTranscript,
>
    decreases a.len(),
{
    if a.len() <= 1 {
        Some(IppTranscript { ls: Seq::empty(), rs: Seq::empty(), a: a[0], b: b[0] })
    } else {
        let l = cross_l(a, b, g, h, q);
        let r = cross_r(a, b, g, h, q);
        let u = challenge_ipp(l, r);
        if !invertible(u) {
            None
        } else {
            let v = inv(u);
            match ipp_prove_spec(
                fold_vec(lo(a), hi(a), u, v),
                fold_vec(lo(b), hi(b), v, u),
                fold_vec(lo(g), hi(g), v, u),
                fold_vec(lo(h), hi(h), u, v),
                q,
            ) {
                Some(t) => Some(
                    IppTranscript { ls: seq![l] + t.ls, rs: seq![r] + t.rs, a: t.a, b: t.b },
                ),
                None => None,
            }
        }
    }
}

/// Whether some round of the inner-product argument on these inputs draws a
/// challenge that has no inverse.
pub open spec fn ipp_meets_zero(a: Seq<int>, b: Seq<int>, g: Seq<int>, h: Seq<int>, q: int) -> bool
    decreases a.len(),
{
    if a.len() <= 1 {
        false
    } else {
        let u = challenge_ipp(cross_l(a, b, g, h, q), cross_r(a, b, g, h, q));
        if !invertible(u) {
            true
        } else {
            let v = inv(u);
            ipp_meets_zero(
                fold_vec(lo(a), hi(a), u, v),
                fold_vec(lo(b), hi(b), v, u),
                fold_vec(lo(g), hi(g), v, u),
                fold_vec(lo(h), hi(h), u, v),
                q,
            )
        }
    }
}

/// The inner-product prover fails only where a round's challenge has no
/// inverse: on every other input it produces a transcript, whatever the
/// vectors hold.
pub proof fn lemma_ipp_fails_only_on_zero(a: Seq<int>, b: Seq<int>, g: Seq<int>, h: Seq<int>, q: int)
    ensures
        ipp_prove_spec(a, b, g, h, q) is None <==> ipp_meets_zero(a, b, g, h, q),
    decreases a.len(),
{
    reveal(ipp_prove_spec);
    if a.len() > 1 {
        let u = challenge_ipp(cross_l(a, b, g, h, q), cross_r(a, b, g, h, q));
        if invertible(u) {
            let v = inv(u);
            lemma_ipp_fails_only_on_zero(
                fold_vec(lo(a), hi(a), u, v),
                fold_vec(lo(b), hi(b), v, u),
                fold_vec(lo(g), hi(g), v, u),
                fold_vec(lo(h), hi(h), u, v),
                q,
            );
        }
    }
}

/// Where every challenge that the transcript can draw has an inverse, the
/// inner-product prover produces a transcript for all inputs.
pub proof fn lemma_ipp_total(a: Seq<int>, b: Seq<int>, g: Seq<int>, h: Seq<int>, q: int)
    requires
        forall|l: int, r: int| invertible(#[trigger] challenge_ipp(l, r)),
    ensures
        ipp_prove_spec(a, b, g, h, q) is Some,
    decreases a.len(),
{
    lemma_ipp_fails_only_on_zero(a, b, g, h, q);
    if a.len() > 1 {
        let u = challenge_ipp(cross_l(a, b, g, h, q), cross_r(a, b, g, h, q));
        assert(invertible(u));
        let v = inv(u);
        lemma_ipp_total(
            fold_vec(lo(a), hi(a), u, v),
            fold_vec(lo(b), hi(b), v, u),
            fold_vec(lo(g), hi(g), v, u),
            fold_vec(lo(h), hi(h), u, v),
            q,
        );
        lemma_ipp_fails_only_on_zero(
            fold_vec(lo(a), hi(a), u, v),
            fold_vec(lo(b), hi(b), v, u),
            fold_vec(lo(g), hi(g), v, u),
            fold_vec(lo(h), hi(h), u, v),
            q,
        );
    }
}

/// Prepends rounds already played to the rest of a transcript.
pub open spec fn prepend_rounds(ls: Seq<int>, rs: Seq<int>, rest: Option<IppTranscript>) -> Option<
    IppTranscript,
> {
    match rest {
        Some(t) => Some(IppTranscript { ls: ls + t.ls, rs: rs + t.rs, a: t.a, b: t.b }),
        None => None,
    }
}

/// The challenges that a transcript's cross terms determine.
pub open spec fn ipp_challenges(ls: Seq<int>, rs: Seq<int>) -> Seq<int> {
    Seq::new(ls.len(), |k: int| challenge_ipp(ls[k], rs[k]))
}

/// The commitment folded with each round: `P' = u² L + P + (u²)⁻¹ R`.
pub open spec fn fold_commitment(p: int, ls: Seq<int>, rs: Seq<int>, us: Seq<int>) -> int
    decreases ls.len(),
{
    if ls.len() == 0 {
        p
    } else {
        let u_sq = fq(us[0] * us[0]);
        fold_commitment(
            fq(u_sq * ls[0] + p + inv(u_sq) * rs[0]),
            ls.drop_first(),
            rs.drop_first(),
            us.drop_first(),
        )
    }
}

/// Whether the verifier accepts the proof `(ls, rs, a, b)` for commitment `p`
/// over generators `g`, `h` and the inner-product generator `q`: every
/// challenge's square has an inverse, and the folded commitment equals
/// `a G' + b H' + a b Q`.
pub open spec fn ipp_verify_spec(
    g: Seq<int>,
    h: Seq<int>,
    q: int,
    p: int,
    ls: Seq<int>,
    rs: Seq<int>,
    a: int,
    b: int,
) -> bool {
    let us = ipp_challenges(ls, rs);
    &&& forall|k: int| 0 <= k < us.len() ==> invertible(#[trigger] fq(us[k] * us[k]))
    &&& fold_commitment(p, ls, rs, us) == fq(
        a * fold_g_all(g, us)[0] + b * fold_h_all(h, us)[0] + a * b * q,
    )
}

/// Folding a vector of generators is taking its inner product with the
/// folding coefficients.
pub proof fn lemma_fold_coeffs(g: Seq<int>, us: Seq<int>, swap: bool)
    requires
        halved(g.len(), us.len()) == 1,
    ensures
        fold_coeffs(us, g.len(), swap).len() == g.len(),
        fq(fold_all(g, us, swap)[0]) == fq(sum_prod(fold_coeffs(us, g.len(), swap), g, g.len() as int)),
    decreases us.len(),
{
    let n = g.len();
    if us.len() == 0 {
        assert(n == 1);
        let c = fold_coeffs(us, n, swap);
        assert(c[0] == 1);
        assert(sum_prod(c, g, 0) == 0);
        assert(c[0] * g[0] == g[0]) by (nonlinear_arith)
            requires
                c[0] == 1,
        ;
        assert(sum_prod(c, g, 1) == g[0]);
    } else {
        assert(n >= 2) by {
            if n < 2 {
                lemma_halved_small(n, us.len());
            }
        }
        let m: int = (n / 2) as int;
        let u = us[0];
        let x = if swap { u } else { inv(u) };
        let y = if swap { inv(u) } else { u };
        let g2 = fold_once(g, u, swap);
        let us2 = us.drop_first();
        assert(g2.len() == m);
        assert(halved(g2.len(), us2.len()) == 1);
        lemma_fold_coeffs(g2, us2, swap);
        let c2 = fold_coeffs(us2, m as nat, swap);
        let c = fold_coeffs(us, n, swap);
        // <c2, g2> = <c2, x g_lo + y g_hi> = x <c2, g_lo> + y <c2, g_hi>
        let gl = g;
        let gh = g.skip(m);
        let lin = Seq::new(m as nat, |i: int| x * gl[i] + y * gh[i]);
        assert forall|i: int| 0 <= i < m implies #[trigger] fq(g2[i]) == fq(lin[i]) by {
            lemma_fq_range(x * gl[i] + y * gh[i]);
            lemma_fq_small(g2[i]);
        }
        assert forall|i: int| 0 <= i < m implies #[trigger] fq(c2[i]) == fq(c2[i]) by {}
        lemma_sum_prod_cong(c2, g2, c2, lin, m as int);
        lemma_sum_prod_linear_right(c2, lin, gl, gh, x, y, m as int);
        // x <c2, g_lo> = <x c2, g_lo>, y <c2, g_hi> = <y c2, g_hi>
        let xc = Seq::new(m as nat, |i: int| x * c2[i]);
        let yc = Seq::new(m as nat, |i: int| y * c2[i]);
        lemma_sum_prod_scale(c2, xc, gl, x, m as int);
        lemma_sum_prod_scale(c2, yc, gh, y, m as int);
        // and these are, modulo q, the two halves of <c, g>
        assert forall|i: int| 0 <= i < m implies #[trigger] fq(c[i]) == fq(xc[i]) by {
            lemma_fq_range(x * c2[i]);
        }
        assert forall|i: int| 0 <= i < m implies #[trigger] fq(c.skip(m)[i]) == fq(yc[i]) by {
            assert(c.skip(m)[i] == c[m + i]);
            lemma_fq_range(y * c2[i]);
        }
        assert forall|i: int| 0 <= i < m implies #[trigger] fq(gl[i]) == fq(gl[i]) by {}
        assert forall|i: int| 0 <= i < m implies #[trigger] fq(gh[i]) == fq(gh[i]) by {}
        lemma_sum_prod_cong(c, gl, xc, gl, m as int);
        lemma_sum_prod_cong(c.skip(m), gh, yc, gh, m as int);
        lemma_sum_prod_split(c, g, m as int, (n - m) as int);
        if n - m > m {
            assert(n - m == m + 1);
            assert(c.skip(m)[m] == 0);
            assert(c.skip(m)[m] * gh[m] == 0) by (nonlinear_arith)
                requires
                    c.skip(m)[m] == 0,
            ;
            assert(sum_prod(c.skip(m), gh, m + 1) == sum_prod(c.skip(m), gh, m as int));
        }
        let a1 = sum_prod(c, gl, m as int);
        let a2 = sum_prod(c.skip(m), gh, m as int);
        let b1 = sum_prod(xc, gl, m as int);
        let b2 = sum_prod(yc, gh, m as int);
        lemma_fq_add_cong(a1, a2, b1, b2);
    }
}

/// Halving fewer than two `k` times never reaches exactly one unless `k` is zero.
proof fn lemma_halved_small(n: nat, k: nat)
    requires
        n < 2,
        k > 0,
    ensures
        halved(n, k) == 0,
    decreases k,
{
    if k > 1 {
        lemma_halved_small(n / 2, (k - 1) as nat);
    } else {
        assert(halved(n / 2, 0) == n / 2);
    }
}

/// An inner product of even length is the sum of the inner products of its halves.
proof fn lemma_dot_halves(a: Seq<int>, g: Seq<int>)
    requires
        a.len() == g.len(),
        a.len() % 2 == 0,
    ensures
        dot(a, g) == dot(lo(a), lo(g)) + dot(hi(a), hi(g)),
{
    let n = a.len() as int;
    let m = n / 2;
    lemma_sum_prod_split(a, g, m, m);
    lemma_sum_prod_prefix(a, g, lo(a), lo(g), m);
    assert(a.skip(m) =~= hi(a));
    assert(g.skip(m) =~= hi(g));
}

/// The inner product of two folded vectors, expanded modulo `q`.
proof fn lemma_fold_dot(
    al: Seq<int>,
    ah: Seq<int>,
    gl: Seq<int>,
    gh: Seq<int>,
    x1: int,
    y1: int,
    x2: int,
    y2: int,
)
    requires
        ah.len() == al.len(),
        gl.len() == al.len(),
        gh.len() == al.len(),
    ensures
        fq(dot(fold_vec(al, ah, x1, y1), fold_vec(gl, gh, x2, y2))) == fq(x1 * x2 * dot(al, gl) + x1
            * y2 * dot(al, gh) + y1 * x2 * dot(ah, gl) + y1 * y2 * dot(ah, gh)),
{
    let m = al.len() as int;
    let fa = fold_vec(al, ah, x1, y1);
    let fg = fold_vec(gl, gh, x2, y2);
    let ra = Seq::new(m as nat, |i: int| x1 * al[i] + y1 * ah[i]);
    let rg = Seq::new(m as nat, |i: int| x2 * gl[i] + y2 * gh[i]);
    assert forall|i: int| 0 <= i < m implies #[trigger] fq(fa[i]) == fq(ra[i]) by {
        lemma_fq_range(x1 * al[i] + y1 * ah[i]);
    }
    assert forall|i: int| 0 <= i < m implies #[trigger] fq(fg[i]) == fq(rg[i]) by {
        lemma_fq_range(x2 * gl[i] + y2 * gh[i]);
    }
    lemma_sum_prod_cong(fa, fg, ra, rg, m);
    lemma_sum_prod_bilinear(ra, rg, al, ah, gl, gh, x1, y1, x2, y2, m);
}

/// One round keeps the commitment equation: if `P = <a, G> + <b, H> + <a, b> Q`,
/// then `u² L + P + (u²)⁻¹ R = <a', G'> + <b', H'> + <a', b'> Q` for the folded vectors.
proof fn lemma_ipp_round_commitment(
    a: Seq<int>,
    b: Seq<int>,
    g: Seq<int>,
    h: Seq<int>,
    q: int,
    p: int,
    u: int,
)
    requires
        b.len() == a.len(),
        g.len() == a.len(),
        h.len() == a.len(),
        a.len() % 2 == 0,
        fq(p) == fq(dot(a, g) + dot(b, h) + dot(a, b) * q),
        invertible(u),
    ensures
        invertible(fq(u * u)),
        fq(fq(u * u) * cross_l(a, b, g, h, q) + p + inv(fq(u * u)) * cross_r(a, b, g, h, q)) == fq(
            dot(fold_vec(lo(a), hi(a), u, inv(u)), fold_vec(lo(g), hi(g), inv(u), u)) + dot(
                fold_vec(lo(b), hi(b), inv(u), u),
                fold_vec(lo(h), hi(h), u, inv(u)),
            ) + dot(fold_vec(lo(a), hi(a), u, inv(u)), fold_vec(lo(b), hi(b), inv(u), u)) * q,
        ),
{
    let v = inv(u);
    lemma_inv_of_invertible(u);
    let uu = fq(u * u);
    let vv = fq(v * v);
    // (u²)(v²) = (uv)(uv) = 1
    assert(u * u * (v * v) == (u * v) * (u * v)) by (nonlinear_arith);
    lemma_fq_mul(u * u, v * v);
    lemma_fq_mul(u * v, u * v);
    lemma_fq_range(v * v);
    lemma_invertible_witness(uu, vv);

    let (al, ah, bl, bh) = (lo(a), hi(a), lo(b), hi(b));
    let (gl, gh, hl, hh) = (lo(g), hi(g), lo(h), hi(h));
    let (al_gl, al_gh, ah_gl, ah_gh) = (dot(al, gl), dot(al, gh), dot(ah, gl), dot(ah, gh));
    let (bl_hl, bl_hh, bh_hl, bh_hh) = (dot(bl, hl), dot(bl, hh), dot(bh, hl), dot(bh, hh));
    let (al_bl, al_bh, ah_bl, ah_bh) = (dot(al, bl), dot(al, bh), dot(ah, bl), dot(ah, bh));
    lemma_fold_dot(al, ah, gl, gh, u, v, v, u);
    lemma_fold_dot(bl, bh, hl, hh, v, u, u, v);
    lemma_fold_dot(al, ah, bl, bh, u, v, v, u);
    lemma_dot_halves(a, g);
    lemma_dot_halves(b, h);
    lemma_dot_halves(a, b);

    let d1 = dot(fold_vec(al, ah, u, v), fold_vec(gl, gh, v, u));
    let d2 = dot(fold_vec(bl, bh, v, u), fold_vec(hl, hh, u, v));
    let d3 = dot(fold_vec(al, ah, u, v), fold_vec(bl, bh, v, u));
    let x1 = u * v * al_gl + u * u * al_gh + v * v * ah_gl + v * u * ah_gh;
    let x2 = v * u * bl_hl + v * v * bl_hh + u * u * bh_hl + u * v * bh_hh;
    let x3 = u * v * al_bl + u * u * al_bh + v * v * ah_bl + v * u * ah_bh;
    let s0 = al_gl + ah_gh + bl_hl + bh_hh;
    let l0 = al_gh + bh_hl;
    let r0 = ah_gl + bl_hh;
    let sq = (al_bl + ah_bh) * q;
    let lq = al_bh * q;
    let rq = ah_bl * q;
    let s = s0 + sq;
    let lr = l0 + lq;
    let rr = r0 + rq;
    let e1 = u * u * lr + s + v * v * rr;
    lemma_fq_mul_cong(d3, q, x3, q);
    lemma_fq_add_cong(d1, d2, x1, x2);
    lemma_fq_add_cong(d1 + d2, d3 * q, x1 + x2, x3 * q);
    assert(x1 + x2 == u * v * s0 + (u * u * l0 + v * v * r0)) by (nonlinear_arith)
        requires
            x1 == u * v * al_gl + u * u * al_gh + v * v * ah_gl + v * u * ah_gh,
            x2 == v * u * bl_hl + v * v * bl_hh + u * u * bh_hl + u * v * bh_hh,
            s0 == al_gl + ah_gh + bl_hl + bh_hh,
            l0 == al_gh + bh_hl,
            r0 == ah_gl + bl_hh,
    ;
    assert(x3 * q == (u * v * al_bl) * q + (u * u * al_bh) * q + (v * v * ah_bl) * q + (v * u
        * ah_bh) * q) by (nonlinear_arith)
        requires
            x3 == u * v * al_bl + u * u * al_bh + v * v * ah_bl + v * u * ah_bh,
    ;
    assert((u * v * al_bl) * q + (v * u * ah_bh) * q == u * v * sq) by (nonlinear_arith)
        requires
            sq == (al_bl + ah_bh) * q,
    ;
    assert((u * u * al_bh) * q == u * u * lq) by (nonlinear_arith)
        requires
            lq == al_bh * q,
    ;
    assert((v * v * ah_bl) * q == v * v * rq) by (nonlinear_arith)
        requires
            rq == ah_bl * q,
    ;
    lemma_mul_is_distributive_add(u * v, s0, sq);
    lemma_mul_is_distributive_add(u * u, l0, lq);
    lemma_mul_is_distributive_add(v * v, r0, rq);
    assert(x1 + x2 + x3 * q == u * v * s + (u * u * lr + v * v * rr));
    // the factor uv is one modulo q
    lemma_fq_mul_cong(u * v, s, 1, s);
    assert(1 * s == s);
    lemma_fq_add_cong(u * v * s, u * u * lr + v * v * rr, s, u * u * lr + v * v * rr);
    assert(s + (u * u * lr + v * v * rr) == e1);
    // and the verifier's fold is congruent to e1
    let l = cross_l(a, b, g, h, q);
    let r = cross_r(a, b, g, h, q);
    lemma_fq_range(u * u);
    lemma_fq_range(lr);
    lemma_fq_range(rr);
    lemma_fq_mul_cong(uu, l, u * u, lr);
    lemma_fq_mul_cong(vv, r, v * v, rr);
    lemma_fq_add_cong(uu * l, p, u * u * lr, s);
    lemma_fq_add_cong(uu * l + p, vv * r, u * u * lr + s, v * v * rr);
}

/// The prover's transcript, when there is one, is accepted by the verifier
/// against any reduced commitment congruent to `<a, G> + <b, H> + <a, b> Q`.
proof fn lemma_ipp_complete_from(
    a: Seq<int>,
    b: Seq<int>,
    g: Seq<int>,
    h: Seq<int>,
    q: int,
    p: int,
)
    requires
        b.len() == a.len(),
        g.len() == a.len(),
        h.len() == a.len(),
        is_pow2(a.len()),
        0 <= p < group_order(),
        fq(p) == fq(dot(a, g) + dot(b, h) + dot(a, b) * q),
    ensures
        ipp_prove_spec(a, b, g, h, q) matches Some(t) ==> t.rs.len() == t.ls.len() && ipp_verify_spec(
            g,
            h,
            q,
            p,
            t.ls,
            t.rs,
            t.a,
            t.b,
        ),
    decreases a.len(),
{
    let n = a.len();
    if n == 1 {
        reveal(ipp_prove_spec);
        reveal_with_fuel(sum_prod, 2);
        lemma_fq_small(p);
        let t = ipp_prove_spec(a, b, g, h, q)->Some_0;
        let us = ipp_challenges(t.ls, t.rs);
        assert(us.len() == 0);
        assert(fold_commitment(p, t.ls, t.rs, us) == p);
        assert(fold_g_all(g, us) == g);
        assert(fold_h_all(h, us) == h);
    } else {
        lemma_halve_pow2(n);
        let l = cross_l(a, b, g, h, q);
        let r = cross_r(a, b, g, h, q);
        let u = challenge_ipp(l, r);
        lemma_ipp_round(a, b, g, h, q, l, r, u);
        if invertible(u) {
            let v = inv(u);
            let a2 = fold_vec(lo(a), hi(a), u, v);
            let b2 = fold_vec(lo(b), hi(b), v, u);
            let g2 = fold_vec(lo(g), hi(g), v, u);
            let h2 = fold_vec(lo(h), hi(h), u, v);
            let uu = fq(u * u);
            let p2 = fq(uu * l + p + inv(uu) * r);
            lemma_ipp_round_commitment(a, b, g, h, q, p, u);
            lemma_fq_range(uu * l + p + inv(uu) * r);
            lemma_ipp_complete_from(a2, b2, g2, h2, q, p2);
            match ipp_prove_spec(a2, b2, g2, h2, q) {
                Some(t2) => {
                    let t = IppTranscript {
                        ls: seq![l] + t2.ls,
                        rs: seq![r] + t2.rs,
                        a: t2.a,
                        b: t2.b,
                    };
                    assert(ipp_prove_spec(a, b, g, h, q) == Some(t));
                    let us = ipp_challenges(t.ls, t.rs);
                    let us2 = ipp_challenges(t2.ls, t2.rs);
                    assert(t.ls.drop_first() =~= t2.ls);
                    assert(t.rs.drop_first() =~= t2.rs);
                    assert forall|k: int| 0 <= k < us2.len() implies #[trigger] us2[k]
                        == us.drop_first()[k] by {
                        assert(t.ls[k + 1] == t2.ls[k]);
                        assert(t.rs[k + 1] == t2.rs[k]);
                    }
                    assert(us.drop_first() =~= us2);
                    assert(us[0] == u);
                    assert(fold_commitment(p, t.ls, t.rs, us) == fold_commitment(
                        p2,
                        t2.ls,
                        t2.rs,
                        us2,
                    ));
                    assert(fold_g_all(g, us) == fold_g_all(g2, us2));
                    assert(fold_h_all(h, us) == fold_h_all(h2, us2));
                    assert forall|k: int| 0 <= k < us.len() implies invertible(
                        #[trigger] fq(us[k] * us[k]),
                    ) by {
                        if k > 0 {
                            assert(us[k] == us2[k - 1]);
                        }
                    }
                },
                None => {},
            }
        }
    }
}

/// Completeness of the inner-product argument: for vectors `a`, `b`,
/// generators `G`, `H` of one power-of-two length and any generator `Q`, every
/// proof that the prover produces is accepted by the verifier against the
/// commitment `P = <a, G> + <b, H> + <a, b> Q`.
pub proof fn lemma_ipp_completeness(a: Seq<int>, b: Seq<int>, g: Seq<int>, h: Seq<int>, q: int)
    requires
        b.len() == a.len(),
        g.len() == a.len(),
        h.len() == a.len(),
        is_pow2(a.len()),
    ensures
        ipp_prove_spec(a, b, g, h, q) matches Some(t) ==> ipp_verify_spec(
            g,
            h,
            q,
            fq(dot(a, g) + dot(b, h) + dot(a, b) * q),
            t.ls,
            t.rs,
            t.a,
            t.b,
        ),
{
    let p = fq(dot(a, g) + dot(b, h) + dot(a, b) * q);
    lemma_fq_range(dot(a, g) + dot(b, h) + dot(a, b) * q);
    lemma_ipp_complete_from(a, b, g, h, q, p);
}

/// Inner product proof structure for n=64 (log2(64) = 6 rounds)
#[derive(Clone, Copy)]
pub struct InnerProductProof {
    /// Left commitments (6 rounds)
    pub l_vec: [G1; 6],
    /// Right commitments (6 rounds)
    pub r_vec: [G1; 6],
    /// Final a value
    pub a: Scalar,
    /// Final b value
    pub b: Scalar,
}

/// `lo[i] * x + hi[i] * y` for each `i`.
fn fold_scalars(lo: &[Scalar], hi: &[Scalar], x: Scalar, y: Scalar) -> (res: Vec<Scalar>)
    requires
        lo.len() <= hi.len(),
    ensures
        res.len() == lo.len(),
        scalars_view(res@) == fold_vec(scalars_view(lo@), scalars_view(hi@), x@, y@),
{
    let mut res: Vec<Scalar> = Vec::new();
    let mut i: usize = 0;
    while i < lo.len()
        invariant
            i <= lo.len() <= hi.len(),
            res.len() == i,
            forall|j: int|
                0 <= j < i ==> #[trigger] res[j]@ == fq(x@ * lo[j]@ + y@ * hi[j]@),
        decreases lo.len() - i,
    {
        let s = lo[i].mul(&x).add(&hi[i].mul(&y));
        proof {
            lemma_fq_add(lo[i as int]@ * x@, hi[i as int]@ * y@);
            assert(lo[i as int]@ * x@ == x@ * lo[i as int]@);
            assert(hi[i as int]@ * y@ == y@ * hi[i as int]@);
        }
        res.push(s);
        i = i + 1;
    }
    assert(scalars_view(res@) =~= fold_vec(scalars_view(lo@), scalars_view(hi@), x@, y@));
    res
}

/// `xs[i] * lo[i] + ys[i] * hi[i]` for each `i`, on one thread.
fn fold_points_seq(lo: &[G1], hi: &[G1], xs: &[Scalar], ys: &[Scalar]) -> (res: Vec<G1>)
    requires
        lo.len() <= hi.len(),
        xs.len() == lo.len(),
        ys.len() == lo.len(),
    ensures
        res.len() == lo.len(),
        forall|i: int|
            0 <= i < lo.len() ==> #[trigger] res[i]@ == fq(xs[i]@ * lo[i]@ + ys[i]@ * hi[i]@),
{
    let mut res: Vec<G1> = Vec::new();
    let mut i: usize = 0;
    while i < lo.len()
        invariant
            i <= lo.len() <= hi.len(),
            xs.len() == lo.len(),
            ys.len() == lo.len(),
            res.len() == i,
            forall|j: int|
                0 <= j < i ==> #[trigger] res[j]@ == fq(xs[j]@ * lo[j]@ + ys[j]@ * hi[j]@),
        decreases lo.len() - i,
    {
        let scalars = [xs[i], ys[i]];
        let points = [lo[i], hi[i]];
        let p = crate::multiexp::multiexp(scalars.as_slice(), points.as_slice());
        proof {
            assert(scalars_view(scalars@) =~= seq![xs[i as int]@, ys[i as int]@]);
            assert(points_view(points@) =~= seq![lo[i as int]@, hi[i as int]@]);
            reveal_with_fuel(crate::vectors::sum_prod, 3);
        }
        res.push(p);
        i = i + 1;
    }
    res
}

/// `fold_points_seq` on points and scalars given as pairs.
fn fold_chunk(points: (&[G1], &[G1]), scalars: (&[Scalar], &[Scalar])) -> (res: Vec<G1>)
    requires
        points.0.len() <= points.1.len(),
        scalars.0.len() == points.0.len(),
        scalars.1.len() == points.0.len(),
    ensures
        res.len() == points.0.len(),
        forall|i: int|
            0 <= i < points.0.len() ==> #[trigger] res[i]@ == fq(scalars.0[i]@ * points.0[i]@
                + scalars.1[i]@ * points.1[i]@),
{
    fold_points_seq(points.0, points.1, scalars.0, scalars.1)
}

/// `xs[i] * lo[i] + ys[i] * hi[i]` for each `i`, on up to two threads.
fn fold_points_half(lo: &[G1], hi: &[G1], xs: &[Scalar], ys: &[Scalar]) -> (res: Vec<G1>)
    requires
        lo.len() <= hi.len(),
        xs.len() == lo.len(),
        ys.len() == lo.len(),
    ensures
        res.len() == lo.len(),
        forall|i: int|
            0 <= i < lo.len() ==> #[trigger] res[i]@ == fq(xs[i]@ * lo[i]@ + ys[i]@ * hi[i]@),
{
    let n = lo.len();
    if n < 4 {
        return fold_points_seq(lo, hi, xs, ys);
    }
    let m = n / 2;
    let (lo1, lo2) = lo.split_at(m);
    let (hi1, _) = hi.split_at(m);
    let hi2 = vstd::slice::slice_subrange(hi, m, n);
    let (xs1, xs2) = xs.split_at(m);
    let (ys1, ys2) = ys.split_at(m);
    let (r1, r2) = join2(fold_chunk, (lo1, hi1), (xs1, ys1), fold_chunk, (lo2, hi2), (xs2, ys2));
    let mut res = r1;
    let mut r2 = r2;
    let ghost a1 = res@;
    let ghost a2 = r2@;
    res.append(&mut r2);
    proof {
        assert(res@ == a1 + a2);
        assert forall|i: int| 0 <= i < n implies #[trigger] res[i]@ == fq(
            xs[i]@ * lo[i]@ + ys[i]@ * hi[i]@,
        ) by {
            if i >= m {
                assert(res[i] == a2[i - m]);
                assert(lo2[i - m] == lo[i]);
                assert(hi2[i - m] == hi[i]);
                assert(xs2[i - m] == xs[i]);
                assert(ys2[i - m] == ys[i]);
            } else {
                assert(res[i] == a1[i]);
            }
        }
    }
    res
}

/// `fold_points_half` on points and scalars given as pairs.
fn fold_chunk_half(points: (&[G1], &[G1]), scalars: (&[Scalar], &[Scalar])) -> (res: Vec<G1>)
    requires
        points.0.len() <= points.1.len(),
        scalars.0.len() == points.0.len(),
        scalars.1.len() == points.0.len(),
    ensures
        res.len() == points.0.len(),
        forall|i: int|
            0 <= i < points.0.len() ==> #[trigger] res[i]@ == fq(scalars.0[i]@ * points.0[i]@
                + scalars.1[i]@ * points.1[i]@),
{
    fold_points_half(points.0, points.1, scalars.0, scalars.1)
}

/// `xs[i] * lo[i] + ys[i] * hi[i]` for each `i`, on up to four threads.
fn fold_points(lo: &[G1], hi: &[G1], xs: &[Scalar], ys: &[Scalar]) -> (res: Vec<G1>)
    requires
        lo.len() <= hi.len(),
        xs.len() == lo.len(),
        ys.len() == lo.len(),
    ensures
        res.len() == lo.len(),
        forall|i: int|
            0 <= i < lo.len() ==> #[trigger] res[i]@ == fq(xs[i]@ * lo[i]@ + ys[i]@ * hi[i]@),
{
    let n = lo.len();
    if n < 8 {
        return fold_points_half(lo, hi, xs, ys);
    }
    let m = n / 2;
    let (lo1, lo2) = lo.split_at(m);
    let (hi1, _) = hi.split_at(m);
    let hi2 = vstd::slice::slice_subrange(hi, m, n);
    let (xs1, xs2) = xs.split_at(m);
    let (ys1, ys2) = ys.split_at(m);
    let (r1, r2) = join2(fold_chunk_half, (lo1, hi1), (xs1, ys1), fold_chunk_half, (lo2, hi2), (xs2, ys2));
    let mut res = r1;
    let mut r2 = r2;
    let ghost a1 = res@;
    let ghost a2 = r2@;
    res.append(&mut r2);
    proof {
        assert(res@ == a1 + a2);
        assert forall|i: int| 0 <= i < n implies #[trigger] res[i]@ == fq(
            xs[i]@ * lo[i]@ + ys[i]@ * hi[i]@,
        ) by {
            if i >= m {
                assert(res[i] == a2[i - m]);
                assert(lo2[i - m] == lo[i]);
                assert(hi2[i - m] == hi[i]);
                assert(xs2[i - m] == xs[i]);
                assert(ys2[i - m] == ys[i]);
            } else {
                assert(res[i] == a1[i]);
            }
        }
    }
    res
}

/// `fold_points` on points and scalars given as pairs.
fn fold_pair(points: (&[G1], &[G1]), scalars: (&[Scalar], &[Scalar])) -> (res: Vec<G1>)
    requires
        points.0.len() <= points.1.len(),
        scalars.0.len() == points.0.len(),
        scalars.1.len() == points.0.len(),
    ensures
        res.len() == points.0.len(),
        forall|i: int|
            0 <= i < points.0.len() ==> #[trigger] res[i]@ == fq(scalars.0[i]@ * points.0[i]@
                + scalars.1[i]@ * points.1[i]@),
{
    fold_points(points.0, points.1, scalars.0, scalars.1)
}

/// One cross term of a round, `<a, G> + <bw, H> + <a, b> Q`, for
/// `points = (G, H, Q)` and `scalars = (a, bw, b)`.
fn cross_commit(points: (&[G1], &[G1], &G1), scalars: (&[Scalar], &[Scalar], &[Scalar])) -> (res: G1)
    requires
        scalars.0.len() == points.0.len(),
        scalars.1.len() == points.1.len(),
        scalars.2.len() == scalars.0.len(),
    ensures
        res@ == fq(fq(fq(dot(scalars_view(scalars.0@), points_view(points.0@))) + fq(
            dot(scalars_view(scalars.1@), points_view(points.1@)),
        )) + fq(fq(dot(scalars_view(scalars.0@), scalars_view(scalars.2@))) * points.2@)),
{
    let (g, h, q) = points;
    let (a, bw, b) = scalars;
    let c = inner_product(a, b);
    // one multi-exponentiation over (a ++ bw ++ [c], G ++ H ++ [Q])
    let mut ss: Vec<Scalar> = Vec::new();
    let mut ps: Vec<G1> = Vec::new();
    let mut i: usize = 0;
    while i < a.len()
        invariant
            i <= a.len() == g.len(),
            ss@ == a@.subrange(0, i as int),
            ps@ == g@.subrange(0, i as int),
        decreases a.len() - i,
    {
        ss.push(a[i]);
        ps.push(g[i]);
        i = i + 1;
    }
    let mut j: usize = 0;
    while j < bw.len()
        invariant
            j <= bw.len() == h.len(),
            ss@ == a@ + bw@.subrange(0, j as int),
            ps@ == g@ + h@.subrange(0, j as int),
        decreases bw.len() - j,
    {
        ss.push(bw[j]);
        ps.push(h[j]);
        j = j + 1;
    }
    ss.push(c);
    ps.push(*q);
    let res = crate::multiexp::multiexp(ss.as_slice(), ps.as_slice());
    proof {
        let n1 = a.len() as int;
        let n2 = bw.len() as int;
        let sv = scalars_view(ss@);
        let pv = points_view(ps@);
        let d1 = dot(scalars_view(a@), points_view(g@));
        let d2 = dot(scalars_view(bw@), points_view(h@));
        assert(ss@ =~= a@ + bw@ + seq![c]);
        assert(ps@ =~= g@ + h@ + seq![*q]);
        lemma_sum_prod_split(sv, pv, n1, n2 + 1);
        lemma_sum_prod_prefix(sv, pv, scalars_view(a@), points_view(g@), n1);
        lemma_sum_prod_prefix(sv.skip(n1), pv.skip(n1), scalars_view(bw@), points_view(h@), n2);
        assert(sum_prod(sv.skip(n1), pv.skip(n1), n2 + 1) == d2 + c@ * q@);
        lemma_fq_add(d1, d2);
        lemma_fq_add(d1 + d2, c@ * q@);
    }
    res
}

/// Halving a power of two above one gives a power of two, one round shorter.
proof fn lemma_halve_pow2(n: nat)
    requires
        is_pow2(n),
        n > 1,
    ensures
        n % 2 == 0,
        is_pow2(n / 2),
        log2(n) == 1 + log2(n / 2),
        n / 2 >= 1,
{
}

/// The field elements of the halves of a vector are the halves of its field elements.
proof fn lemma_scalar_views_split(a: Seq<Scalar>, m: int)
    requires
        0 <= m <= a.len(),
    ensures
        scalars_view(a.subrange(0, m)) == scalars_view(a).subrange(0, m),
        scalars_view(a.subrange(m, a.len() as int)) == scalars_view(a).subrange(m, a.len() as int),
{
    assert(scalars_view(a.subrange(0, m)) =~= scalars_view(a).subrange(0, m));
    assert(scalars_view(a.subrange(m, a.len() as int)) =~= scalars_view(a).subrange(m, a.len() as int));
}

/// The exponents of the halves of a vector are the halves of its exponents.
proof fn lemma_views_split(a: Seq<Scalar>, g: Seq<G1>, m: int)
    requires
        0 <= m <= a.len(),
        0 <= m <= g.len(),
    ensures
        scalars_view(a.subrange(0, m)) == scalars_view(a).subrange(0, m),
        scalars_view(a.subrange(m, a.len() as int)) == scalars_view(a).subrange(m, a.len() as int),
        points_view(g.subrange(0, m)) == points_view(g).subrange(0, m),
        points_view(g.subrange(m, g.len() as int)) == points_view(g).subrange(m, g.len() as int),
{
    lemma_point_views_split(g, m);
    assert(scalars_view(a.subrange(0, m)) =~= scalars_view(a).subrange(0, m));
    assert(scalars_view(a.subrange(m, a.len() as int)) =~= scalars_view(a).subrange(m, a.len() as int));
}

/// The exponents of the halves of a vector of points are the halves of its exponents.
proof fn lemma_point_views_split(g: Seq<G1>, m: int)
    requires
        0 <= m <= g.len(),
    ensures
        points_view(g.subrange(0, m)) == points_view(g).subrange(0, m),
        points_view(g.subrange(m, g.len() as int)) == points_view(g).subrange(m, g.len() as int),
{
    assert(points_view(g.subrange(0, m)) =~= points_view(g).subrange(0, m));
    assert(points_view(g.subrange(m, g.len() as int)) =~= points_view(g).subrange(m, g.len() as int));
}

/// One round of the prover, unfolded.
proof fn lemma_ipp_round(
    sa: Seq<int>,
    sb: Seq<int>,
    sg: Seq<int>,
    sh: Seq<int>,
    q: int,
    l: int,
    r: int,
    u: int,
)
    requires
        sa.len() > 1,
        l == cross_l(sa, sb, sg, sh, q),
        r == cross_r(sa, sb, sg, sh, q),
        u == challenge_ipp(l, r),
    ensures
        !invertible(u) ==> ipp_prove_spec(sa, sb, sg, sh, q) is None,
        invertible(u) ==> ipp_prove_spec(sa, sb, sg, sh, q) == prepend_rounds(
            seq![l],
            seq![r],
            ipp_prove_spec(
                fold_vec(lo(sa), hi(sa), u, inv(u)),
                fold_vec(lo(sb), hi(sb), inv(u), u),
                fold_vec(lo(sg), hi(sg), inv(u), u),
                fold_vec(lo(sh), hi(sh), u, inv(u)),
                q,
            ),
        ),
{
    reveal(ipp_prove_spec);
}

/// Rounds already played can be prepended one at a time.
proof fn lemma_prepend_push(ls: Seq<int>, rs: Seq<int>, l: int, r: int, rest: Option<IppTranscript>)
    ensures
        prepend_rounds(ls, rs, prepend_rounds(seq![l], seq![r], rest)) == prepend_rounds(
            ls.push(l),
            rs.push(r),
            rest,
        ),
{
    match rest {
        Some(t) => {
            assert(ls + (seq![l] + t.ls) =~= ls.push(l) + t.ls);
            assert(rs + (seq![r] + t.rs) =~= rs.push(r) + t.rs);
        },
        None => {},
    }
}

/// The inner-product argument over generators `G`, weighted generators
/// `w_i H_i` and an inner-product generator `Q`: it proves knowledge of `a`,
/// `b` with `P = <a, G> + <b, w∘H> + <a, b> Q`, so that `Q`'s coefficient
/// is bound to `<a, b>`. The weights are folded into the first round, so the
/// weighted generators are never formed.
///
/// Returns `None` exactly when some round's challenge is zero and so has no
/// inverse.
pub fn prove_ipp(
    g_vec: &[G1],
    h_vec: &[G1],
    h_weights: &[Scalar],
    q: &G1,
    a: &[Scalar],
    b: &[Scalar],
) -> (res: Option<InnerProductProof>)
    requires
        a.len() == 64,
        b.len() == 64,
        g_vec.len() == 64,
        h_vec.len() == 64,
        h_weights.len() == 64,
    ensures
        match ipp_prove_spec(
            scalars_view(a@),
            scalars_view(b@),
            points_view(g_vec@),
            weighted(scalars_view(h_weights@), points_view(h_vec@)),
            q@,
        ) {
            None => res is None,
            Some(t) => res matches Some(p) && points_view(p.l_vec@) == t.ls && points_view(p.r_vec@)
                == t.rs && p.a@ == t.a && p.b@ == t.b,
        },
        res matches Some(p) ==> ipp_verify_spec(
            points_view(g_vec@),
            weighted(scalars_view(h_weights@), points_view(h_vec@)),
            q@,
            fq(dot(scalars_view(a@), points_view(g_vec@)) + dot(
                scalars_view(b@),
                weighted(scalars_view(h_weights@), points_view(h_vec@)),
            ) + dot(scalars_view(a@), scalars_view(b@)) * q@),
            points_view(p.l_vec@),
            points_view(p.r_vec@),
            p.a@,
            p.b@,
        ),
{
    let ghost h0 = weighted(scalars_view(h_weights@), points_view(h_vec@));
    let ghost spec0 = ipp_prove_spec(scalars_view(a@), scalars_view(b@), points_view(g_vec@), h0, q@);
    proof {
        reveal_with_fuel(is_pow2, 8);
        lemma_ipp_completeness(scalars_view(a@), scalars_view(b@), points_view(g_vec@), h0, q@);
    }
    let mut n = a.len();
    let mut av: Vec<Scalar> = vstd::slice::slice_to_vec(a);
    let mut bv: Vec<Scalar> = vstd::slice::slice_to_vec(b);
    let mut gv: Vec<G1> = vstd::slice::slice_to_vec(g_vec);
    let mut hv: Vec<G1> = vstd::slice::slice_to_vec(h_vec);
    let mut wv: Vec<Scalar> = vstd::slice::slice_to_vec(h_weights);
    let mut l_vec: Vec<G1> = Vec::new();
    let mut r_vec: Vec<G1> = Vec::new();
    proof {
        reveal_with_fuel(log2, 8);
        assert(is_pow2(64) && log2(64) == 6);
        assert(prepend_rounds(Seq::empty(), Seq::empty(), spec0) =~= spec0) by {
            match spec0 {
                Some(t) => {
                    assert(Seq::<int>::empty() + t.ls =~= t.ls);
                    assert(Seq::<int>::empty() + t.rs =~= t.rs);
                },
                None => {},
            }
        }
        assert(points_view(l_vec@) =~= Seq::<int>::empty());
        assert(points_view(r_vec@) =~= Seq::<int>::empty());
    }
    while n > 1
        invariant
            av.len() == n,
            bv.len() == n,
            gv.len() == n,
            hv.len() == n,
            wv.len() == n,
            n >= 1,
            is_pow2(n as nat),
            l_vec.len() + log2(n as nat) == 6,
            r_vec.len() == l_vec.len(),
            h0 == weighted(scalars_view(h_weights@), points_view(h_vec@)),
            spec0 == ipp_prove_spec(scalars_view(a@), scalars_view(b@), points_view(g_vec@), h0, q@),
            spec0 == prepend_rounds(
                points_view(l_vec@),
                points_view(r_vec@),
                ipp_prove_spec(
                    scalars_view(av@),
                    scalars_view(bv@),
                    points_view(gv@),
                    weighted(scalars_view(wv@), points_view(hv@)),
                    q@,
                ),
            ),
        decreases n,
    {
        proof {
            lemma_halve_pow2(n as nat);
        }
        let n_half = n / 2;
        let ghost sa = scalars_view(av@);
        let ghost sb = scalars_view(bv@);
        let ghost sg = points_view(gv@);
        let ghost sw = scalars_view(wv@);
        let ghost sh = weighted(sw, points_view(hv@));
        proof {
            lemma_views_split(av@, gv@, n_half as int);
            lemma_views_split(bv@, hv@, n_half as int);
            lemma_scalar_views_split(wv@, n_half as int);
        }
        let (a_lo, a_hi) = av.as_slice().split_at(n_half);
        let (b_lo, b_hi) = bv.as_slice().split_at(n_half);
        let (g_lo, g_hi) = gv.as_slice().split_at(n_half);
        let (h_lo, h_hi) = hv.as_slice().split_at(n_half);
        let (w_lo, w_hi) = wv.as_slice().split_at(n_half);

        // L = <a_lo, G_hi> + <b_hi, w_lo∘H_lo> + <a_lo, b_hi> Q and
        // R = <a_hi, G_lo> + <b_lo, w_hi∘H_hi> + <a_hi, b_lo> Q, side by side
        let bw_lo = hadamard_product(b_hi, w_lo);
        let bw_hi = hadamard_product(b_lo, w_hi);
        let (l, r) = join2(
            cross_commit,
            (g_hi, h_lo, q),
            (a_lo, bw_lo.as_slice(), b_hi),
            cross_commit,
            (g_lo, h_hi, q),
            (a_hi, bw_hi.as_slice(), b_lo),
        );
        proof {
            lemma_cross_term(sa, sb, sg, sw, points_view(hv@), q@, l@, a_lo@, g_hi@, bw_lo@, h_lo@, b_hi@, true);
            lemma_cross_term(sa, sb, sg, sw, points_view(hv@), q@, r@, a_hi@, g_lo@, bw_hi@, h_hi@, b_lo@, false);
        }
        let ghost old_ls = points_view(l_vec@);
        let ghost old_rs = points_view(r_vec@);
        l_vec.push(l);
        r_vec.push(r);
        proof {
            assert(points_view(l_vec@) =~= old_ls.push(l@));
            assert(points_view(r_vec@) =~= old_rs.push(r@));
        }

        // Generate challenge
        let u = compute_challenge_ipp(&l, &r);
        proof {
            lemma_ipp_round(sa, sb, sg, sh, q@, l@, r@, u@);
        }
        let u_inv = match u.invert() {
            Some(v) => v,
            None => {
                proof {
                    lemma_zero_not_invertible();
                    assert(ipp_prove_spec(sa, sb, sg, sh, q@) is None);
                    assert(spec0 is None);
                }
                return None;
            },
        };
        proof {
            lemma_invertible_witness(u@, u_inv@);
        }
        // a' = u a_lo + u⁻¹ a_hi, b' = u⁻¹ b_lo + u b_hi
        let new_a = fold_scalars(a_lo, a_hi, u, u_inv);
        let new_b = fold_scalars(b_lo, b_hi, u_inv, u);
        // G' = u⁻¹ G_lo + u G_hi, H' = u w_lo∘H_lo + u⁻¹ w_hi∘H_hi
        let ones = ones_vec(n_half);
        let g_x = scalar_vector_mul_bp(u_inv, ones.as_slice());
        let g_y = scalar_vector_mul_bp(u, ones.as_slice());
        let h_x = scalar_vector_mul_bp(u, w_lo);
        let h_y = scalar_vector_mul_bp(u_inv, w_hi);
        let (new_g, new_h) = join2(
            fold_pair,
            (g_lo, g_hi),
            (g_x.as_slice(), g_y.as_slice()),
            fold_pair,
            (h_lo, h_hi),
            (h_x.as_slice(), h_y.as_slice()),
        );
        let new_w = ones_vec(n_half);
        proof {
            lemma_fold_generators_step(
                sg, sw, points_view(hv@), u@, u_inv@, g_x@, g_y@, h_x@, h_y@, new_g@, new_h@,
                new_w@, g_lo@, g_hi@, h_lo@, h_hi@, w_lo@, w_hi@,
            );
            lemma_prepend_push(
                old_ls,
                old_rs,
                l@,
                r@,
                ipp_prove_spec(
                    scalars_view(new_a@),
                    scalars_view(new_b@),
                    points_view(new_g@),
                    weighted(scalars_view(new_w@), points_view(new_h@)),
                    q@,
                ),
            );
        }
        av = new_a;
        bv = new_b;
        gv = new_g;
        hv = new_h;
        wv = new_w;
        n = n_half;
    }
    proof {
        assert(n == 1);
        assert(l_vec.len() == 6);
    }
    let ghost fin = ipp_prove_spec(
        scalars_view(av@),
        scalars_view(bv@),
        points_view(gv@),
        weighted(scalars_view(wv@), points_view(hv@)),
        q@,
    );
    proof {
        reveal(ipp_prove_spec);
        assert(fin == Some(IppTranscript { ls: Seq::empty(), rs: Seq::empty(), a: av[0]@, b: bv[0]@ }));
        assert(points_view(l_vec@) + Seq::<int>::empty() =~= points_view(l_vec@));
        assert(points_view(r_vec@) + Seq::<int>::empty() =~= points_view(r_vec@));
    }
    let proof = InnerProductProof {
        l_vec: [l_vec[0], l_vec[1], l_vec[2], l_vec[3], l_vec[4], l_vec[5]],
        r_vec: [r_vec[0], r_vec[1], r_vec[2], r_vec[3], r_vec[4], r_vec[5]],
        a: av[0],
        b: bv[0],
    };
    proof {
        assert(points_view(proof.l_vec@) =~= points_view(l_vec@));
        assert(points_view(proof.r_vec@) =~= points_view(r_vec@));
    }
    Some(proof)
}

/// Unit weights leave reduced generators as they are.
proof fn lemma_weighted_ones(w: Seq<int>, h: Seq<int>)
    requires
        w.len() >= h.len(),
        forall|i: int| 0 <= i < w.len() ==> #[trigger] w[i] == 1,
        forall|i: int| 0 <= i < h.len() ==> 0 <= #[trigger] h[i] < group_order(),
    ensures
        weighted(w, h) == h,
{
    assert forall|i: int| 0 <= i < h.len() implies #[trigger] weighted(w, h)[i] == h[i] by {
        assert(w[i] * h[i] == h[i]);
        lemma_fq_small(h[i]);
    }
    assert(weighted(w, h) =~= h);
}

/// A cross term as the prover computes it: `<a_x, G_y> + <b_y∘w_x, H_x> + <a_x, b_y> Q`
/// is `L` (for `left`, with `x` the low half and `y` the high one) or `R`.
proof fn lemma_cross_term(
    sa: Seq<int>,
    sb: Seq<int>,
    sg: Seq<int>,
    sw: Seq<int>,
    hp: Seq<int>,
    q: int,
    c: int,
    a_x: Seq<Scalar>,
    g_y: Seq<G1>,
    bw_x: Seq<Scalar>,
    h_x: Seq<G1>,
    b_y: Seq<Scalar>,
    left: bool,
)
    requires
        sa.len() == sb.len(),
        sg.len() == sa.len(),
        sw.len() == sa.len(),
        hp.len() == sa.len(),
        sa.len() % 2 == 0,
        ({
            let m = sa.len() / 2;
            let (x0, y0) = if left { (0, m) } else { (m, 0) };
            &&& a_x.len() == m
            &&& g_y.len() == m
            &&& bw_x.len() == m
            &&& h_x.len() == m
            &&& b_y.len() == m
            &&& forall|i: int| 0 <= i < m ==> #[trigger] a_x[i]@ == sa[x0 + i]
            &&& forall|i: int| 0 <= i < m ==> #[trigger] g_y[i]@ == sg[y0 + i]
            &&& forall|i: int| 0 <= i < m ==> #[trigger] h_x[i]@ == hp[x0 + i]
            &&& forall|i: int| 0 <= i < m ==> #[trigger] b_y[i]@ == sb[y0 + i]
            &&& forall|i: int| 0 <= i < m ==> #[trigger] bw_x[i]@ == fq(sb[y0 + i] * sw[x0 + i])
            &&& c == fq(fq(fq(dot(scalars_view(a_x), points_view(g_y))) + fq(
                dot(scalars_view(bw_x), points_view(h_x)),
            )) + fq(fq(dot(scalars_view(a_x), scalars_view(b_y))) * q))
        }),
    ensures
        left ==> c == cross_l(sa, sb, sg, weighted(sw, hp), q),
        !left ==> c == cross_r(sa, sb, sg, weighted(sw, hp), q),
{
    let m = (sa.len() / 2) as int;
    let sh = weighted(sw, hp);
    let (xa, ya) = if left { (lo(sa), hi(sa)) } else { (hi(sa), lo(sa)) };
    let yg = if left { hi(sg) } else { lo(sg) };
    let yb = if left { hi(sb) } else { lo(sb) };
    let xh = if left { lo(sh) } else { hi(sh) };
    let x0: int = if left { 0 } else { m };
    let y0: int = if left { m } else { 0 };
    assert(scalars_view(a_x) =~= xa);
    assert(points_view(g_y) =~= yg);
    assert(scalars_view(b_y) =~= yb);
    // <b_y ∘ w_x, H_x> and <b_y, w_x ∘ H_x> agree modulo q
    assert forall|i: int| 0 <= i < m implies #[trigger] fq(scalars_view(bw_x)[i] * points_view(h_x)[i])
        == fq(yb[i] * xh[i]) by {
        lemma_fq_mul_regroup(sb[y0 + i], sw[x0 + i], hp[x0 + i]);
    }
    lemma_sum_prod_cong_terms(scalars_view(bw_x), points_view(h_x), yb, xh, m);
    let d1 = dot(xa, yg);
    let dbw = dot(scalars_view(bw_x), points_view(h_x));
    let d2 = dot(yb, xh);
    let d3 = dot(xa, yb);
    lemma_fq_add(d1, dbw);
    lemma_fq_mul(d3, q);
    lemma_fq_add(d1 + dbw, d3 * q);
    lemma_fq_add_cong(d1, dbw, d1, d2);
    lemma_fq_add_cong(d1 + dbw, d3 * q, d1 + d2, d3 * q);
    if left {
        assert(dot(lo(sa), hi(sb)) == d3);
    } else {
        assert(dot(hi(sa), lo(sb)) == d3);
    }
}

/// One round's folding of the generators, as the prover computes it, is the
/// fold of `G` and of the weighted `H`; the new weights are all one.
proof fn lemma_fold_generators_step(
    sg: Seq<int>,
    sw: Seq<int>,
    hp: Seq<int>,
    u: int,
    v: int,
    g_x: Seq<Scalar>,
    g_y: Seq<Scalar>,
    h_x: Seq<Scalar>,
    h_y: Seq<Scalar>,
    new_g: Seq<G1>,
    new_h: Seq<G1>,
    new_w: Seq<Scalar>,
    g_lo: Seq<G1>,
    g_hi: Seq<G1>,
    h_lo: Seq<G1>,
    h_hi: Seq<G1>,
    w_lo: Seq<Scalar>,
    w_hi: Seq<Scalar>,
)
    requires
        sw.len() == sg.len(),
        hp.len() == sg.len(),
        sg.len() % 2 == 0,
        ({
            let m = sg.len() / 2;
            &&& g_x.len() == m && g_y.len() == m && h_x.len() == m && h_y.len() == m
            &&& g_lo.len() == m && g_hi.len() == m && h_lo.len() == m && h_hi.len() == m
            &&& w_lo.len() == m && w_hi.len() == m
            &&& new_g.len() == m && new_h.len() == m && new_w.len() == m
            &&& points_view(g_lo) == lo(sg) && points_view(g_hi) == hi(sg)
            &&& points_view(h_lo) == lo(hp) && points_view(h_hi) == hi(hp)
            &&& scalars_view(w_lo) == lo(sw) && scalars_view(w_hi) == hi(sw)
            &&& forall|i: int| 0 <= i < m ==> #[trigger] g_x[i]@ == fq(v * 1)
            &&& forall|i: int| 0 <= i < m ==> #[trigger] g_y[i]@ == fq(u * 1)
            &&& forall|i: int| 0 <= i < m ==> #[trigger] h_x[i]@ == fq(u * w_lo[i]@)
            &&& forall|i: int| 0 <= i < m ==> #[trigger] h_y[i]@ == fq(v * w_hi[i]@)
            &&& forall|i: int| 0 <= i < m ==> #[trigger] new_g[i]@ == fq(g_x[i]@ * g_lo[i]@ + g_y[i]@
                * g_hi[i]@)
            &&& forall|i: int| 0 <= i < m ==> #[trigger] new_h[i]@ == fq(h_x[i]@ * h_lo[i]@ + h_y[i]@
                * h_hi[i]@)
            &&& forall|i: int| 0 <= i < m ==> #[trigger] new_w[i]@ == 1
        }),
    ensures
        points_view(new_g) == fold_vec(lo(sg), hi(sg), v, u),
        weighted(scalars_view(new_w), points_view(new_h)) == fold_vec(
            lo(weighted(sw, hp)),
            hi(weighted(sw, hp)),
            u,
            v,
        ),
{
    let m = (sg.len() / 2) as int;
    let sh = weighted(sw, hp);
    assert forall|i: int| 0 <= i < m implies #[trigger] points_view(new_g)[i] == fold_vec(
        lo(sg),
        hi(sg),
        v,
        u,
    )[i] by {
        assert(v * 1 == v && u * 1 == u);
        assert(points_view(g_lo)[i] == g_lo[i]@);
        assert(points_view(g_hi)[i] == g_hi[i]@);
        assert(g_lo[i]@ == sg[i]);
        assert(g_hi[i]@ == sg[m + i]);
        lemma_fq_mul(v, sg[i]);
        lemma_fq_mul(u, sg[m + i]);
        lemma_fq_add_cong(fq(v) * sg[i], fq(u) * sg[m + i], v * sg[i], u * sg[m + i]);
    }
    assert(points_view(new_g) =~= fold_vec(lo(sg), hi(sg), v, u));
    assert forall|i: int| 0 <= i < m implies #[trigger] weighted(
        scalars_view(new_w),
        points_view(new_h),
    )[i] == fold_vec(lo(sh), hi(sh), u, v)[i] by {
        assert(scalars_view(w_lo)[i] == w_lo[i]@);
        assert(scalars_view(w_hi)[i] == w_hi[i]@);
        assert(points_view(h_lo)[i] == h_lo[i]@);
        assert(points_view(h_hi)[i] == h_hi[i]@);
        assert(w_lo[i]@ == sw[i]);
        assert(w_hi[i]@ == sw[m + i]);
        assert(h_lo[i]@ == hp[i]);
        assert(h_hi[i]@ == hp[m + i]);
        lemma_fq_mul_regroup(u, sw[i], hp[i]);
        lemma_fq_mul_regroup(v, sw[m + i], hp[m + i]);
        lemma_fq_add_cong(
            fq(u * sw[i]) * hp[i],
            fq(v * sw[m + i]) * hp[m + i],
            u * fq(sw[i] * hp[i]),
            v * fq(sw[m + i] * hp[m + i]),
        );
        lemma_fq_range(h_x[i]@ * h_lo[i]@ + h_y[i]@ * h_hi[i]@);
        assert(1 * new_h[i]@ == new_h[i]@);
        lemma_fq_small(new_h[i]@);
    }
    assert(weighted(scalars_view(new_w), points_view(new_h)) =~= fold_vec(lo(sh), hi(sh), u, v));
}

/// Prove knowledge of vectors a, b such that P = <a, G> + <b, H>
///
/// This is the argument of `prove_ipp` with unit weights and the identity as
/// `Q`, so `<a, b>` is not bound by it. Returns `None` exactly when some
/// round's challenge is zero and so has no inverse.
pub fn prove_inner_product_bp(g_vec: &[G1], h_vec: &[G1], a: &[Scalar], b: &[Scalar]) -> (res:
    Option<InnerProductProof>)
    requires
        a.len() == 64,
        b.len() == 64,
        g_vec.len() == 64,
        h_vec.len() == 64,
    ensures
        match ipp_prove_spec(
            scalars_view(a@),
            scalars_view(b@),
            points_view(g_vec@),
            points_view(h_vec@),
            0,
        ) {
            None => res is None,
            Some(t) => res matches Some(p) && points_view(p.l_vec@) == t.ls && points_view(p.r_vec@)
                == t.rs && p.a@ == t.a && p.b@ == t.b,
        },
        res matches Some(p) ==> ipp_verify_spec(
            points_view(g_vec@),
            points_view(h_vec@),
            0,
            fq(dot(scalars_view(a@), points_view(g_vec@)) + dot(scalars_view(b@), points_view(h_vec@))),
            points_view(p.l_vec@),
            points_view(p.r_vec@),
            p.a@,
            p.b@,
        ),
{
    let ones = ones_vec(64);
    let id = G1::identity();
    proof {
        lemma_weighted_ones(scalars_view(ones@), points_view(h_vec@));
        assert(dot(scalars_view(a@), scalars_view(b@)) * 0 == 0);
    }
    prove_ipp(g_vec, h_vec, ones.as_slice(), &id, a, b)
}

/// Recomputes a proof's challenges and folds the commitment with its cross
/// terms round by round; `None` where some challenge squares to zero.
fn fold_proof_commitment(commitment: &G1, proof: &InnerProductProof) -> (res: Option<
    (G1, Vec<Scalar>),
>)
    ensures
        ({
            let ls = points_view(proof.l_vec@);
            let rs = points_view(proof.r_vec@);
            let us = ipp_challenges(ls, rs);
            match res {
                None => !(forall|k: int| 0 <= k < us.len() ==> invertible(#[trigger] fq(us[k] * us[k]))),
                Some((p, ch)) => {
                    &&& forall|k: int| 0 <= k < us.len() ==> invertible(#[trigger] fq(us[k] * us[k]))
                    &&& scalars_view(ch@) == us
                    &&& ch.len() == 6
                    &&& forall|k: int| 0 <= k < 6 ==> #[trigger] ch[k]@ != 0
                    &&& p@ == fold_commitment(commitment@, ls, rs, us)
                },
            }
        }),
{
    let ghost ls = points_view(proof.l_vec@);
    let ghost rs = points_view(proof.r_vec@);
    let ghost us = ipp_challenges(ls, rs);

    // Recompute challenges
    let mut challenges: Vec<Scalar> = Vec::new();
    let mut k: usize = 0;
    while k < 6
        invariant
            k <= 6,
            ls == points_view(proof.l_vec@),
            rs == points_view(proof.r_vec@),
            us == ipp_challenges(ls, rs),
            challenges.len() == k,
            forall|j: int| 0 <= j < k ==> #[trigger] challenges[j]@ == us[j],
        decreases 6 - k,
    {
        let u = compute_challenge_ipp(&proof.l_vec[k], &proof.r_vec[k]);
        challenges.push(u);
        k = k + 1;
    }
    proof {
        assert(scalars_view(challenges@) =~= us);
    }

    // Fold the commitment P using L and R
    let mut p = *commitment;
    let mut k: usize = 0;
    proof {
        assert(ls.skip(0) =~= ls);
        assert(rs.skip(0) =~= rs);
        assert(us.skip(0) =~= us);
    }
    while k < 6
        invariant
            k <= 6,
            ls == points_view(proof.l_vec@),
            rs == points_view(proof.r_vec@),
            us == ipp_challenges(ls, rs),
            scalars_view(challenges@) == us,
            fold_commitment(commitment@, ls, rs, us) == fold_commitment(
                p@,
                ls.skip(k as int),
                rs.skip(k as int),
                us.skip(k as int),
            ),
            forall|j: int| 0 <= j < k ==> invertible(#[trigger] fq(us[j] * us[j])),
        decreases 6 - k,
    {
        let u = challenges[k];
        let u_sq = u.mul(&u);
        let u_inv_sq = match u_sq.invert() {
            Some(v) => v,
            None => {
                proof {
                    assert(fq(us[k as int] * us[k as int]) == 0);
                    lemma_zero_not_invertible();
                }
                return None;
            },
        };
        let l = proof.l_vec[k];
        let r = proof.r_vec[k];
        let ghost p_old = p@;
        p = l.mul(&u_sq).add(&p).add(&r.mul(&u_inv_sq));
        proof {
            lemma_invertible_witness(u_sq@, u_inv_sq@);
            lemma_fq_add(u_sq@ * l@, p_old);
            lemma_fq_add(u_sq@ * l@ + p_old, u_inv_sq@ * r@);
            lemma_fq_add(fq(u_sq@ * l@ + p_old), u_inv_sq@ * r@);
            assert(p@ == fq(u_sq@ * ls[k as int] + p_old + inv(u_sq@) * rs[k as int]));
            assert(ls.skip(k as int).drop_first() =~= ls.skip(k + 1));
            assert(rs.skip(k as int).drop_first() =~= rs.skip(k + 1));
            assert(us.skip(k as int).drop_first() =~= us.skip(k + 1));
        }
        k = k + 1;
    }
    proof {
        assert forall|j: int| 0 <= j < 6 implies #[trigger] challenges[j]@ != 0 by {
            assert(us[j] == scalars_view(challenges@)[j]);
            assert(invertible(fq(us[j] * us[j])));
            if challenges[j]@ == 0 {
                assert(challenges@.len() == 6);
                assert(us[j] == 0);
                assert(us[j] * us[j] == 0) by (nonlinear_arith)
                    requires us[j] == 0;
                assert(fq(0) == 0);
                lemma_zero_not_invertible();
            }
        }
        reveal_with_fuel(halved, 7);
        assert(halved(64, 6) == 1);
    }

    proof {
        assert(ls.skip(6) =~= Seq::<int>::empty());
        assert(rs.skip(6) =~= Seq::<int>::empty());
        assert(us.skip(6) =~= Seq::<int>::empty());
    }
    Some((p, challenges))
}

/// Verifies an inner-product proof for the commitment `P` over generators
/// `G`, weighted generators `w_i H_i` and the inner-product generator `Q`:
/// the final check is `P' = a G' + b H' + a b Q`, so an accepted proof binds
/// `Q`'s coefficient in `P` to the inner product. A proof with a round whose
/// challenge squares to zero (so that it has no inverse) is rejected.
pub fn verify_ipp(
    g_vec: &[G1],
    h_vec: &[G1],
    h_weights: &[Scalar],
    q: &G1,
    commitment: &G1,
    proof: &InnerProductProof,
) -> (res: bool)
    requires
        g_vec.len() == 64,
        h_vec.len() == 64,
        h_weights.len() == 64,
    ensures
        res == ipp_verify_spec(
            points_view(g_vec@),
            weighted(scalars_view(h_weights@), points_view(h_vec@)),
            q@,
            commitment@,
            points_view(proof.l_vec@),
            points_view(proof.r_vec@),
            proof.a@,
            proof.b@,
        ),
{
    let (p, challenges) = match fold_proof_commitment(commitment, proof) {
        Some(v) => v,
        None => {
            return false;
        },
    };
    proof {
        reveal_with_fuel(halved, 7);
        assert(halved(64, 6) == 1);
    }
    let ones = ones_vec(64);
    let g_final = fold_generators(g_vec, ones.as_slice(), challenges.as_slice(), false);
    let h_final = fold_generators(h_vec, h_weights, challenges.as_slice(), true);
    proof {
        lemma_weighted_ones(scalars_view(ones@), points_view(g_vec@));
    }

    // Final check: P' = a*G' + b*H' + a*b*Q
    let ab = proof.a.mul(&proof.b);
    let expected = g_final.mul(&proof.a).add(&h_final.mul(&proof.b)).add(&q.mul(&ab));
    proof {
        let (a, b) = (proof.a@, proof.b@);
        lemma_fq_add(a * g_final@, b * h_final@);
        lemma_fq_mul(a * b, q@);
        lemma_fq_add(a * g_final@ + b * h_final@, a * b * q@);
    }
    p.equals(&expected)
}

/// Verify an inner product proof
///
/// Only `n = 64` is supported: this is `verify_ipp` with unit weights and the
/// identity as `Q`, checking `P' = a G' + b H'`. A proof with a round whose
/// challenge squares to zero (so that it has no inverse) is rejected.
pub fn verify_inner_product_bp(
    g_vec: &[G1],
    h_vec: &[G1],
    commitment: &G1,
    proof: &InnerProductProof,
) -> (res: bool)
    requires
        g_vec.len() == 64,
        h_vec.len() == 64,
    ensures
        res == ipp_verify_spec(
            points_view(g_vec@),
            points_view(h_vec@),
            0,
            commitment@,
            points_view(proof.l_vec@),
            points_view(proof.r_vec@),
            proof.a@,
            proof.b@,
        ),
{
    let ones = ones_vec(64);
    let id = G1::identity();
    proof {
        lemma_weighted_ones(scalars_view(ones@), points_view(h_vec@));
    }
    verify_ipp(g_vec, h_vec, ones.as_slice(), &id, commitment, proof)
}

/// Halving `j + 1` times is halving `j` times and once more.
proof fn lemma_halved_step(n: nat, j: nat)
    ensures
        halved(n, j + 1) == halved(n, j) / 2,
    decreases j,
{
    if j > 0 {
        lemma_halved_step(n / 2, (j - 1) as nat);
    } else {
        assert(halved(n, 1) == halved(n / 2, 0));
    }
}

/// The folding coefficients for `n` generators are `n` many.
proof fn lemma_fold_coeffs_len(us: Seq<int>, n: nat, swap: bool)
    ensures
        fold_coeffs(us, n, swap).len() == n,
{
}

/// A folded vector of reduced exponents has a reduced first entry.
proof fn lemma_fold_all_reduced(g: Seq<int>, us: Seq<int>, swap: bool)
    requires
        halved(g.len(), us.len()) == 1,
        forall|i: int| 0 <= i < g.len() ==> 0 <= #[trigger] g[i] < group_order(),
    ensures
        0 <= fold_all(g, us, swap)[0] < group_order(),
    decreases us.len(),
{
    if us.len() > 0 {
        let g2 = fold_once(g, us[0], swap);
        assert forall|i: int| 0 <= i < g2.len() implies 0 <= #[trigger] g2[i] < group_order() by {
            let x = if swap { us[0] } else { inv(us[0]) };
            let y = if swap { inv(us[0]) } else { us[0] };
            lemma_fq_range(x * lo(g)[i] + y * hi(g)[i]);
        }
        lemma_fold_all_reduced(g2, us.drop_first(), swap);
    } else {
        assert(g.len() == 1);
    }
}

/// The coefficients that folding `n` generators under `challenges` amounts to.
fn fold_coefficients(n: usize, challenges: &[Scalar], swap: bool) -> (res: Vec<Scalar>)
    requires
        halved(n as nat, challenges.len() as nat) == 1,
        forall|k: int| 0 <= k < challenges.len() ==> #[trigger] challenges[k]@ != 0,
    ensures
        scalars_view(res@) == fold_coeffs(scalars_view(challenges@), n as nat, swap),
{
    let ghost us = scalars_view(challenges@);
    let k = challenges.len();
    // sizes[j] is the length left after j rounds
    let mut sizes: Vec<usize> = Vec::new();
    let mut cur = n;
    let mut j: usize = 0;
    while j < k
        invariant
            j <= k,
            sizes.len() == j,
            cur == halved(n as nat, j as nat),
            forall|t: int| 0 <= t < j ==> #[trigger] sizes[t] == halved(n as nat, t as nat),
        decreases k + 1 - j,
    {
        sizes.push(cur);
        proof {
            lemma_halved_step(n as nat, j as nat);
        }
        cur = cur / 2;
        j = j + 1;
    }
    sizes.push(cur);

    let mut c: Vec<Scalar> = Vec::new();
    c.push(Scalar::one());
    proof {
        assert(us.skip(k as int) =~= Seq::<int>::empty());
        assert(scalars_view(c@) =~= fold_coeffs(us.skip(k as int), halved(n as nat, k as nat), swap));
    }
    let mut j: usize = k;
    while j > 0
        invariant
            j <= k == challenges.len(),
            us == scalars_view(challenges@),
            sizes.len() == k + 1,
            forall|t: int| 0 <= t <= k ==> #[trigger] sizes[t] == halved(n as nat, t as nat),
            forall|t: int| 0 <= t < k ==> #[trigger] challenges[t]@ != 0,
            scalars_view(c@) == fold_coeffs(us.skip(j as int), halved(n as nat, j as nat), swap),
        decreases j,
    {
        let jj = j - 1;
        let u = challenges[jj];
        let u_inv = u.invert().unwrap();
        proof {
            lemma_inv_unique(u@, u_inv@);
            lemma_halved_step(n as nat, jj as nat);
            assert(us.skip(jj as int).drop_first() =~= us.skip(j as int));
            assert(us.skip(jj as int)[0] == us[jj as int]);
        }
        let (x, y) = if swap {
            (u, u_inv)
        } else {
            (u_inv, u)
        };
        let m = sizes[j];
        let nj = sizes[jj];
        proof {
            lemma_fold_coeffs_len(us.skip(j as int), halved(n as nat, j as nat), swap);
            assert(scalars_view(c@).len() == c.len());
        }
        let ghost cv = scalars_view(c@);
        let ghost target = fold_coeffs(us.skip(jj as int), halved(n as nat, jj as nat), swap);
        let mut next: Vec<Scalar> = Vec::new();
        let mut i: usize = 0;
        while i < nj
            invariant
                i <= nj,
                nj / 2 == m,
                c.len() == m,
                cv == scalars_view(c@),
                nj == halved(n as nat, jj as nat),
                next.len() == i,
                target.len() == nj,
                forall|t: int|
                    0 <= t < nj ==> #[trigger] target[t] == (if t < m {
                        fq(x@ * cv[t])
                    } else if t < 2 * m {
                        fq(y@ * cv[t - m])
                    } else {
                        0int
                    }),
                forall|t: int| 0 <= t < i ==> #[trigger] next[t]@ == target[t],
            decreases nj - i,
        {
            if i < m {
                next.push(x.mul(&c[i]));
            } else if i < 2 * m {
                next.push(y.mul(&c[i - m]));
            } else {
                next.push(Scalar::zero());
            }
            i = i + 1;
        }
        proof {
            assert(scalars_view(next@) =~= target);
        }
        c = next;
        j = jj;
    }
    proof {
        assert(us.skip(0) =~= us);
    }
    c
}

/// The weighted generators `w_i P_i` folded under the challenges, G-style or
/// (`swap`) H-style, computed as one multi-scalar multiplication with the
/// folding coefficients times the weights.
fn fold_generators(generators: &[G1], weights: &[Scalar], challenges: &[Scalar], swap: bool) -> (res:
    G1)
    requires
        weights.len() == generators.len(),
        halved(generators.len() as nat, challenges.len() as nat) == 1,
        forall|k: int| 0 <= k < challenges.len() ==> #[trigger] challenges[k]@ != 0,
    ensures
        res@ == fold_all(
            weighted(scalars_view(weights@), points_view(generators@)),
            scalars_view(challenges@),
            swap,
        )[0],
{
    let coeffs = fold_coefficients(generators.len(), challenges, swap);
    proof {
        lemma_fold_coeffs_len(scalars_view(challenges@), generators.len() as nat, swap);
        assert(scalars_view(coeffs@).len() == coeffs.len());
    }
    let cw = hadamard_product(coeffs.as_slice(), weights);
    proof {
        let n = generators.len() as int;
        let hp = points_view(generators@);
        let g = weighted(scalars_view(weights@), hp);
        let us = scalars_view(challenges@);
        let c = scalars_view(coeffs@);
        lemma_fold_coeffs(g, us, swap);
        assert forall|i: int| 0 <= i < n implies 0 <= #[trigger] g[i] < group_order() by {
            lemma_fq_range(weights[i]@ * hp[i]);
        }
        lemma_fold_all_reduced(g, us, swap);
        lemma_fq_small(fold_all(g, us, swap)[0]);
        assert forall|i: int| 0 <= i < n implies #[trigger] fq(scalars_view(cw@)[i] * hp[i]) == fq(
            c[i] * g[i],
        ) by {
            lemma_fq_mul_regroup(c[i], weights[i]@, hp[i]);
        }
        lemma_sum_prod_cong_terms(scalars_view(cw@), hp, c, g, n);
    }
    crate::multiexp::multiexp(cw.as_slice(), generators)
}

/// Fold G generators: G' = G_lo * u^(-1) + G_hi * u
///
/// The folded generator is computed as a single multi-scalar multiplication
/// with the folding coefficients.
pub fn fold_generators_g_bp(generators: &[G1], challenges: &[Scalar]) -> (res: G1)
    requires
        halved(generators.len() as nat, challenges.len() as nat) == 1,
        forall|k: int| 0 <= k < challenges.len() ==> #[trigger] challenges[k]@ != 0,
    ensures
        res@ == fold_g_all(points_view(generators@), scalars_view(challenges@))[0],
{
    let ones = ones_vec(generators.len());
    proof {
        lemma_weighted_ones(scalars_view(ones@), points_view(generators@));
    }
    fold_generators(generators, ones.as_slice(), challenges, false)
}

/// Fold H generators: H' = H_lo * u + H_hi * u^(-1)
///
/// The folded generator is computed as a single multi-scalar multiplication
/// with the folding coefficients.
pub fn fold_generators_h_bp(generators: &[G1], challenges: &[Scalar]) -> (res: G1)
    requires
        halved(generators.len() as nat, challenges.len() as nat) == 1,
        forall|k: int| 0 <= k < challenges.len() ==> #[trigger] challenges[k]@ != 0,
    ensures
        res@ == fold_h_all(points_view(generators@), scalars_view(challenges@))[0],
{
    let ones = ones_vec(generators.len());
    proof {
        lemma_weighted_ones(scalars_view(ones@), points_view(generators@));
    }
    fold_generators(generators, ones.as_slice(), challenges, true)
}

/// Each challenge replaced by its inverse.
pub open spec fn inverted(us: Seq<int>) -> Seq<int> {
    Seq::new(us.len(), |k: int| inv(us[k]))
}

/// H folds exactly like G with each challenge inverted: `u H_lo + u⁻¹ H_hi`
/// is `G`'s fold `v⁻¹ H_lo + v H_hi` under `v = u⁻¹`.
pub proof fn lemma_fold_h_is_g_inverted(h: Seq<int>, us: Seq<int>)
    requires
        forall|k: int| 0 <= k < us.len() ==> 0 <= #[trigger] us[k] < group_order(),
        forall|k: int| 0 <= k < us.len() ==> invertible(#[trigger] us[k]),
    ensures
        fold_h_all(h, us) == fold_g_all(h, inverted(us)),
    decreases us.len(),
{
    if us.len() > 0 {
        let u = us[0];
        assert(invertible(us[0]) && 0 <= us[0] < group_order());
        lemma_inv_of_invertible(u);
        assert(inv(u) * u == u * inv(u)) by (nonlinear_arith);
        lemma_inv_unique(inv(u), u);
        assert(inverted(us)[0] == inv(u));
        assert(fold_once(h, u, true) == fold_once(h, inv(u), false));
        assert(inverted(us).drop_first() =~= inverted(us.drop_first()));
        lemma_fold_h_is_g_inverted(fold_once(h, u, true), us.drop_first());
    }
}

} // verus!
