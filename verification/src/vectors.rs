//! Vector arithmetic over the scalar field, and multi-exponentiation in G1.
use vstd::prelude::*;

use crate::modular::{fq, lemma_fq_add, lemma_fq_add_cong, lemma_fq_mul, lemma_fq_mul_cong, lemma_fq_small};
use crate::point::{lemma_g1_reduced, G1};
use crate::scalar::{group_order, lemma_scalar_facts, Scalar};
use vstd::arithmetic::power::pow;

verus! {

/// The field elements of a sequence of scalars.
pub open spec fn scalars_view(s: Seq<Scalar>) -> Seq<int> {
    Seq::new(s.len(), |i: int| s[i]@)
}

/// The exponents of a sequence of G1 elements.
pub open spec fn points_view(p: Seq<G1>) -> Seq<int> {
    Seq::new(p.len(), |i: int| p[i]@)
}

/// `sum_{i < n} a[i] * b[i]` over the integers.
pub open spec fn sum_prod(a: Seq<int>, b: Seq<int>, n: int) -> int
    decreases n,
{
    if n <= 0 {
        0
    } else {
        sum_prod(a, b, n - 1) + a[n - 1] * b[n - 1]
    }
}

/// The inner product `<a, b>` over the integers.
pub open spec fn dot(a: Seq<int>, b: Seq<int>) -> int {
    sum_prod(a, b, a.len() as int)
}

/// Compute inner product: <a, b> = sum(aᵢ * bᵢ)
pub fn inner_product(a: &[Scalar], b: &[Scalar]) -> (res: Scalar)
    requires
        a.len() == b.len(),
    ensures
        res@ == fq(dot(scalars_view(a@), scalars_view(b@))),
{
    let mut acc = Scalar::zero();
    let mut i: usize = 0;
    while i < a.len()
        invariant
            i <= a.len(),
            a.len() == b.len(),
            acc@ == fq(sum_prod(scalars_view(a@), scalars_view(b@), i as int)),
        decreases a.len() - i,
    {
        let p = a[i].mul(&b[i]);
        proof {
            lemma_fq_add(sum_prod(scalars_view(a@), scalars_view(b@), i as int), a[i as int]@ * b[i as int]@);
        }
        acc = acc.add(&p);
        i = i + 1;
    }
    acc
}

/// Hadamard (element-wise) product: [a₀*b₀, a₁*b₁, ...]
pub fn hadamard_product(a: &[Scalar], b: &[Scalar]) -> (res: Vec<Scalar>)
    requires
        a.len() == b.len(),
    ensures
        res.len() == a.len(),
        forall|i: int| 0 <= i < a.len() ==> #[trigger] res[i]@ == fq(a[i]@ * b[i]@),
{
    let mut res: Vec<Scalar> = Vec::new();
    let mut i: usize = 0;
    while i < a.len()
        invariant
            i <= a.len(),
            a.len() == b.len(),
            res.len() == i,
            forall|j: int| 0 <= j < i ==> #[trigger] res[j]@ == fq(a[j]@ * b[j]@),
        decreases a.len() - i,
    {
        res.push(a[i].mul(&b[i]));
        i = i + 1;
    }
    res
}

/// `n` copies of one.
pub(crate) fn ones_vec(n: usize) -> (res: Vec<Scalar>)
    ensures
        res.len() == n,
        forall|i: int| 0 <= i < n ==> #[trigger] res[i]@ == 1,
{
    let mut res: Vec<Scalar> = Vec::new();
    let mut i: usize = 0;
    while i < n
        invariant
            i <= n,
            res.len() == i,
            forall|j: int| 0 <= j < i ==> #[trigger] res[j]@ == 1,
        decreases n - i,
    {
        res.push(Scalar::one());
        i = i + 1;
    }
    res
}

/// Vector addition: [a₀+b₀, a₁+b₁, ...]
pub fn vector_add_bp(a: &[Scalar], b: &[Scalar]) -> (res: Vec<Scalar>)
    requires
        a.len() == b.len(),
    ensures
        res.len() == a.len(),
        forall|i: int| 0 <= i < a.len() ==> #[trigger] res[i]@ == fq(a[i]@ + b[i]@),
{
    let mut res: Vec<Scalar> = Vec::new();
    let mut i: usize = 0;
    while i < a.len()
        invariant
            i <= a.len(),
            a.len() == b.len(),
            res.len() == i,
            forall|j: int| 0 <= j < i ==> #[trigger] res[j]@ == fq(a[j]@ + b[j]@),
        decreases a.len() - i,
    {
        res.push(a[i].add(&b[i]));
        i = i + 1;
    }
    res
}

/// Vector subtraction: [a₀-b₀, a₁-b₁, ...]
pub fn vector_sub_bp(a: &[Scalar], b: &[Scalar]) -> (res: Vec<Scalar>)
    requires
        a.len() == b.len(),
    ensures
        res.len() == a.len(),
        forall|i: int| 0 <= i < a.len() ==> #[trigger] res[i]@ == fq(a[i]@ - b[i]@),
{
    let mut res: Vec<Scalar> = Vec::new();
    let mut i: usize = 0;
    while i < a.len()
        invariant
            i <= a.len(),
            a.len() == b.len(),
            res.len() == i,
            forall|j: int| 0 <= j < i ==> #[trigger] res[j]@ == fq(a[j]@ - b[j]@),
        decreases a.len() - i,
    {
        res.push(a[i].sub(&b[i]));
        i = i + 1;
    }
    res
}

/// Scalar-vector multiplication: [s*v₀, s*v₁, ...]
pub fn scalar_vector_mul_bp(scalar: Scalar, vec: &[Scalar]) -> (res: Vec<Scalar>)
    ensures
        res.len() == vec.len(),
        forall|i: int| 0 <= i < vec.len() ==> #[trigger] res[i]@ == fq(scalar@ * vec[i]@),
{
    let mut res: Vec<Scalar> = Vec::new();
    let mut i: usize = 0;
    while i < vec.len()
        invariant
            i <= vec.len(),
            res.len() == i,
            forall|j: int| 0 <= j < i ==> #[trigger] res[j]@ == fq(scalar@ * vec[j]@),
        decreases vec.len() - i,
    {
        res.push(scalar.mul(&vec[i]));
        i = i + 1;
    }
    res
}

/// Generate powers of x: [1, x, x², x³, ..., x^(n-1)]; only `n = 64` is supported.
pub fn powers_of_bp(x: Scalar, n: usize) -> (res: [Scalar; 64])
    requires
        n == 64,
    ensures
        forall|i: int| 0 <= i < 64 ==> #[trigger] res[i]@ == fq(pow(x@, i as nat)),
{
    let mut powers = [Scalar::zero(); 64];
    let mut current = Scalar::one();
    let mut i: usize = 0;
    proof {
        vstd::arithmetic::power::lemma_pow0(x@);
        lemma_fq_small(1);
    }
    while i < 64
        invariant
            i <= 64,
            current@ == fq(pow(x@, i as nat)),
            forall|j: int| 0 <= j < i ==> #[trigger] powers[j]@ == fq(pow(x@, j as nat)),
        decreases 64 - i,
    {
        powers[i] = current;
        proof {
            lemma_fq_mul(pow(x@, i as nat), x@);
            vstd::arithmetic::power::lemma_pow_adds(x@, i as nat, 1);
            vstd::arithmetic::power::lemma_pow1(x@);
            assert(pow(x@, i as nat) * x@ == pow(x@, (i + 1) as nat)) by (nonlinear_arith)
                requires pow(x@, i as nat) * pow(x@, 1) == pow(x@, (i + 1) as nat), pow(x@, 1) == x@;
        }
        current = current.mul(&x);
        i = i + 1;
    }
    powers
}

/// Multi-exponentiation: sum(sᵢ * Pᵢ)
pub fn vector_commit_bp(scalars: &[Scalar], points: &[G1]) -> (res: G1)
    requires
        scalars.len() == points.len(),
    ensures
        res@ == fq(dot(scalars_view(scalars@), points_view(points@))),
{
    crate::multiexp::multiexp(scalars, points)
}

/// Congruent products entry by entry give congruent inner products.
pub proof fn lemma_sum_prod_cong_terms(a: Seq<int>, b: Seq<int>, c: Seq<int>, d: Seq<int>, n: int)
    requires
        forall|i: int| 0 <= i < n ==> #[trigger] fq(a[i] * b[i]) == fq(c[i] * d[i]),
    ensures
        fq(sum_prod(a, b, n)) == fq(sum_prod(c, d, n)),
    decreases n,
{
    if n > 0 {
        lemma_sum_prod_cong_terms(a, b, c, d, n - 1);
        assert(fq(a[n - 1] * b[n - 1]) == fq(c[n - 1] * d[n - 1]));
        lemma_fq_add_cong(
            sum_prod(a, b, n - 1),
            a[n - 1] * b[n - 1],
            sum_prod(c, d, n - 1),
            c[n - 1] * d[n - 1],
        );
    }
}

/// Reducing either factor of a product of three does not change it modulo `q`:
/// `(b w) h = b (w h)`.
pub proof fn lemma_fq_mul_regroup(b: int, w: int, h: int)
    ensures
        fq(fq(b * w) * h) == fq(b * fq(w * h)),
{
    lemma_fq_mul(b * w, h);
    lemma_fq_mul(b, w * h);
    assert((b * w) * h == b * (w * h)) by (nonlinear_arith);
}

/// The sum of the first `n` entries of `s`.
pub open spec fn sum_upto(s: Seq<int>, n: int) -> int
    decreases n,
{
    if n <= 0 {
        0
    } else {
        sum_upto(s, n - 1) + s[n - 1]
    }
}

/// The sum of the entries of `s`.
pub open spec fn seq_sum(s: Seq<int>) -> int {
    sum_upto(s, s.len() as int)
}

/// Pointwise congruent vectors have congruent inner products.
pub proof fn lemma_sum_prod_cong(a: Seq<int>, b: Seq<int>, a2: Seq<int>, b2: Seq<int>, n: int)
    requires
        forall|i: int| 0 <= i < n ==> #[trigger] fq(a[i]) == fq(a2[i]),
        forall|i: int| 0 <= i < n ==> #[trigger] fq(b[i]) == fq(b2[i]),
    ensures
        fq(sum_prod(a, b, n)) == fq(sum_prod(a2, b2, n)),
    decreases n,
{
    if n > 0 {
        lemma_sum_prod_cong(a, b, a2, b2, n - 1);
        assert(fq(a[n - 1]) == fq(a2[n - 1]));
        assert(fq(b[n - 1]) == fq(b2[n - 1]));
        lemma_fq_mul_cong(a[n - 1], b[n - 1], a2[n - 1], b2[n - 1]);
        lemma_fq_add_cong(
            sum_prod(a, b, n - 1),
            a[n - 1] * b[n - 1],
            sum_prod(a2, b2, n - 1),
            a2[n - 1] * b2[n - 1],
        );
    }
}

/// Pointwise congruent vectors have congruent sums.
pub proof fn lemma_sum_upto_cong(a: Seq<int>, a2: Seq<int>, n: int)
    requires
        forall|i: int| 0 <= i < n ==> #[trigger] fq(a[i]) == fq(a2[i]),
    ensures
        fq(sum_upto(a, n)) == fq(sum_upto(a2, n)),
    decreases n,
{
    if n > 0 {
        lemma_sum_upto_cong(a, a2, n - 1);
        assert(fq(a[n - 1]) == fq(a2[n - 1]));
        lemma_fq_add_cong(sum_upto(a, n - 1), a[n - 1], sum_upto(a2, n - 1), a2[n - 1]);
    }
}

/// The sum of a vector of scalars, as `Iterator::sum` adds them from zero.
pub fn sum_scalars(v: &[Scalar]) -> (res: Scalar)
    ensures
        res@ == fq(seq_sum(scalars_view(v@))),
{
    let mut acc = Scalar::zero();
    let mut i: usize = 0;
    while i < v.len()
        invariant
            i <= v.len(),
            acc@ == fq(sum_upto(scalars_view(v@), i as int)),
        decreases v.len() - i,
    {
        proof {
            lemma_fq_add(sum_upto(scalars_view(v@), i as int), v[i as int]@);
        }
        acc = acc.add(&v[i]);
        i = i + 1;
    }
    acc
}

/// `sum_prod` reads only the first `n` entries.
pub proof fn lemma_sum_prod_prefix(a: Seq<int>, b: Seq<int>, a2: Seq<int>, b2: Seq<int>, n: int)
    requires
        forall|i: int| 0 <= i < n ==> #[trigger] a[i] == a2[i],
        forall|i: int| 0 <= i < n ==> #[trigger] b[i] == b2[i],
    ensures
        sum_prod(a, b, n) == sum_prod(a2, b2, n),
    decreases n,
{
    if n > 0 {
        lemma_sum_prod_prefix(a, b, a2, b2, n - 1);
        assert(a[n - 1] == a2[n - 1]);
        assert(b[n - 1] == b2[n - 1]);
    }
}

/// Splitting an inner product at `m`.
pub proof fn lemma_sum_prod_split(a: Seq<int>, b: Seq<int>, m: int, k: int)
    requires
        0 <= m,
        0 <= k,
        m + k <= a.len(),
        m + k <= b.len(),
    ensures
        sum_prod(a, b, m + k) == sum_prod(a, b, m) + sum_prod(a.skip(m), b.skip(m), k),
    decreases k,
{
    if k > 0 {
        lemma_sum_prod_split(a, b, m, k - 1);
        assert(a.skip(m)[k - 1] == a[m + k - 1]);
        assert(b.skip(m)[k - 1] == b[m + k - 1]);
    }
}

/// Scaling the left vector scales the inner product.
pub proof fn lemma_sum_prod_scale(a: Seq<int>, a2: Seq<int>, b: Seq<int>, x: int, n: int)
    requires
        forall|i: int| 0 <= i < n ==> #[trigger] a2[i] == x * a[i],
    ensures
        sum_prod(a2, b, n) == x * sum_prod(a, b, n),
    decreases n,
{
    if n > 0 {
        lemma_sum_prod_scale(a, a2, b, x, n - 1);
        let i = n - 1;
        assert(a2[i] * b[i] == x * (a[i] * b[i])) by (nonlinear_arith)
            requires
                a2[i] == x * a[i],
        ;
        assert(x * sum_prod(a, b, n - 1) + x * (a[i] * b[i]) == x * (sum_prod(a, b, n - 1) + a[i]
            * b[i])) by (nonlinear_arith);
    }
}

/// The inner product is linear in its right vector.
pub proof fn lemma_sum_prod_linear_right(
    a: Seq<int>,
    b: Seq<int>,
    b1: Seq<int>,
    b2: Seq<int>,
    x: int,
    y: int,
    n: int,
)
    requires
        forall|i: int| 0 <= i < n ==> #[trigger] b[i] == x * b1[i] + y * b2[i],
    ensures
        sum_prod(a, b, n) == x * sum_prod(a, b1, n) + y * sum_prod(a, b2, n),
    decreases n,
{
    if n > 0 {
        lemma_sum_prod_linear_right(a, b, b1, b2, x, y, n - 1);
        let i = n - 1;
        assert(a[i] * b[i] == x * (a[i] * b1[i]) + y * (a[i] * b2[i])) by (nonlinear_arith)
            requires
                b[i] == x * b1[i] + y * b2[i],
        ;
        assert(x * sum_prod(a, b1, n - 1) + x * (a[i] * b1[i]) == x * (sum_prod(a, b1, n - 1) + a[i]
            * b1[i])) by (nonlinear_arith);
        assert(y * sum_prod(a, b2, n - 1) + y * (a[i] * b2[i]) == y * (sum_prod(a, b2, n - 1) + a[i]
            * b2[i])) by (nonlinear_arith);
    }
}

/// The product of two linear combinations, expanded.
proof fn lemma_bilinear_entry(x1: int, p: int, y1: int, q: int, x2: int, r: int, y2: int, s: int)
    ensures
        (x1 * p + y1 * q) * (x2 * r + y2 * s) == x1 * x2 * (p * r) + x1 * y2 * (p * s) + y1 * x2 * (q
            * r) + y1 * y2 * (q * s),
{
    let b = x2 * r + y2 * s;
    assert((x1 * p + y1 * q) * b == (x1 * p) * b + (y1 * q) * b) by (nonlinear_arith);
    assert((x1 * p) * b == (x1 * p) * (x2 * r) + (x1 * p) * (y2 * s)) by (nonlinear_arith)
        requires
            b == x2 * r + y2 * s,
    ;
    assert((y1 * q) * b == (y1 * q) * (x2 * r) + (y1 * q) * (y2 * s)) by (nonlinear_arith)
        requires
            b == x2 * r + y2 * s,
    ;
    assert((x1 * p) * (x2 * r) == x1 * x2 * (p * r)) by (nonlinear_arith);
    assert((x1 * p) * (y2 * s) == x1 * y2 * (p * s)) by (nonlinear_arith);
    assert((y1 * q) * (x2 * r) == y1 * x2 * (q * r)) by (nonlinear_arith);
    assert((y1 * q) * (y2 * s) == y1 * y2 * (q * s)) by (nonlinear_arith);
}

/// The inner product of two linear combinations, expanded.
pub proof fn lemma_sum_prod_bilinear(
    a: Seq<int>,
    b: Seq<int>,
    al: Seq<int>,
    ah: Seq<int>,
    bl: Seq<int>,
    bh: Seq<int>,
    x1: int,
    y1: int,
    x2: int,
    y2: int,
    n: int,
)
    requires
        forall|i: int| 0 <= i < n ==> #[trigger] a[i] == x1 * al[i] + y1 * ah[i],
        forall|i: int| 0 <= i < n ==> #[trigger] b[i] == x2 * bl[i] + y2 * bh[i],
    ensures
        sum_prod(a, b, n) == x1 * x2 * sum_prod(al, bl, n) + x1 * y2 * sum_prod(al, bh, n) + y1
            * x2 * sum_prod(ah, bl, n) + y1 * y2 * sum_prod(ah, bh, n),
    decreases n,
{
    if n > 0 {
        lemma_sum_prod_bilinear(a, b, al, ah, bl, bh, x1, y1, x2, y2, n - 1);
        let i = n - 1;
        let (p, q, r, s) = (al[i], ah[i], bl[i], bh[i]);
        lemma_bilinear_entry(x1, p, y1, q, x2, r, y2, s);
        let (s1, s2, s3, s4) = (
            sum_prod(al, bl, n - 1),
            sum_prod(al, bh, n - 1),
            sum_prod(ah, bl, n - 1),
            sum_prod(ah, bh, n - 1),
        );
        assert(x1 * x2 * (s1 + p * r) == x1 * x2 * s1 + x1 * x2 * (p * r)) by (nonlinear_arith);
        assert(x1 * y2 * (s2 + p * s) == x1 * y2 * s2 + x1 * y2 * (p * s)) by (nonlinear_arith);
        assert(y1 * x2 * (s3 + q * r) == y1 * x2 * s3 + y1 * x2 * (q * r)) by (nonlinear_arith);
        assert(y1 * y2 * (s4 + q * s) == y1 * y2 * s4 + y1 * y2 * (q * s)) by (nonlinear_arith);
    }
}

} // verus!
