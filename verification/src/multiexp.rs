//! Multi-scalar multiplication `sum_i s_i * P_i` in G1, by fixed 4-bit windows
//! (Straus' method) over the group law.
use vstd::prelude::*;

use crate::modular::{fq, lemma_fq_add, lemma_fq_mul, lemma_fq_range, lemma_fq_small};
use crate::point::{lemma_g1_reduced, G1};
use crate::scalar::{le_nat, Scalar};
use crate::parallel::join2;
use crate::vectors::{
    dot, lemma_sum_prod_prefix, lemma_sum_prod_split, points_view, scalars_view, sum_prod,
};
use vstd::arithmetic::power::pow;

verus! {

broadcast use {crate::scalar::lemma_scalar_facts, lemma_g1_reduced};

/// The 4-bit digit `k` (`k < 64`) of a 32-byte little-endian string.
pub open spec fn nibble(bytes: Seq<u8>, k: int) -> int {
    if k % 2 == 0 {
        bytes[k / 2] as int % 16
    } else {
        bytes[k / 2] as int / 16
    }
}

/// The integer that the digits `k..64` of `bytes` encode, little-endian.
pub open spec fn nibbles_value(bytes: Seq<u8>, k: int) -> int
    decreases 64 - k,
{
    if k >= 64 {
        0
    } else {
        nibble(bytes, k) + 16 * nibbles_value(bytes, k + 1)
    }
}

/// The 4-bit digits of a 32-byte string encode the same integer as its bytes.
pub proof fn lemma_nibbles_value(bytes: Seq<u8>, j: int)
    requires
        bytes.len() == 32,
        0 <= j <= 32,
    ensures
        nibbles_value(bytes, 2 * j) == le_nat(bytes.skip(j)),
    decreases 32 - j,
{
    if j < 32 {
        lemma_nibbles_value(bytes, j + 1);
        let b = bytes[j] as int;
        assert(bytes.skip(j).drop_first() =~= bytes.skip(j + 1));
        assert(bytes.skip(j)[0] == bytes[j]);
        assert(b % 16 + 16 * (b / 16) == b);
        assert((2 * j + 1) / 2 == j);
        assert((2 * j) / 2 == j);
        assert((2 * j + 1) % 2 == 1);
        assert((2 * j) % 2 == 0);
        assert(nibble(bytes, 2 * j) == b % 16);
        assert(nibble(bytes, 2 * j + 1) == b / 16);
        assert(nibbles_value(bytes, 2 * j + 1) == b / 16 + 16 * nibbles_value(bytes, 2 * j + 2));
        assert(nibbles_value(bytes, 2 * j) == b % 16 + 16 * nibbles_value(bytes, 2 * j + 1));
        assert(nibbles_value(bytes, 2 * j) == b % 16 + 16 * (b / 16 + 16 * nibbles_value(
            bytes,
            2 * j + 2,
        )));
    } else {
        assert(bytes.skip(32) =~= Seq::<u8>::empty());
    }
}

/// The digit of a byte string, computed from the byte.
pub fn nibble_of(bytes: &[u8; 32], k: usize) -> (res: usize)
    requires
        k < 64,
    ensures
        res == nibble(bytes@, k as int),
        res < 16,
{
    let b: u8 = bytes[k / 2];
    if k % 2 == 0 {
        let d: u8 = b & 15;
        assert(d == b % 16) by (bit_vector)
            requires
                d == b & 15,
        ;
        d as usize
    } else {
        let d: u8 = b >> 4;
        assert(d == b / 16) by (bit_vector)
            requires
                d == b >> 4,
        ;
        d as usize
    }
}

/// The multiples `[0 * p, 1 * p, ..., 15 * p]`.
pub fn multiples_table(p: &G1) -> (res: Vec<G1>)
    ensures
        res.len() == 16,
        forall|d: int| 0 <= d < 16 ==> #[trigger] res[d]@ == fq(d * p@),
{
    let mut res: Vec<G1> = Vec::new();
    let mut cur = G1::identity();
    let mut d: usize = 0;
    proof {
        lemma_fq_small(0);
    }
    while d < 16
        invariant
            d <= 16,
            res.len() == d,
            cur@ == fq(d * p@),
            forall|e: int| 0 <= e < d ==> #[trigger] res[e]@ == fq(e * p@),
        decreases 16 - d,
    {
        res.push(cur);
        proof {
            lemma_fq_add(d * p@, p@);
            assert(d * p@ + p@ == (d + 1) * p@) by (nonlinear_arith);
        }
        cur = cur.add(p);
        d = d + 1;
    }
    res
}

/// `sum_i (b_i + m c_i) p_i = sum_i b_i p_i + m sum_i c_i p_i`.
proof fn lemma_sum_prod_combine(a: Seq<int>, b: Seq<int>, c: Seq<int>, p: Seq<int>, m: int, n: int)
    requires
        forall|i: int| 0 <= i < n ==> #[trigger] a[i] == b[i] + m * c[i],
    ensures
        sum_prod(a, p, n) == sum_prod(b, p, n) + m * sum_prod(c, p, n),
    decreases n,
{
    if n > 0 {
        lemma_sum_prod_combine(a, b, c, p, m, n - 1);
        let i = n - 1;
        assert(a[i] * p[i] == b[i] * p[i] + m * (c[i] * p[i])) by (nonlinear_arith)
            requires
                a[i] == b[i] + m * c[i],
        ;
        assert(m * sum_prod(c, p, n - 1) + m * (c[i] * p[i]) == m * (sum_prod(c, p, n - 1) + c[i]
            * p[i])) by (nonlinear_arith);
    }
}

/// The values of the digits `k..64` of each scalar encoding.
pub open spec fn values_from(encodings: Seq<[u8; 32]>, k: int) -> Seq<int> {
    Seq::new(encodings.len(), |i: int| nibbles_value(encodings[i]@, k))
}

/// Digit `k` of each scalar encoding.
pub open spec fn digits_at(encodings: Seq<[u8; 32]>, k: int) -> Seq<int> {
    Seq::new(encodings.len(), |i: int| nibble(encodings[i]@, k))
}

/// Multi-scalar multiplication `sum_i scalars[i] * points[i]` on one thread.
fn straus(scalars: &[Scalar], points: &[G1]) -> (res: G1)
    requires
        scalars.len() == points.len(),
    ensures
        res@ == fq(dot(scalars_view(scalars@), points_view(points@))),
{
    let n = scalars.len();
    let ghost pv = points_view(points@);
    let mut tables: Vec<Vec<G1>> = Vec::new();
    let mut encodings: Vec<[u8; 32]> = Vec::new();
    let mut i: usize = 0;
    while i < n
        invariant
            i <= n == scalars.len() == points.len(),
            tables.len() == i,
            encodings.len() == i,
            forall|j: int| 0 <= j < i ==> (#[trigger] tables[j]).len() == 16,
            forall|j: int, d: int|
                0 <= j < i && 0 <= d < 16 ==> #[trigger] tables[j][d]@ == fq(d * points[j]@),
            forall|j: int| 0 <= j < i ==> le_nat((#[trigger] encodings[j])@) == scalars[j]@,
            forall|j: int| 0 <= j < i ==> (#[trigger] encodings[j])@.len() == 32,
        decreases n - i,
    {
        tables.push(multiples_table(&points[i]));
        encodings.push(scalars[i].to_bytes());
        i = i + 1;
    }

    let mut acc = G1::identity();
    let mut k: usize = 64;
    proof {
        lemma_fq_small(0);
        assert(values_from(encodings@, 64) =~= Seq::new(n as nat, |j: int| 0int));
        lemma_sum_prod_zero(values_from(encodings@, 64), pv, n as int);
    }
    while k > 0
        invariant
            k <= 64,
            n == scalars.len() == points.len(),
            pv == points_view(points@),
            tables.len() == n,
            encodings.len() == n,
            forall|j: int| 0 <= j < n ==> (#[trigger] tables[j]).len() == 16,
            forall|j: int, d: int|
                0 <= j < n && 0 <= d < 16 ==> #[trigger] tables[j][d]@ == fq(d * points[j]@),
            forall|j: int| 0 <= j < n ==> le_nat((#[trigger] encodings[j])@) == scalars[j]@,
            forall|j: int| 0 <= j < n ==> (#[trigger] encodings[j])@.len() == 32,
            acc@ == fq(sum_prod(values_from(encodings@, k as int), pv, n as int)),
        decreases k,
    {
        k = k - 1;
        let ghost prev = sum_prod(values_from(encodings@, k + 1), pv, n as int);
        acc = acc.double();
        acc = acc.double();
        acc = acc.double();
        acc = acc.double();
        proof {
            lemma_fq_mul(2, prev);
            lemma_fq_mul(2, 2 * prev);
            lemma_fq_mul(2, 4 * prev);
            lemma_fq_mul(2, 8 * prev);
        }
        let mut j: usize = 0;
        while j < n
            invariant
                j <= n,
                k < 64,
                n == scalars.len() == points.len(),
                pv == points_view(points@),
                tables.len() == n,
                encodings.len() == n,
                forall|i: int| 0 <= i < n ==> (#[trigger] tables[i]).len() == 16,
                forall|i: int, d: int|
                    0 <= i < n && 0 <= d < 16 ==> #[trigger] tables[i][d]@ == fq(d * points[i]@),
                forall|i: int| 0 <= i < n ==> (#[trigger] encodings[i])@.len() == 32,
                prev == sum_prod(values_from(encodings@, k + 1), pv, n as int),
                acc@ == fq(16 * prev + sum_prod(digits_at(encodings@, k as int), pv, j as int)),
            decreases n - j,
        {
            let d = nibble_of(&encodings[j], k);
            proof {
                lemma_fq_add(
                    16 * prev + sum_prod(digits_at(encodings@, k as int), pv, j as int),
                    d * points[j as int]@,
                );
            }
            // a zero digit adds the identity
            if d != 0 {
                let t = tables[j][d];
                acc = acc.add(&t);
            } else {
                proof {
                    lemma_fq_range(16 * prev + sum_prod(digits_at(encodings@, k as int), pv, j as int));
                }
            }
            j = j + 1;
        }
        proof {
            lemma_sum_prod_combine(
                values_from(encodings@, k as int),
                digits_at(encodings@, k as int),
                values_from(encodings@, k + 1),
                pv,
                16,
                n as int,
            );
        }
    }
    proof {
        assert forall|i: int| 0 <= i < n implies #[trigger] values_from(encodings@, 0)[i]
            == scalars_view(scalars@)[i] by {
            lemma_nibbles_value(encodings[i]@, 0);
            assert(encodings[i]@.skip(0) =~= encodings[i]@);
        }
        assert(values_from(encodings@, 0) =~= scalars_view(scalars@));
    }
    acc
}

/// `sum_i 0 * p_i = 0`.
proof fn lemma_sum_prod_zero(a: Seq<int>, p: Seq<int>, n: int)
    requires
        forall|i: int| 0 <= i < n ==> #[trigger] a[i] == 0,
    ensures
        sum_prod(a, p, n) == 0,
    decreases n,
{
    if n > 0 {
        lemma_sum_prod_zero(a, p, n - 1);
        assert(a[n - 1] * p[n - 1] == 0) by (nonlinear_arith)
            requires
                a[n - 1] == 0,
        ;
    }
}

/// Splitting a multi-scalar multiplication at `m`: the results on the two
/// parts add up to the result on the whole.
proof fn lemma_dot_split(s: Seq<Scalar>, p: Seq<G1>, m: int)
    requires
        s.len() == p.len(),
        0 <= m <= s.len(),
    ensures
        fq(fq(dot(scalars_view(s.subrange(0, m)), points_view(p.subrange(0, m)))) + fq(
            dot(
                scalars_view(s.subrange(m, s.len() as int)),
                points_view(p.subrange(m, p.len() as int)),
            ),
        )) == fq(dot(scalars_view(s), points_view(p))),
{
    let n = s.len() as int;
    let a = scalars_view(s);
    let b = points_view(p);
    let a1 = scalars_view(s.subrange(0, m));
    let b1 = points_view(p.subrange(0, m));
    let a2 = scalars_view(s.subrange(m, n));
    let b2 = points_view(p.subrange(m, n));
    lemma_sum_prod_split(a, b, m, n - m);
    lemma_sum_prod_prefix(a, b, a1, b1, m);
    assert(a.skip(m) =~= a2);
    assert(b.skip(m) =~= b2);
    lemma_fq_add(sum_prod(a1, b1, m), sum_prod(a2, b2, n - m));
}

/// Multi-scalar multiplication on up to two threads.
fn multiexp_half(scalars: &[Scalar], points: &[G1]) -> (res: G1)
    requires
        scalars.len() == points.len(),
    ensures
        res@ == fq(dot(scalars_view(scalars@), points_view(points@))),
{
    let n = scalars.len();
    if n < 16 {
        return straus(scalars, points);
    }
    let m = n / 2;
    let (s1, s2) = scalars.split_at(m);
    let (p1, p2) = points.split_at(m);
    let (r1, r2) = join2(straus, s1, p1, straus, s2, p2);
    proof {
        lemma_dot_split(scalars@, points@, m as int);
    }
    r1.add(&r2)
}

/// Multi-scalar multiplication: `sum_i scalars[i] * points[i]`, split over
/// up to four threads.
pub fn multiexp(scalars: &[Scalar], points: &[G1]) -> (res: G1)
    requires
        scalars.len() == points.len(),
    ensures
        res@ == fq(dot(scalars_view(scalars@), points_view(points@))),
{
    let n = scalars.len();
    if n < 32 {
        return multiexp_half(scalars, points);
    }
    let m = n / 2;
    let (s1, s2) = scalars.split_at(m);
    let (p1, p2) = points.split_at(m);
    let (r1, r2) = join2(multiexp_half, s1, p1, multiexp_half, s2, p2);
    proof {
        lemma_dot_split(scalars@, points@, m as int);
    }
    r1.add(&r2)
}

impl G1 {
    /// Scalar multiplication `s * self`.
    pub fn mul(&self, s: &Scalar) -> (res: G1)
        ensures
            res@ == fq(s@ * self@),
    {
        let scalars = [*s];
        let points = [*self];
        proof {
            assert(scalars_view(scalars@) =~= seq![s@]);
            assert(points_view(points@) =~= seq![self@]);
            assert(sum_prod(seq![s@], seq![self@], 0) == 0);
        }
        straus(scalars.as_slice(), points.as_slice())
    }
}

} // verus!
