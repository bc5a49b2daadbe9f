//! Arithmetic modulo the group order `q`.
use vstd::prelude::*;

use crate::scalar::group_order;
use vstd::arithmetic::div_mod::{
    lemma_add_mod_noop, lemma_mod_twice, lemma_mul_mod_noop_general, lemma_sub_mod_noop,
};

verus! {

/// `x` reduced into `[0, q)`.
pub open spec fn fq(x: int) -> int {
    x % group_order()
}

pub proof fn lemma_fq_range(x: int)
    ensures
        0 <= fq(x) < group_order(),
        fq(fq(x)) == fq(x),
{
    lemma_mod_twice(x, group_order());
}

pub proof fn lemma_fq_small(x: int)
    requires
        0 <= x < group_order(),
    ensures
        fq(x) == x,
{
    vstd::arithmetic::div_mod::lemma_small_mod(x as nat, group_order() as nat);
}

/// Reduction commutes with addition.
pub proof fn lemma_fq_add(x: int, y: int)
    ensures
        fq(fq(x) + fq(y)) == fq(x + y),
        fq(fq(x) + y) == fq(x + y),
        fq(x + fq(y)) == fq(x + y),
{
    lemma_add_mod_noop(x, y, group_order());
    lemma_add_mod_noop(fq(x), y, group_order());
    lemma_add_mod_noop(x, fq(y), group_order());
    lemma_fq_range(x);
    lemma_fq_range(y);
}

/// Reduction commutes with subtraction.
pub proof fn lemma_fq_sub(x: int, y: int)
    ensures
        fq(fq(x) - fq(y)) == fq(x - y),
        fq(fq(x) - y) == fq(x - y),
        fq(x - fq(y)) == fq(x - y),
{
    lemma_sub_mod_noop(x, y, group_order());
    lemma_sub_mod_noop(fq(x), y, group_order());
    lemma_sub_mod_noop(x, fq(y), group_order());
    lemma_fq_range(x);
    lemma_fq_range(y);
}

/// Reduction commutes with multiplication.
pub proof fn lemma_fq_mul(x: int, y: int)
    ensures
        fq(fq(x) * fq(y)) == fq(x * y),
        fq(fq(x) * y) == fq(x * y),
        fq(x * fq(y)) == fq(x * y),
{
    lemma_mul_mod_noop_general(x, y, group_order());
}

/// Congruent operands give congruent sums.
pub proof fn lemma_fq_add_cong(x1: int, y1: int, x2: int, y2: int)
    requires
        fq(x1) == fq(x2),
        fq(y1) == fq(y2),
    ensures
        fq(x1 + y1) == fq(x2 + y2),
{
    lemma_fq_add(x1, y1);
    lemma_fq_add(x2, y2);
}

/// Congruent operands give congruent differences.
pub proof fn lemma_fq_sub_cong(x1: int, y1: int, x2: int, y2: int)
    requires
        fq(x1) == fq(x2),
        fq(y1) == fq(y2),
    ensures
        fq(x1 - y1) == fq(x2 - y2),
{
    lemma_fq_sub(x1, y1);
    lemma_fq_sub(x2, y2);
}

/// Congruent operands give congruent products.
pub proof fn lemma_fq_mul_cong(x1: int, y1: int, x2: int, y2: int)
    requires
        fq(x1) == fq(x2),
        fq(y1) == fq(y2),
    ensures
        fq(x1 * y1) == fq(x2 * y2),
{
    lemma_fq_mul(x1, y1);
    lemma_fq_mul(x2, y2);
}

/// The multiplicative inverse modulo `q` of `x`, where one exists.
pub open spec fn inv(x: int) -> int {
    choose|v: int| 0 <= v < group_order() && #[trigger] fq(x * v) == 1
}

/// Any reduced `v` with `x * v = 1` is the inverse of `x`.
pub proof fn lemma_inv_unique(x: int, v: int)
    requires
        0 <= v < group_order(),
        fq(x * v) == 1,
    ensures
        inv(x) == v,
        fq(x * inv(x)) == 1,
{
    let w = inv(x);
    assert(0 <= w < group_order() && fq(x * w) == 1);
    // v = v * (x * w) = (v * x) * w = w  (mod q)
    lemma_fq_mul_cong(v, x * w, v, 1);
    assert(v * (x * w) == (x * v) * w) by (nonlinear_arith);
    lemma_fq_mul_cong(x * v, w, 1, w);
    lemma_fq_small(v);
    lemma_fq_small(w);
}

/// Whether `x` has a multiplicative inverse modulo `q`.
pub open spec fn invertible(x: int) -> bool {
    exists|v: int| 0 <= v < group_order() && #[trigger] fq(x * v) == 1
}

/// An invertible `x` is inverted by `inv(x)`.
pub proof fn lemma_inv_of_invertible(x: int)
    requires
        invertible(x),
    ensures
        0 <= inv(x) < group_order(),
        fq(x * inv(x)) == 1,
{
    let v = choose|v: int| 0 <= v < group_order() && #[trigger] fq(x * v) == 1;
    lemma_inv_unique(x, v);
}

/// Zero has no inverse.
pub proof fn lemma_zero_not_invertible()
    ensures
        !invertible(0),
{
    assert forall|v: int| 0 <= v < group_order() implies #[trigger] fq(0 * v) != 1 by {
        assert(0 * v == 0);
    }
}

/// An element with a witnessed inverse is invertible.
pub proof fn lemma_invertible_witness(x: int, v: int)
    requires
        0 <= v < group_order(),
        fq(x * v) == 1,
    ensures
        invertible(x),
        inv(x) == v,
{
    lemma_inv_unique(x, v);
}

} // verus!
