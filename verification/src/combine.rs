//! Combining per-window partial sums into the final point.
//!
//! Window `j` carries weight `2^(j*c)`. Walking the windows from the
//! highest down, doubling the accumulator `c` times before adding each
//! partial sum, applies exactly those weights.

use crate::curve::{
    gmod, lemma_gadd_fold_left, lemma_gmod_add_congruent, lemma_gmod_scale_congruent,
    lemma_gmod_twice, point_class, Point,
};
use crate::operations::{add_points, point_double};
use crate::sums::classes;
use crate::windows::horner;
use vstd::arithmetic::power2::{lemma2_to64, lemma_pow2_unfold, pow2};
use vstd::prelude::*;

verus! {

/// Doubles a point `times` times: multiplication by `2^times`, on classes
/// modulo the group order.
#[verifier::loop_isolation(false)]
pub(crate) fn double_times(point: Point, times: usize) -> (r: Point)
    ensures
        gmod(point_class(r)) == gmod(pow2(times as nat) * point_class(point)),
{
    let ghost cl0 = point_class(point);
    proof {
        assert(pow2(0) == 1) by {
            lemma2_to64();
        }
    }
    let mut cur = point;
    let mut k: usize = 0;
    while k < times
        invariant
            k <= times,
            gmod(point_class(cur)) == gmod(pow2(k as nat) * cl0),
        decreases times - k,
    {
        let ghost prev = point_class(cur);
        cur = point_double(&cur);
        proof {
            lemma_gmod_twice(prev + prev);
            lemma_gmod_scale_congruent(2, prev, pow2(k as nat) * cl0);
            lemma_pow2_unfold((k + 1) as nat);
            assert(2 * (pow2(k as nat) * cl0) == (2 * pow2(k as nat)) * cl0) by (nonlinear_arith);
        }
        k = k + 1;
    }
    cur
}

/// Combine already computed per-window partial sums, lowest window first
/// in the slice, into the full result: the double-and-add fold over the
/// windows in descending order, weighting window `j` by `2^(j*c)`.
#[verifier::loop_isolation(false)]
pub fn combine_partial_sums(partial_sums: &Vec<Point>, window_size: usize) -> (r: Point)
    requires
        1 <= window_size,
    ensures
        point_class(r) == gmod(horner(classes(partial_sums@), 0, window_size as nat)),
{
    let ghost cls = classes(partial_sums@);
    let mut final_result = Point::zero();
    let mut j: usize = partial_sums.len();
    while j > 0
        invariant
            j <= partial_sums@.len(),
            point_class(final_result) == gmod(horner(cls, j as int, window_size as nat)),
        decreases j,
    {
        j = j - 1;
        let ghost before = horner(cls, j + 1, window_size as nat);
        let doubled = double_times(final_result, window_size);
        proof {
            lemma_gmod_twice(before);
            lemma_gmod_scale_congruent(
                pow2(window_size as nat) as int,
                point_class(final_result),
                before,
            );
        }
        let ghost dcl = point_class(doubled);
        final_result = add_points(doubled, partial_sums[j]);
        proof {
            lemma_gmod_add_congruent(cls[j as int], dcl, pow2(window_size as nat) * before);
            lemma_gmod_twice(dcl + cls[j as int]);
        }
    }
    final_result
}

/// Per-window values congruent modulo the group order combine to congruent
/// results.
pub proof fn lemma_horner_congruent(a: Seq<int>, b: Seq<int>, j: int, c: nat)
    requires
        a.len() == b.len(),
        forall|k: int| 0 <= k < a.len() ==> gmod(#[trigger] a[k]) == gmod(b[k]),
    ensures
        gmod(horner(a, j, c)) == gmod(horner(b, j, c)),
    decreases a.len() - j,
{
    if 0 <= j < a.len() {
        lemma_horner_congruent(a, b, j + 1, c);
        lemma_gmod_scale_congruent(pow2(c) as int, horner(a, j + 1, c), horner(b, j + 1, c));
        lemma_gmod_add_congruent(
            a[j],
            pow2(c) * horner(a, j + 1, c),
            pow2(c) * horner(b, j + 1, c),
        );
        lemma_gmod_add_congruent(pow2(c) * horner(b, j + 1, c), a[j], b[j]);
    }
}

/// The sum over the first `k` windows of `2^bits[t]` times `vals[t]`: the
/// weight each window carries when it is doubled `bits[t]` times before
/// being added.
pub open spec fn bit_weighted(vals: Seq<int>, bits: Seq<usize>, k: int) -> int
    decreases k,
{
    if 0 < k <= vals.len() && k <= bits.len() {
        bit_weighted(vals, bits, k - 1) + pow2(bits[k - 1] as nat) * vals[k - 1]
    } else {
        0
    }
}

/// Per-window values congruent modulo the group order fold to congruent
/// bit-weighted sums.
pub proof fn lemma_bit_weighted_congruent(a: Seq<int>, b: Seq<int>, bits: Seq<usize>, k: int)
    requires
        a.len() == b.len(),
        forall|t: int| 0 <= t < a.len() ==> gmod(#[trigger] a[t]) == gmod(b[t]),
    ensures
        gmod(bit_weighted(a, bits, k)) == gmod(bit_weighted(b, bits, k)),
    decreases k,
{
    if 0 < k <= a.len() && k <= bits.len() {
        lemma_bit_weighted_congruent(a, b, bits, k - 1);
        let w = pow2(bits[k - 1] as nat) as int;
        lemma_gmod_scale_congruent(w, a[k - 1], b[k - 1]);
        lemma_gmod_add_congruent(bit_weighted(a, bits, k - 1), w * a[k - 1], w * b[k - 1]);
        lemma_gmod_add_congruent(
            w * b[k - 1],
            bit_weighted(a, bits, k - 1),
            bit_weighted(b, bits, k - 1),
        );
    }
}

/// When the bit indices are the window positions times the width, the
/// bit-weighted fold is the power-weighted window sum.
pub proof fn lemma_bit_weighted_is_pow_weighted(vals: Seq<int>, bits: Seq<usize>, c: nat, k: int)
    requires
        vals.len() == bits.len(),
        0 <= k <= vals.len(),
        forall|t: int| 0 <= t < bits.len() ==> #[trigger] bits[t] == t * c,
    ensures
        bit_weighted(vals, bits, k) == crate::windows::pow_weighted_from(vals.take(k), 0, c),
    decreases k,
{
    if k > 0 {
        lemma_bit_weighted_is_pow_weighted(vals, bits, c, k - 1);
        crate::windows::lemma_pow_weighted_take_step(vals, k, c);
        assert(bits[k - 1] as nat == ((k - 1) * c) as nat);
    }
}

/// Combine already computed per-window partial sums, each weighted by its
/// own bit index: window `t`'s partial sum is doubled `bits[t]` times and
/// the results are summed.
#[verifier::loop_isolation(false)]
pub fn combine_indexed_partials(partial_sums: &Vec<Point>, bit_indexes: &Vec<usize>) -> (r: Point)
    requires
        partial_sums@.len() == bit_indexes@.len(),
    ensures
        point_class(r) == gmod(
            bit_weighted(classes(partial_sums@), bit_indexes@, partial_sums@.len() as int),
        ),
{
    let ghost cls = classes(partial_sums@);
    let mut final_result = Point::zero();
    let mut j: usize = 0;
    while j < partial_sums.len()
        invariant
            j <= partial_sums@.len(),
            point_class(final_result) == gmod(bit_weighted(cls, bit_indexes@, j as int)),
        decreases partial_sums@.len() - j,
    {
        let ghost before = bit_weighted(cls, bit_indexes@, j as int);
        let doubled = double_times(partial_sums[j], bit_indexes[j]);
        let ghost dcl = point_class(doubled);
        final_result = add_points(final_result, doubled);
        proof {
            let w = pow2(bit_indexes@[j as int] as nat) as int;
            lemma_gadd_fold_left(before, dcl);
            lemma_gmod_add_congruent(before, dcl, w * cls[j as int]);
        }
        j = j + 1;
    }
    final_result
}

} // verus!
