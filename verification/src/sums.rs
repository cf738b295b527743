//! Spec-level sums over sequences: the weighted sums that every MSM variant
//! is specified against, and their algebra.

use crate::curve::{gmod, point_class, Point};
use vstd::prelude::*;

verus! {

/// The classes of a sequence of points.
pub open spec fn classes(points: Seq<Point>) -> Seq<int> {
    points.map_values(|p: Point| point_class(p))
}

/// A sequence of 32-bit scalars as integers.
pub open spec fn ints_of_u32s(s: Seq<u32>) -> Seq<int> {
    s.map_values(|x: u32| x as int)
}

/// A sequence of signed digits as integers.
pub open spec fn ints_of_i64s(s: Seq<i64>) -> Seq<int> {
    s.map_values(|x: i64| x as int)
}

/// The rows of a matrix of 32-bit window values, as integer sequences.
pub open spec fn rows_of_u32s(m: Seq<Vec<u32>>) -> Seq<Seq<int>> {
    m.map_values(|v: Vec<u32>| ints_of_u32s(v@))
}

/// Column `i` of a matrix whose rows are the windows: the window values of
/// one scalar, lowest window first.
pub open spec fn column(mat: Seq<Seq<int>>, i: int) -> Seq<int> {
    Seq::new(mat.len(), |j: int| mat[j][i])
}

/// The dot product of two equally long integer sequences.
pub open spec fn dot(a: Seq<int>, b: Seq<int>) -> int
    decreases a.len(),
{
    if a.len() == 0 {
        0
    } else {
        dot(a.drop_last(), b.drop_last()) + a.last() * b.last()
    }
}

/// The class of the multi-scalar multiplication of `points` by `scalars`:
/// the class of the group element sum of `scalars[i]` times `points[i]`.
/// Every MSM entry point of this library returns a point of this class.
pub open spec fn msm_class(points: Seq<Point>, scalars: Seq<u32>) -> int {
    gmod(dot(ints_of_u32s(scalars), classes(points)))
}

/// Pointwise sum of two equally long integer sequences.
pub open spec fn seq_plus(a: Seq<int>, b: Seq<int>) -> Seq<int> {
    Seq::new(a.len(), |i: int| a[i] + b[i])
}

/// An integer sequence scaled pointwise.
pub open spec fn seq_scale(k: int, a: Seq<int>) -> Seq<int> {
    a.map_values(|x: int| k * x)
}

/// Extending both sequences by one term extends the dot product by the
/// product of those terms.
pub proof fn lemma_dot_push(a: Seq<int>, b: Seq<int>, x: int, y: int)
    requires
        a.len() == b.len(),
    ensures
        dot(a.push(x), b.push(y)) == dot(a, b) + x * y,
{
    assert(a.push(x).drop_last() =~= a);
    assert(b.push(y).drop_last() =~= b);
}

/// The dot product over prefixes grows one index at a time.
pub proof fn lemma_dot_prefix(a: Seq<int>, b: Seq<int>, k: int)
    requires
        a.len() == b.len(),
        0 <= k < a.len(),
    ensures
        dot(a.take(k + 1), b.take(k + 1)) == dot(a.take(k), b.take(k)) + a[k] * b[k],
{
    assert(a.take(k + 1) =~= a.take(k).push(a[k]));
    assert(b.take(k + 1) =~= b.take(k).push(b[k]));
    lemma_dot_push(a.take(k), b.take(k), a[k], b[k]);
}

/// A dot product with an all-zero left side is zero.
pub proof fn lemma_dot_zero_left(a: Seq<int>, b: Seq<int>)
    requires
        a.len() == b.len(),
        forall|i: int| 0 <= i < a.len() ==> a[i] == 0,
    ensures
        dot(a, b) == 0,
    decreases a.len(),
{
    if a.len() > 0 {
        lemma_dot_zero_left(a.drop_last(), b.drop_last());
    }
}

/// The dot product is additive in its left side.
pub proof fn lemma_dot_plus_left(a1: Seq<int>, a2: Seq<int>, b: Seq<int>)
    requires
        a1.len() == b.len(),
        a2.len() == b.len(),
    ensures
        dot(seq_plus(a1, a2), b) == dot(a1, b) + dot(a2, b),
    decreases b.len(),
{
    if b.len() > 0 {
        assert(seq_plus(a1, a2).drop_last() =~= seq_plus(a1.drop_last(), a2.drop_last()));
        lemma_dot_plus_left(a1.drop_last(), a2.drop_last(), b.drop_last());
        assert(seq_plus(a1, a2).last() == a1.last() + a2.last());
        assert((a1.last() + a2.last()) * b.last() == a1.last() * b.last() + a2.last() * b.last())
            by (nonlinear_arith);
    }
}

/// The signed class contribution of one bucket entry `(index, digit)`: the
/// class at the entry's index, negated when the digit is negative.
pub open spec fn entry_class(cls: Seq<int>, e: (usize, i64)) -> int {
    if e.1 < 0 {
        -cls[e.0 as int]
    } else {
        cls[e.0 as int]
    }
}

/// The signed sum of the class contributions of a bucket's entries.
pub open spec fn bucket_sum(cls: Seq<int>, entries: Seq<(usize, i64)>) -> int
    decreases entries.len(),
{
    if entries.len() == 0 {
        0
    } else {
        bucket_sum(cls, entries.drop_last()) + entry_class(cls, entries.last())
    }
}

/// The views of a sequence of bucket vectors.
pub open spec fn bucket_views(b: Seq<Vec<(usize, i64)>>) -> Seq<Seq<(usize, i64)>> {
    b.map_values(|v: Vec<(usize, i64)>| v@)
}

/// The signed class sum of each bucket, as a sequence indexed by digit
/// magnitude.
pub open spec fn bucket_sums(cls: Seq<int>, bs: Seq<Seq<(usize, i64)>>) -> Seq<int> {
    Seq::new(bs.len(), |d: int| bucket_sum(cls, bs[d]))
}

/// The sum of `s[d]` over positions `d` to the end of `s`.
pub open spec fn suffix_total(s: Seq<int>, d: int) -> int
    decreases s.len() - d,
{
    if 0 <= d < s.len() {
        s[d] + suffix_total(s, d + 1)
    } else {
        0
    }
}

/// The sum of `(e - d + 1) * s[e]` over positions `e` from `d` to the end:
/// the value accumulated by a reverse scan that has processed positions
/// down to `d`, adding the running suffix total at each step.
pub open spec fn weighted_suffix(s: Seq<int>, d: int) -> int
    decreases s.len() - d,
{
    if 0 <= d < s.len() {
        suffix_total(s, d) + weighted_suffix(s, d + 1)
    } else {
        0
    }
}

/// The sum of `e * s[e]` over all positions `e` of `s`.
pub open spec fn weighted_positions(s: Seq<int>) -> int
    decreases s.len(),
{
    if s.len() == 0 {
        0
    } else {
        weighted_positions(s.drop_last()) + (s.len() - 1) * s.last()
    }
}

/// Dropping the last position takes its term out of a suffix total.
pub proof fn lemma_suffix_total_drop_last(s: Seq<int>, d: int)
    requires
        0 <= d < s.len(),
    ensures
        suffix_total(s, d) == suffix_total(s.drop_last(), d) + s.last(),
    decreases s.len() - d,
{
    if d == s.len() - 1 {
        assert(suffix_total(s, d + 1) == 0);
        assert(suffix_total(s.drop_last(), d) == 0);
    } else {
        lemma_suffix_total_drop_last(s, d + 1);
    }
}

/// Dropping the last position takes its weighted term out of a weighted
/// suffix.
pub proof fn lemma_weighted_suffix_drop_last(s: Seq<int>, d: int)
    requires
        0 <= d < s.len(),
    ensures
        weighted_suffix(s, d) == weighted_suffix(s.drop_last(), d) + (s.len() - d) * s.last(),
    decreases s.len() - d,
{
    lemma_suffix_total_drop_last(s, d);
    if d == s.len() - 1 {
        assert(weighted_suffix(s, d + 1) == 0);
        assert(weighted_suffix(s.drop_last(), d) == 0);
        assert(suffix_total(s, d + 1) == 0);
        assert(weighted_suffix(s, d) == suffix_total(s, d) + weighted_suffix(s, d + 1));
        assert(1int * s.last() == s.last()) by (nonlinear_arith);
    } else {
        lemma_weighted_suffix_drop_last(s, d + 1);
        assert(weighted_suffix(s, d) == suffix_total(s, d) + weighted_suffix(s, d + 1));
        assert(weighted_suffix(s.drop_last(), d) == suffix_total(s.drop_last(), d)
            + weighted_suffix(s.drop_last(), d + 1));
        let le: int = s.len() as int;
        assert((le - d) * s.last() == s.last() + (le - (d + 1)) * s.last()) by (nonlinear_arith);
    }
}

/// The reverse scan from the last position down to 1 accumulates exactly
/// the position-weighted sum.
pub proof fn lemma_weighted_suffix_is_positions(s: Seq<int>)
    requires
        1 <= s.len(),
    ensures
        weighted_suffix(s, 1) == weighted_positions(s),
    decreases s.len(),
{
    if s.len() == 1 {
        assert(weighted_suffix(s, 1) == 0);
        assert(weighted_positions(s.drop_last()) == 0);
        assert(0int * s.last() == 0) by (nonlinear_arith);
    } else {
        lemma_weighted_suffix_drop_last(s, 1);
        lemma_weighted_suffix_is_positions(s.drop_last());
    }
}

/// Adding `x` at position `v` adds `v * x` to the position-weighted sum.
pub proof fn lemma_weighted_positions_update(s: Seq<int>, v: int, x: int)
    requires
        0 <= v < s.len(),
    ensures
        weighted_positions(s.update(v, s[v] + x)) == weighted_positions(s) + v * x,
    decreases s.len(),
{
    let s2 = s.update(v, s[v] + x);
    if v == s.len() - 1 {
        assert(s2.drop_last() =~= s.drop_last());
        assert((s.len() - 1) * (s.last() + x) == (s.len() - 1) * s.last() + (s.len() - 1) * x)
            by (nonlinear_arith);
    } else {
        assert(s2.drop_last() =~= s.drop_last().update(v, s.drop_last()[v] + x));
        lemma_weighted_positions_update(s.drop_last(), v, x);
    }
}

/// The position-weighted sum of an all-zero sequence is zero.
pub proof fn lemma_weighted_positions_zero(s: Seq<int>)
    requires
        forall|i: int| 0 <= i < s.len() ==> s[i] == 0,
    ensures
        weighted_positions(s) == 0,
    decreases s.len(),
{
    if s.len() > 0 {
        lemma_weighted_positions_zero(s.drop_last());
        assert((s.len() - 1) * s.last() == 0) by (nonlinear_arith)
            requires
                s.last() == 0,
        ;
    }
}

/// The sum of `s[keys[u]]` over key positions `u` from `t` to the end.
pub open spec fn suffix_keyed_total(s: Seq<int>, keys: Seq<usize>, t: int) -> int
    decreases keys.len() - t,
{
    if 0 <= t < keys.len() {
        s[keys[t] as int] + suffix_keyed_total(s, keys, t + 1)
    } else {
        0
    }
}

/// The sum of `keys[u] * s[keys[u]]` over key positions `u` from `t` on.
pub open spec fn keyed_weighted(s: Seq<int>, keys: Seq<usize>, t: int) -> int
    decreases keys.len() - t,
{
    if 0 <= t < keys.len() {
        keys[t] * s[keys[t] as int] + keyed_weighted(s, keys, t + 1)
    } else {
        0
    }
}

/// The gap-placed contributions of a descending scan over the keys: for
/// each key position `u` from `t` on (skipping position 0), the gap to the
/// previous key times the suffix total of the keys from `u` on.
pub open spec fn gap_terms(s: Seq<int>, keys: Seq<usize>, t: int) -> int
    decreases keys.len() - t,
{
    if 1 <= t < keys.len() {
        (keys[t] - keys[t - 1]) * suffix_keyed_total(s, keys, t) + gap_terms(s, keys, t + 1)
    } else {
        0
    }
}

/// Appending a key appends its term to a keyed weighted sum.
pub proof fn lemma_keyed_weighted_push(s: Seq<int>, keys: Seq<usize>, k: usize, t: int)
    requires
        0 <= t <= keys.len(),
    ensures
        keyed_weighted(s, keys.push(k), t) == keyed_weighted(s, keys, t) + k * s[k as int],
    decreases keys.len() - t,
{
    if t < keys.len() {
        lemma_keyed_weighted_push(s, keys, k, t + 1);
    } else {
        assert(keyed_weighted(s, keys, t) == 0);
        assert(keyed_weighted(s, keys.push(k), t + 1) == 0);
        assert(keys.push(k)[t] == k);
    }
}

/// The telescoping of the gap-placed contributions: the descending scan's
/// gap terms from position `t` on total the keyed weighted sum from `t` on,
/// less the previous key's weight on the whole suffix.
pub proof fn lemma_gap_terms_telescope(s: Seq<int>, keys: Seq<usize>, t: int)
    requires
        1 <= t <= keys.len(),
    ensures
        gap_terms(s, keys, t) == keyed_weighted(s, keys, t) - keys[t - 1] * suffix_keyed_total(
            s,
            keys,
            t,
        ),
    decreases keys.len() - t,
{
    if t == keys.len() {
        assert(keys[t - 1] * suffix_keyed_total(s, keys, t) == 0) by (nonlinear_arith)
            requires
                suffix_keyed_total(s, keys, t) == 0,
        ;
    } else {
        lemma_gap_terms_telescope(s, keys, t + 1);
        let kt = keys[t] as int;
        let kp = keys[t - 1] as int;
        let skt = s[kt];
        let pt1 = suffix_keyed_total(s, keys, t + 1);
        assert(suffix_keyed_total(s, keys, t) == skt + pt1);
        assert((kt - kp) * (skt + pt1) + (keyed_weighted(s, keys, t + 1) - kt * pt1)
            == keyed_weighted(s, keys, t + 1) + kt * skt - kp * (skt + pt1)) by (nonlinear_arith);
    }
}

/// With 0 as the first key, the gap terms total the full keyed weighted
/// sum.
pub proof fn lemma_gap_terms_total(s: Seq<int>, keys: Seq<usize>)
    requires
        1 <= keys.len(),
        keys[0] == 0,
    ensures
        gap_terms(s, keys, 1) == keyed_weighted(s, keys, 0),
{
    lemma_gap_terms_telescope(s, keys, 1);
    assert(keys[0] * suffix_keyed_total(s, keys, 1) == 0) by (nonlinear_arith)
        requires
            keys[0] == 0,
    ;
    assert(keyed_weighted(s, keys, 0) == keys[0] * s[keys[0] as int] + keyed_weighted(s, keys, 1));
    assert(keys[0] * s[keys[0] as int] == 0) by (nonlinear_arith)
        requires
            keys[0] == 0,
    ;
}

/// The dot product commutes with scaling its left side.
pub proof fn lemma_dot_scale_left(k: int, a: Seq<int>, b: Seq<int>)
    requires
        a.len() == b.len(),
    ensures
        dot(seq_scale(k, a), b) == k * dot(a, b),
    decreases a.len(),
{
    if a.len() > 0 {
        assert(seq_scale(k, a).drop_last() =~= seq_scale(k, a.drop_last()));
        lemma_dot_scale_left(k, a.drop_last(), b.drop_last());
        assert(k * (dot(a.drop_last(), b.drop_last()) + a.last() * b.last()) == k * dot(
            a.drop_last(),
            b.drop_last(),
        ) + k * (a.last() * b.last())) by (nonlinear_arith);
        assert(k * (a.last() * b.last()) == (k * a.last()) * b.last()) by (nonlinear_arith);
    } else {
        assert(seq_scale(k, a).len() == 0);
    }
}

} // verus!
