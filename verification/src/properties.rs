//! The laws of the MSM specification, stated and proved against
//! `msm_class`. Every MSM entry point of this library ensures that its
//! result's class is `msm_class(points, scalars)`, so each law below holds
//! of every variant alike.

use crate::curve::{gadd, gmod, lemma_gadd_fold, point_class, Point};
use crate::sums::{
    classes, dot, ints_of_u32s, lemma_dot_prefix, msm_class, suffix_total,
};
use vstd::prelude::*;

verus! {

/// All variants agree: every MSM entry point of this library ensures its
/// result's class is `msm_class`, so any two results for the same inputs
/// are the same group element, whichever reducer and combiner produced
/// them.
pub proof fn lemma_msm_variants_agree(
    points: Seq<Point>,
    scalars: Seq<u32>,
    result1: Point,
    result2: Point,
)
    requires
        point_class(result1) == msm_class(points, scalars),
        point_class(result2) == msm_class(points, scalars),
    ensures
        point_class(result1) == point_class(result2),
{
}

/// Empty input: the multi-scalar multiplication of no pairs is the group
/// identity, whose class is 0.
pub proof fn lemma_msm_class_empty(points: Seq<Point>, scalars: Seq<u32>)
    requires
        points.len() == 0,
        scalars.len() == 0,
    ensures
        msm_class(points, scalars) == 0,
{
    crate::curve::lemma_gmod_small(0);
}

/// All-zero scalars: the result is the group identity, whose class is 0,
/// whatever the points.
pub proof fn lemma_msm_class_zero_scalars(points: Seq<Point>, scalars: Seq<u32>)
    requires
        points.len() == scalars.len(),
        forall|i: int| 0 <= i < scalars.len() ==> #[trigger] scalars[i] == 0,
    ensures
        msm_class(points, scalars) == 0,
{
    crate::sums::lemma_dot_zero_left(ints_of_u32s(scalars), classes(points));
    crate::curve::lemma_gmod_small(0);
}

/// All-one scalars: the result is the plain sum of the points,
/// independent of any window width.
pub proof fn lemma_msm_class_all_ones(points: Seq<Point>, scalars: Seq<u32>)
    requires
        points.len() == scalars.len(),
        forall|i: int| 0 <= i < scalars.len() ==> #[trigger] scalars[i] == 1,
    ensures
        msm_class(points, scalars) == gmod(suffix_total(classes(points), 0)),
{
    let a = ints_of_u32s(scalars);
    let b = classes(points);
    lemma_dot_ones(a, b, a.len() as int);
    assert(a.take(a.len() as int) =~= a);
    assert(b.take(b.len() as int) =~= b);
}

/// A dot product with an all-one left side is the plain sum of the right
/// side.
proof fn lemma_dot_ones(a: Seq<int>, b: Seq<int>, f: int)
    requires
        a.len() == b.len(),
        forall|i: int| 0 <= i < a.len() ==> #[trigger] a[i] == 1,
        0 <= f <= a.len(),
    ensures
        dot(a.take(f), b.take(f)) == suffix_total(b.take(f), 0),
    decreases f,
{
    if f == 0 {
    } else {
        lemma_dot_ones(a, b, f - 1);
        lemma_dot_prefix(a, b, f - 1);
        lemma_suffix_total_push(b.take(f - 1), b[f - 1]);
        assert(b.take(f) =~= b.take(f - 1).push(b[f - 1]));
        assert(a.take(a.len() as int) =~= a);
        assert(1int * b[f - 1] == b[f - 1]) by (nonlinear_arith);
    }
}

/// Appending a value appends its term to the total.
proof fn lemma_suffix_total_push(s: Seq<int>, x: int)
    ensures
        suffix_total(s.push(x), 0) == suffix_total(s, 0) + x,
{
    lemma_suffix_total_push_from(s, x, 0);
}

/// As the previous lemma, from any starting position.
proof fn lemma_suffix_total_push_from(s: Seq<int>, x: int, d: int)
    requires
        0 <= d <= s.len(),
    ensures
        suffix_total(s.push(x), d) == suffix_total(s, d) + x,
    decreases s.len() - d,
{
    if d < s.len() {
        lemma_suffix_total_push_from(s, x, d + 1);
        assert(s.push(x)[d] == s[d]);
    } else {
        assert(s.push(x)[d] == x);
        assert(suffix_total(s.push(x), d + 1) == 0);
    }
}

/// A single pair: the result is the scalar multiple of the one point.
pub proof fn lemma_msm_class_single_pair(points: Seq<Point>, scalars: Seq<u32>)
    requires
        points.len() == 1,
        scalars.len() == 1,
    ensures
        msm_class(points, scalars) == gmod((scalars[0] as int) * point_class(points[0])),
{
    let a = ints_of_u32s(scalars);
    let b = classes(points);
    assert(dot(a, b) == dot(a.drop_last(), b.drop_last()) + a[0] * b[0]);
}

/// Linearity in the scalars: splitting every scalar as a sum (with no
/// component addition overflowing 32 bits) splits the result as a group
/// sum.
pub proof fn lemma_msm_class_linear(
    points: Seq<Point>,
    left: Seq<u32>,
    right: Seq<u32>,
    total: Seq<u32>,
)
    requires
        points.len() == left.len(),
        points.len() == right.len(),
        points.len() == total.len(),
        forall|i: int|
            0 <= i < total.len() ==> #[trigger] total[i] == left[i] + right[i],
    ensures
        msm_class(points, total) == gadd(msm_class(points, left), msm_class(points, right)),
{
    let cls = classes(points);
    let ti = ints_of_u32s(total);
    let li = ints_of_u32s(left);
    let ri = ints_of_u32s(right);
    assert(ti =~= crate::sums::seq_plus(li, ri));
    crate::sums::lemma_dot_plus_left(li, ri, cls);
    lemma_gadd_fold(dot(li, cls), dot(ri, cls));
}

/// Permutation invariance: jointly permuting the points and the scalars
/// leaves the result unchanged.
pub proof fn lemma_msm_class_permuted(
    points: Seq<Point>,
    scalars: Seq<u32>,
    points2: Seq<Point>,
    scalars2: Seq<u32>,
    perm: Seq<int>,
)
    requires
        points.len() == scalars.len(),
        points2.len() == points.len(),
        scalars2.len() == scalars.len(),
        perm.len() == points.len(),
        forall|i: int| 0 <= i < perm.len() ==> 0 <= #[trigger] perm[i] < perm.len(),
        forall|i: int, j: int|
            0 <= i < j < perm.len() ==> #[trigger] perm[i] != #[trigger] perm[j],
        forall|i: int| 0 <= i < perm.len() ==> #[trigger] points2[i] == points[perm[i]],
        forall|i: int| 0 <= i < perm.len() ==> #[trigger] scalars2[i] == scalars[perm[i]],
    ensures
        msm_class(points2, scalars2) == msm_class(points, scalars),
{
    lemma_dot_permuted(
        ints_of_u32s(scalars),
        classes(points),
        ints_of_u32s(scalars2),
        classes(points2),
        perm,
    );
}

/// Removing position `k` from both sides removes its term from the dot
/// product.
proof fn lemma_dot_remove(a: Seq<int>, b: Seq<int>, k: int)
    requires
        a.len() == b.len(),
        0 <= k < a.len(),
    ensures
        dot(a.remove(k), b.remove(k)) == dot(a, b) - a[k] * b[k],
    decreases a.len(),
{
    if k == a.len() - 1 {
        assert(a.remove(k) =~= a.drop_last());
        assert(b.remove(k) =~= b.drop_last());
    } else {
        assert(a.remove(k).drop_last() =~= a.drop_last().remove(k));
        assert(b.remove(k).drop_last() =~= b.drop_last().remove(k));
        assert(a.remove(k).last() == a.last());
        assert(b.remove(k).last() == b.last());
        lemma_dot_remove(a.drop_last(), b.drop_last(), k);
    }
}

/// A jointly permuted dot product is unchanged.
proof fn lemma_dot_permuted(a: Seq<int>, b: Seq<int>, a2: Seq<int>, b2: Seq<int>, perm: Seq<int>)
    requires
        a.len() == b.len(),
        a2.len() == a.len(),
        b2.len() == b.len(),
        perm.len() == a.len(),
        forall|i: int| 0 <= i < perm.len() ==> 0 <= #[trigger] perm[i] < perm.len(),
        forall|i: int, j: int|
            0 <= i < j < perm.len() ==> #[trigger] perm[i] != #[trigger] perm[j],
        forall|i: int| 0 <= i < perm.len() ==> #[trigger] a2[i] == a[perm[i]],
        forall|i: int| 0 <= i < perm.len() ==> #[trigger] b2[i] == b[perm[i]],
    ensures
        dot(a2, b2) == dot(a, b),
    decreases a.len(),
{
    let n = a.len() as int;
    if n > 0 {
        let k = perm[n - 1];
        let ar = a.remove(k);
        let br = b.remove(k);
        let perm2 = Seq::new((n - 1) as nat, |i: int| if perm[i] < k {
            perm[i]
        } else {
            perm[i] - 1
        });
        assert forall|i: int| 0 <= i < perm2.len() implies 0 <= #[trigger] perm2[i]
            < perm2.len() by {
            assert(perm[i] != perm[n - 1]);
        }
        assert forall|i: int, j: int| 0 <= i < j < perm2.len() implies #[trigger] perm2[i]
            != #[trigger] perm2[j] by {
            assert(perm[i] != perm[j]);
            assert(perm[i] != k && perm[j] != k);
        }
        assert forall|i: int| 0 <= i < perm2.len() implies #[trigger] a2.drop_last()[i]
            == ar[perm2[i]] && b2.drop_last()[i] == br[perm2[i]] by {
            assert(perm[i] != k);
            if perm[i] < k {
                assert(ar[perm[i]] == a[perm[i]]);
                assert(br[perm[i]] == b[perm[i]]);
            } else {
                assert(ar[perm[i] - 1] == a[perm[i]]);
                assert(br[perm[i] - 1] == b[perm[i]]);
            }
        }
        lemma_dot_permuted(ar, br, a2.drop_last(), b2.drop_last(), perm2);
        lemma_dot_remove(a, b, k);
        assert(dot(a2, b2) == dot(a2.drop_last(), b2.drop_last()) + a2.last() * b2.last());
        assert(a2.last() == a[k]);
        assert(b2.last() == b[k]);
    }
}

} // verus!
