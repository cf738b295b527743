//! The naive MSM: one scalar multiplication per pair, summed. The
//! reference oracle the bucket variants are measured against.

use crate::curve::{gmod, lemma_gadd_fold, point_class, Point};
use crate::operations::{add_points, scalar_multiply};
use crate::sums::{classes, dot, ints_of_u32s, lemma_dot_prefix, msm_class};
use vstd::prelude::*;

verus! {

/// Multi-scalar multiplication, pair by pair: returns the sum over all
/// pairs of `scalars[i]` times `points[i]`.
#[verifier::loop_isolation(false)]
pub fn naive_msm(points: &[Point], scalars: &[u32]) -> (r: Point)
    requires
        points@.len() == scalars@.len(),
    ensures
        point_class(r) == msm_class(points@, scalars@),
{
    let ghost cls = classes(points@);
    let ghost svals = ints_of_u32s(scalars@);
    let mut result = Point::zero();
    let mut i: usize = 0;
    while i < points.len()
        invariant
            i <= points@.len(),
            point_class(result) == gmod(dot(svals.take(i as int), cls.take(i as int))),
        decreases points@.len() - i,
    {
        let term = scalar_multiply(points[i], scalars[i]);
        let ghost before = dot(svals.take(i as int), cls.take(i as int));
        result = add_points(result, term);
        proof {
            lemma_gadd_fold(before, (scalars@[i as int] as int) * cls[i as int]);
            lemma_dot_prefix(svals, cls, i as int);
        }
        i = i + 1;
    }
    proof {
        assert(svals.take(points@.len() as int) =~= svals);
        assert(cls.take(points@.len() as int) =~= cls);
    }
    result
}

} // verus!
