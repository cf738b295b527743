//! Pippenger with sub-sum accumulation: the bucket reduction runs in time
//! linear in the number of distinct digits present, with the same window
//! partitioning and the same sequential combiner as the plain variant.

use crate::combine::{combine_partial_sums, lemma_horner_congruent};
use crate::curve::{gmod, lemma_gmod_twice, point_class, Point};
use crate::reduce::{max_magnitude, subsum_reduce, unsigned_digits};
use crate::sums::{classes, dot, ints_of_i64s, ints_of_u32s, msm_class};
use crate::windows::{
    horner, lemma_digit_columns, lemma_window_count, lemma_window_digit_bound,
    lemma_windows_total_from_columns, window_count, window_digit, window_values_at,
};
use vstd::arithmetic::mul::lemma_mul_inequality;
use vstd::arithmetic::power2::{lemma2_to64, lemma_pow2_strictly_increases, pow2};
use vstd::prelude::*;

verus! {

/// One window of the scalars: the starting bit of the window, and each
/// scalar's window value.
pub struct SubsumMsmPartition {
    pub bit_index: usize,
    pub window_values: Vec<u32>,
}

/// The partitions are exactly the c-bit window decomposition of the
/// scalars.
pub open spec fn subsum_partitions_wf(
    ps: Seq<SubsumMsmPartition>,
    scalars: Seq<u32>,
    c: nat,
) -> bool {
    &&& ps.len() == window_count(c)
    &&& forall|j: int| 0 <= j < ps.len() ==> (#[trigger] ps[j]).bit_index == j * c
    &&& forall|j: int|
        0 <= j < ps.len() ==> (#[trigger] ps[j]).window_values@.len() == scalars.len()
    &&& forall|j: int, i: int|
        0 <= j < ps.len() && 0 <= i < scalars.len() ==> (#[trigger] ps[j].window_values@[i])
            == window_digit(scalars[i], j as nat, c)
}

/// Each partition's window values, as integers.
pub open spec fn subsum_partition_rows(ps: Seq<SubsumMsmPartition>) -> Seq<Seq<int>> {
    Seq::new(ps.len(), |j: int| ints_of_u32s(ps[j].window_values@))
}

/// Each partition's contribution: the dot product of its window values
/// with the points' classes.
pub open spec fn subsum_partition_dots(
    ps: Seq<SubsumMsmPartition>,
    points: Seq<Point>,
) -> Seq<int> {
    Seq::new(ps.len(), |j: int| dot(ints_of_u32s(ps[j].window_values@), classes(points)))
}

/// Split the scalars into `ceil(32 / c)` windows of width `c`.
#[verifier::loop_isolation(false)]
pub fn subsum_partition_msm(scalars: &[u32], window_size: usize) -> (partitions: Vec<
    SubsumMsmPartition,
>)
    requires
        1 <= window_size <= 16,
    ensures
        subsum_partitions_wf(partitions@, scalars@, window_size as nat),
{
    proof {
        lemma_window_count(window_size as nat);
    }
    let num_partitions = (32 + window_size - 1) / window_size;
    let mut partitions: Vec<SubsumMsmPartition> = Vec::new();
    let mut partition_index: usize = 0;
    while partition_index < num_partitions
        invariant
            partition_index <= num_partitions,
            num_partitions == window_count(window_size as nat),
            partitions@.len() == partition_index,
            forall|j: int|
                0 <= j < partition_index ==> (#[trigger] partitions@[j]).bit_index == j
                    * window_size,
            forall|j: int|
                0 <= j < partition_index ==> (#[trigger] partitions@[j]).window_values@.len()
                    == scalars@.len(),
            forall|j: int, i: int|
                0 <= j < partition_index && 0 <= i < scalars@.len() ==> (#[trigger] partitions@[j].window_values@[i])
                    == window_digit(scalars@[i], j as nat, window_size as nat),
        decreases num_partitions - partition_index,
    {
        proof {
            lemma_mul_inequality(
                partition_index as int,
                window_count(window_size as nat) - 1,
                window_size as int,
            );
        }
        let bit_index = partition_index * window_size;
        let window_values = window_values_at(scalars, partition_index, window_size);
        partitions.push(SubsumMsmPartition { bit_index, window_values });
        partition_index = partition_index + 1;
    }
    partitions
}

/// Compute one window's partial sum by bucket accumulation and sub-sum
/// accumulation over the distinct digits present.
pub fn subsum_compute_msm_for_partition(partition: &SubsumMsmPartition, points: &[Point]) -> (r:
    Point)
    requires
        partition.window_values@.len() == points@.len(),
        forall|i: int|
            0 <= i < partition.window_values@.len() ==> (#[trigger] partition.window_values@[i])
                <= 0xFFFF,
    ensures
        point_class(r) == gmod(dot(ints_of_u32s(partition.window_values@), classes(points@))),
{
    let values = unsigned_digits(&partition.window_values);
    proof {
        assert(ints_of_i64s(values@) =~= ints_of_u32s(partition.window_values@));
    }
    let dmax = max_magnitude(&values);
    subsum_reduce(&values, points, dmax)
}

/// Combine the partitions' partial sums into the final point, each
/// partition computed by the sub-sum reducer, the windows folded in
/// descending order with `c` doublings per window.
pub fn subsum_combine_partitioned_msm(
    partitions: &[SubsumMsmPartition],
    points: &[Point],
    window_size: usize,
) -> (r: Point)
    requires
        1 <= window_size <= 16,
        forall|j: int|
            0 <= j < partitions@.len() ==> (#[trigger] partitions@[j]).window_values@.len()
                == points@.len(),
        forall|j: int, i: int|
            0 <= j < partitions@.len() && 0 <= i < points@.len() ==> (#[trigger] partitions@[j].window_values@[i])
                < pow2(window_size as nat),
    ensures
        point_class(r) == gmod(
            horner(subsum_partition_dots(partitions@, points@), 0, window_size as nat),
        ),
{
    proof {
        lemma2_to64();
        if window_size < 16 {
            lemma_pow2_strictly_increases(window_size as nat, 16);
        }
    }
    let ghost dots = subsum_partition_dots(partitions@, points@);
    let mut partial_sums: Vec<Point> = Vec::new();
    let mut j: usize = 0;
    while j < partitions.len()
        invariant
            j <= partitions@.len(),
            partial_sums@.len() == j,
            1 <= window_size <= 16,
            pow2(window_size as nat) <= 0x1_0000,
            forall|jj: int|
                0 <= jj < partitions@.len() ==> (#[trigger] partitions@[jj]).window_values@.len()
                    == points@.len(),
            forall|jj: int, i: int|
                0 <= jj < partitions@.len() && 0 <= i < points@.len() ==> (
                #[trigger] partitions@[jj].window_values@[i]) < pow2(window_size as nat),
            dots == subsum_partition_dots(partitions@, points@),
            forall|k: int|
                0 <= k < j ==> point_class(#[trigger] partial_sums@[k]) == gmod(dots[k]),
        decreases partitions@.len() - j,
    {
        let partial = subsum_compute_msm_for_partition(&partitions[j], points);
        partial_sums.push(partial);
        j = j + 1;
    }
    let result = combine_partial_sums(&partial_sums, window_size);
    proof {
        assert forall|k: int| 0 <= k < dots.len() implies gmod(
            #[trigger] classes(partial_sums@)[k],
        ) == gmod(dots[k]) by {
            lemma_gmod_twice(dots[k]);
        }
        lemma_horner_congruent(classes(partial_sums@), dots, 0, window_size as nat);
    }
    result
}

/// Multi-scalar multiplication by Pippenger with sub-sum accumulation:
/// returns the sum over all pairs of `scalars[i]` times `points[i]`.
pub fn subsum_pippenger(points: &[Point], scalars: &[u32], window_size: usize) -> (r: Point)
    requires
        points@.len() == scalars@.len(),
        1 <= window_size <= 16,
    ensures
        point_class(r) == msm_class(points@, scalars@),
{
    let partitions = subsum_partition_msm(scalars, window_size);
    proof {
        let c = window_size as nat;
        assert forall|j: int, i: int|
            0 <= j < partitions@.len() && 0 <= i < points@.len() implies (
        #[trigger] partitions@[j].window_values@[i]) < pow2(c) by {
            lemma_window_digit_bound(scalars@[i], j as nat, c);
        }
    }
    let result = subsum_combine_partitioned_msm(&partitions, points, window_size);
    proof {
        let c = window_size as nat;
        let mat = subsum_partition_rows(partitions@);
        let cls = classes(points@);
        lemma_window_count(c);
        assert forall|i: int| 0 <= i < scalars@.len() implies crate::windows::column_pow_sum(
            mat,
            i,
            c,
            mat.len() as int,
        ) == scalars@[i] as int by {
            lemma_digit_columns(mat, scalars@, c, i);
        }
        lemma_windows_total_from_columns(mat, cls, scalars@, c);
        assert(Seq::new(mat.len(), |j: int| dot(mat[j], cls)) =~= subsum_partition_dots(
            partitions@,
            points@,
        ));
    }
    result
}

} // verus!
