//! The window layer of the parallel Pippenger MSM: partitioning and the
//! per-window reverse-scan reduction. One worker runs the reduction per
//! window; the fan-out across workers and the join-side combiner live with
//! the program embedding this library, which folds the collected partial
//! sums with `combine::combine_partial_sums`.

use crate::curve::{gmod, point_class, Point};
use crate::reduce::{rev_scan_reduce, unsigned_digits};
use crate::sums::{classes, dot, ints_of_i64s, ints_of_u32s};
use crate::windows::{lemma_window_count, window_count, window_digit, window_values_at};
use vstd::arithmetic::mul::lemma_mul_inequality;
use vstd::arithmetic::power2::{lemma2_to64, lemma_pow2_strictly_increases, pow2};
use vstd::bits::lemma_u32_shl_is_mul;
use vstd::prelude::*;

verus! {

/// One window of the scalars: the starting bit of the window, and each
/// scalar's window value.
#[derive(Clone)]
pub struct ParallelMsmPartition {
    pub bit_index: usize,
    pub window_values: Vec<u32>,
}

/// The partitions are exactly the c-bit window decomposition of the
/// scalars: one partition per window, starting at bit `j * c`, holding
/// every scalar's window digit.
pub open spec fn parallel_partitions_wf(ps: Seq<ParallelMsmPartition>, scalars: Seq<u32>, c: nat) -> bool {
    &&& ps.len() == window_count(c)
    &&& forall|j: int| 0 <= j < ps.len() ==> (#[trigger] ps[j]).bit_index == j * c
    &&& forall|j: int|
        0 <= j < ps.len() ==> (#[trigger] ps[j]).window_values@.len() == scalars.len()
    &&& forall|j: int, i: int|
        0 <= j < ps.len() && 0 <= i < scalars.len() ==> (#[trigger] ps[j].window_values@[i])
            == window_digit(scalars[i], j as nat, c)
}

/// Each partition's window values, as integers.
pub open spec fn parallel_partition_rows(ps: Seq<ParallelMsmPartition>) -> Seq<Seq<int>> {
    Seq::new(ps.len(), |j: int| ints_of_u32s(ps[j].window_values@))
}

/// Each partition's contribution: the dot product of its window values
/// with the points' classes.
pub open spec fn parallel_partition_dots(ps: Seq<ParallelMsmPartition>, points: Seq<Point>) -> Seq<int> {
    Seq::new(ps.len(), |j: int| dot(ints_of_u32s(ps[j].window_values@), classes(points)))
}

/// Split the scalars into `ceil(32 / c)` windows of width `c`: partition
/// `j` holds bit index `j * c` and every scalar's digit at that window.
#[verifier::loop_isolation(false)]
pub fn parallel_partition_msm(scalars: &[u32], window_size: usize) -> (partitions: Vec<ParallelMsmPartition>)
    requires
        1 <= window_size <= 16,
    ensures
        parallel_partitions_wf(partitions@, scalars@, window_size as nat),
{
    proof {
        lemma_window_count(window_size as nat);
    }
    let num_partitions = (32 + window_size - 1) / window_size;
    let mut partitions: Vec<ParallelMsmPartition> = Vec::new();
    let mut partition_index: usize = 0;
    while partition_index < num_partitions
        invariant
            partition_index <= num_partitions,
            num_partitions == window_count(window_size as nat),
            partitions@.len() == partition_index,
            forall|j: int|
                0 <= j < partition_index ==> (#[trigger] partitions@[j]).bit_index == j
                    * window_size,
            forall|j: int|
                0 <= j < partition_index ==> (#[trigger] partitions@[j]).window_values@.len()
                    == scalars@.len(),
            forall|j: int, i: int|
                0 <= j < partition_index && 0 <= i < scalars@.len() ==> (#[trigger] partitions@[j].window_values@[i])
                    == window_digit(scalars@[i], j as nat, window_size as nat),
        decreases num_partitions - partition_index,
    {
        proof {
            lemma_mul_inequality(
                partition_index as int,
                window_count(window_size as nat) - 1,
                window_size as int,
            );
        }
        let bit_index = partition_index * window_size;
        let window_values = window_values_at(scalars, partition_index, window_size);
        partitions.push(ParallelMsmPartition { bit_index, window_values });
        partition_index = partition_index + 1;
    }
    partitions
}

/// Compute one window's partial sum by bucket accumulation and the
/// reverse scan: a point whose class is the dot product of the window's
/// values with the points' classes, modulo the group order.
pub fn parallel_compute_msm_for_partition(partition: &ParallelMsmPartition, points: &[Point], window_size: usize) -> (r:
    Point)
    requires
        1 <= window_size <= 16,
        partition.window_values@.len() == points@.len(),
        forall|i: int|
            0 <= i < partition.window_values@.len() ==> (#[trigger] partition.window_values@[i])
                < pow2(window_size as nat),
    ensures
        point_class(r) == gmod(dot(ints_of_u32s(partition.window_values@), classes(points@))),
{
    proof {
        lemma2_to64();
        if window_size < 16 {
            lemma_pow2_strictly_increases(window_size as nat, 16);
        }
        lemma_pow2_strictly_increases(0, window_size as nat);
        lemma_u32_shl_is_mul(1u32, window_size as u32);
    }
    let values = unsigned_digits(&partition.window_values);
    proof {
        assert(ints_of_i64s(values@) =~= ints_of_u32s(partition.window_values@));
    }
    let max_scalar_value = ((1u32 << window_size) - 1) as usize;
    rev_scan_reduce(&values, points, max_scalar_value)
}

} // verus!
