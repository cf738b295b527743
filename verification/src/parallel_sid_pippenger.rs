//! The window layer of parallel Pippenger with signed integer
//! decomposition: partitioning, recoding, and the per-window signed
//! reverse-scan reduction. The fan-out across one worker per window and
//! the join-side combiner live with the program embedding this library,
//! which folds the collected partial sums with
//! `combine::combine_partial_sums`.

use crate::curve::{gmod, point_class, Point};
use crate::recode::{recode_windows, recoded_digit};
use crate::reduce::{copy_digits, copy_values, rev_scan_reduce};
use crate::sums::{classes, column, dot, ints_of_i64s, ints_of_u32s, rows_of_u32s};
use crate::windows::{lemma_window_count, window_count, window_digit, window_values_at};
use vstd::arithmetic::mul::lemma_mul_inequality;
use vstd::arithmetic::power2::{lemma2_to64, lemma_pow2_strictly_increases, pow2};
use vstd::bits::lemma_u32_shl_is_mul;
use vstd::prelude::*;

verus! {

/// One unsigned window of the scalars.
#[derive(Clone)]
pub struct ParallelSidMsmPartition {
    pub bit_index: usize,
    pub window_values: Vec<u32>,
}

/// One window of signed digits after the decomposition.
#[derive(Clone)]
pub struct ParallelSidMsmPartitionDecomposed {
    pub bit_index: usize,
    pub window_values: Vec<i64>,
}

/// The partitions are exactly the c-bit window decomposition of the
/// scalars.
pub open spec fn parallel_sid_partitions_wf(ps: Seq<ParallelSidMsmPartition>, scalars: Seq<u32>, c: nat) -> bool {
    &&& ps.len() == window_count(c)
    &&& forall|j: int| 0 <= j < ps.len() ==> (#[trigger] ps[j]).bit_index == j * c
    &&& forall|j: int|
        0 <= j < ps.len() ==> (#[trigger] ps[j]).window_values@.len() == scalars.len()
    &&& forall|j: int, i: int|
        0 <= j < ps.len() && 0 <= i < scalars.len() ==> (#[trigger] ps[j].window_values@[i])
            == window_digit(scalars[i], j as nat, c)
}

/// Each unsigned partition's window values, as integers.
pub open spec fn parallel_sid_rows(ps: Seq<ParallelSidMsmPartition>) -> Seq<Seq<int>> {
    Seq::new(ps.len(), |j: int| ints_of_u32s(ps[j].window_values@))
}

/// Each decomposed partition's signed digits, as integers.
pub open spec fn parallel_sid_decomposed_rows(ds: Seq<ParallelSidMsmPartitionDecomposed>) -> Seq<Seq<int>> {
    Seq::new(ds.len(), |j: int| ints_of_i64s(ds[j].window_values@))
}

/// The decomposed partitions are exactly the signed recoding of the given
/// unsigned window matrix: one more window, the same bit indices, and each
/// digit given by the carry recoding of its scalar's column.
pub open spec fn parallel_sid_decomposed_wf(
    ds: Seq<ParallelSidMsmPartitionDecomposed>,
    ps: Seq<ParallelSidMsmPartition>,
    c: nat,
) -> bool {
    let n = ps[0].window_values@.len();
    &&& ds.len() == ps.len() + 1
    &&& forall|j: int| 0 <= j < ps.len() ==> (#[trigger] ds[j]).bit_index == ps[j].bit_index
    &&& ds[ps.len() as int].bit_index == ps[ps.len() - 1].bit_index + c
    &&& forall|j: int| 0 <= j < ds.len() ==> (#[trigger] ds[j]).window_values@.len() == n
    &&& forall|j: int, i: int|
        0 <= j < ds.len() && 0 <= i < n ==> (#[trigger] ds[j].window_values@[i]) as int
            == recoded_digit(column(parallel_sid_rows(ps), i), c, j)
}

/// Each decomposed partition's contribution: the dot product of its signed
/// digits with the points' classes.
pub open spec fn parallel_sid_dots(ds: Seq<ParallelSidMsmPartitionDecomposed>, points: Seq<Point>) -> Seq<int> {
    Seq::new(ds.len(), |j: int| dot(ints_of_i64s(ds[j].window_values@), classes(points)))
}

/// Split the scalars into `ceil(32 / c)` unsigned windows of width `c`.
#[verifier::loop_isolation(false)]
pub fn parallel_sid_partition_msm(scalars: &[u32], window_size: usize) -> (partitions: Vec<ParallelSidMsmPartition>)
    requires
        1 <= window_size <= 16,
    ensures
        parallel_sid_partitions_wf(partitions@, scalars@, window_size as nat),
{
    proof {
        lemma_window_count(window_size as nat);
    }
    let num_partitions = (32 + window_size - 1) / window_size;
    let mut partitions: Vec<ParallelSidMsmPartition> = Vec::new();
    let mut partition_index: usize = 0;
    while partition_index < num_partitions
        invariant
            partition_index <= num_partitions,
            num_partitions == window_count(window_size as nat),
            partitions@.len() == partition_index,
            forall|j: int|
                0 <= j < partition_index ==> (#[trigger] partitions@[j]).bit_index == j
                    * window_size,
            forall|j: int|
                0 <= j < partition_index ==> (#[trigger] partitions@[j]).window_values@.len()
                    == scalars@.len(),
            forall|j: int, i: int|
                0 <= j < partition_index && 0 <= i < scalars@.len() ==> (#[trigger] partitions@[j].window_values@[i])
                    == window_digit(scalars@[i], j as nat, window_size as nat),
        decreases num_partitions - partition_index,
    {
        proof {
            lemma_mul_inequality(
                partition_index as int,
                window_count(window_size as nat) - 1,
                window_size as int,
            );
        }
        let bit_index = partition_index * window_size;
        let window_values = window_values_at(scalars, partition_index, window_size);
        partitions.push(ParallelSidMsmPartition { bit_index, window_values });
        partition_index = partition_index + 1;
    }
    partitions
}

/// Recode the unsigned windows into signed digits, appending the overflow
/// window at the next bit index.
#[verifier::loop_isolation(false)]
pub fn parallel_sid_decompose_partitions(partitions: &[ParallelSidMsmPartition], window_size: usize) -> (ds: Vec<
    ParallelSidMsmPartitionDecomposed,
>)
    requires
        1 <= window_size <= 16,
        1 <= partitions@.len() <= 32,
        forall|j: int|
            0 <= j < partitions@.len() ==> (#[trigger] partitions@[j]).bit_index == j
                * window_size,
        forall|j: int|
            0 <= j < partitions@.len() ==> (#[trigger] partitions@[j]).window_values@.len()
                == partitions@[0].window_values@.len(),
        forall|j: int, i: int|
            0 <= j < partitions@.len() && 0 <= i < partitions@[0].window_values@.len() ==> (
            #[trigger] partitions@[j].window_values@[i]) < pow2(window_size as nat),
    ensures
        parallel_sid_decomposed_wf(ds@, partitions@, window_size as nat),
{
    let w = partitions.len();
    let n = partitions[0].window_values.len();
    let mut columns: Vec<Vec<u32>> = Vec::new();
    let mut j: usize = 0;
    while j < w
        invariant
            j <= w,
            columns@.len() == j,
            forall|k: int|
                0 <= k < j ==> (#[trigger] columns@[k])@ == partitions@[k].window_values@,
        decreases w - j,
    {
        columns.push(copy_values(&partitions[j].window_values));
        j = j + 1;
    }
    proof {
        assert(rows_of_u32s(columns@) =~= parallel_sid_rows(partitions@));
        assert forall|jj: int, i: int|
            0 <= jj < columns@.len() && 0 <= i < columns@[0]@.len() implies #[trigger] columns@[jj]@[i]
            < pow2(window_size as nat) by {
            assert(columns@[jj]@[i] == partitions@[jj].window_values@[i]);
        }
    }
    let recoded = recode_windows(&columns, window_size);
    let mut ds: Vec<ParallelSidMsmPartitionDecomposed> = Vec::new();
    let mut j: usize = 0;
    while j < w + 1
        invariant
            j <= w + 1,
            ds@.len() == j,
            w == partitions@.len(),
            n == partitions@[0].window_values@.len(),
            recoded@.len() == w + 1,
            forall|k: int| 0 <= k < recoded@.len() ==> (#[trigger] recoded@[k])@.len() == n,
            forall|k: int, i: int|
                0 <= k < recoded@.len() && 0 <= i < n ==> #[trigger] recoded@[k]@[i] as int
                    == recoded_digit(
                    column(rows_of_u32s(columns@), i),
                    window_size as nat,
                    k,
                ),
            forall|k: int|
                0 <= k < j && k < w ==> (#[trigger] ds@[k]).bit_index == partitions@[k].bit_index,
            j > w ==> ds@[w as int].bit_index == partitions@[w - 1].bit_index + window_size,
            forall|k: int| 0 <= k < j ==> (#[trigger] ds@[k]).window_values@.len() == n,
            forall|k: int, i: int|
                0 <= k < j && 0 <= i < n ==> (#[trigger] ds@[k].window_values@[i]) as int
                    == recoded_digit(column(parallel_sid_rows(partitions@), i), window_size as nat, k),
        decreases w + 1 - j,
    {
        let bit_index = if j < w {
            partitions[j].bit_index
        } else {
            proof {
                lemma_mul_inequality(w - 1, 31, window_size as int);
            }
            partitions[w - 1].bit_index + window_size
        };
        let window_values = copy_digits(&recoded[j]);
        ds.push(ParallelSidMsmPartitionDecomposed { bit_index, window_values });
        j = j + 1;
    }
    ds
}

/// Compute one signed window's partial sum by bucket accumulation on
/// digit magnitudes and the reverse scan.
pub fn parallel_sid_compute_msm_for_partition(
    partition: &ParallelSidMsmPartitionDecomposed,
    points: &[Point],
    window_size: usize,
) -> (r: Point)
    requires
        1 <= window_size <= 16,
        partition.window_values@.len() == points@.len(),
        forall|i: int|
            0 <= i < partition.window_values@.len() ==> -pow2((window_size - 1) as nat) <= (
            #[trigger] partition.window_values@[i]) <= pow2((window_size - 1) as nat),
    ensures
        point_class(r) == gmod(dot(ints_of_i64s(partition.window_values@), classes(points@))),
{
    proof {
        lemma2_to64();
        if window_size - 1 < 16 {
            lemma_pow2_strictly_increases((window_size - 1) as nat, 16);
        }
        lemma_u32_shl_is_mul(1u32, (window_size - 1) as u32);
    }
    let max_scalar_value = (1u32 << ((window_size - 1) as u32)) as usize;
    rev_scan_reduce(&partition.window_values, points, max_scalar_value)
}

} // verus!
