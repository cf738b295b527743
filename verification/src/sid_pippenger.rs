//! Pippenger with signed integer decomposition: the unsigned windows are
//! recoded into signed digits (halving the bucket count per window, with
//! one overflow window appended), reduced by the signed reverse scan, and
//! combined by the sequential double-and-add fold.

use crate::combine::{combine_partial_sums, lemma_horner_congruent};
use crate::curve::{gmod, lemma_gmod_twice, point_class, Point};
use crate::recode::{
    lemma_recoded_digit_range, lemma_recoded_matrix_columns, recode_windows, recoded_digit,
};
use crate::reduce::{copy_digits, copy_values, rev_scan_reduce};
use crate::sums::{classes, column, dot, ints_of_i64s, ints_of_u32s, msm_class, rows_of_u32s};
use crate::windows::{
    horner, lemma_window_count, lemma_window_digit_bound, lemma_windows_total_from_columns,
    window_count, window_digit, window_values_at,
};
use vstd::arithmetic::mul::lemma_mul_inequality;
use vstd::arithmetic::power2::{lemma2_to64, lemma_pow2_strictly_increases, pow2};
use vstd::bits::lemma_u32_shl_is_mul;
use vstd::prelude::*;

verus! {

/// One unsigned window of the scalars.
pub struct SidMsmPartition {
    pub bit_index: usize,
    pub window_values: Vec<u32>,
}

/// One window of signed digits after the decomposition.
pub struct SidMsmPartitionDecomposed {
    pub bit_index: usize,
    pub window_values: Vec<i64>,
}

/// The partitions are exactly the c-bit window decomposition of the
/// scalars.
pub open spec fn sid_partitions_wf(ps: Seq<SidMsmPartition>, scalars: Seq<u32>, c: nat) -> bool {
    &&& ps.len() == window_count(c)
    &&& forall|j: int| 0 <= j < ps.len() ==> (#[trigger] ps[j]).bit_index == j * c
    &&& forall|j: int|
        0 <= j < ps.len() ==> (#[trigger] ps[j]).window_values@.len() == scalars.len()
    &&& forall|j: int, i: int|
        0 <= j < ps.len() && 0 <= i < scalars.len() ==> (#[trigger] ps[j].window_values@[i])
            == window_digit(scalars[i], j as nat, c)
}

/// Each unsigned partition's window values, as integers.
pub open spec fn sid_rows(ps: Seq<SidMsmPartition>) -> Seq<Seq<int>> {
    Seq::new(ps.len(), |j: int| ints_of_u32s(ps[j].window_values@))
}

/// Each decomposed partition's signed digits, as integers.
pub open spec fn sid_decomposed_rows(ds: Seq<SidMsmPartitionDecomposed>) -> Seq<Seq<int>> {
    Seq::new(ds.len(), |j: int| ints_of_i64s(ds[j].window_values@))
}

/// The decomposed partitions are exactly the signed recoding of the given
/// unsigned window matrix: one more window, the same bit indices, and each
/// digit given by the carry recoding of its scalar's column.
pub open spec fn sid_decomposed_wf(
    ds: Seq<SidMsmPartitionDecomposed>,
    ps: Seq<SidMsmPartition>,
    c: nat,
) -> bool {
    let n = ps[0].window_values@.len();
    &&& ds.len() == ps.len() + 1
    &&& forall|j: int| 0 <= j < ps.len() ==> (#[trigger] ds[j]).bit_index == ps[j].bit_index
    &&& ds[ps.len() as int].bit_index == ps[ps.len() - 1].bit_index + c
    &&& forall|j: int| 0 <= j < ds.len() ==> (#[trigger] ds[j]).window_values@.len() == n
    &&& forall|j: int, i: int|
        0 <= j < ds.len() && 0 <= i < n ==> (#[trigger] ds[j].window_values@[i]) as int
            == recoded_digit(column(sid_rows(ps), i), c, j)
}

/// Each decomposed partition's contribution: the dot product of its signed
/// digits with the points' classes.
pub open spec fn sid_dots(ds: Seq<SidMsmPartitionDecomposed>, points: Seq<Point>) -> Seq<int> {
    Seq::new(ds.len(), |j: int| dot(ints_of_i64s(ds[j].window_values@), classes(points)))
}

/// Split the scalars into `ceil(32 / c)` unsigned windows of width `c`.
#[verifier::loop_isolation(false)]
pub fn sid_partition_msm(scalars: &[u32], window_size: usize) -> (partitions: Vec<SidMsmPartition>)
    requires
        1 <= window_size <= 16,
    ensures
        sid_partitions_wf(partitions@, scalars@, window_size as nat),
{
    proof {
        lemma_window_count(window_size as nat);
    }
    let num_partitions = (32 + window_size - 1) / window_size;
    let mut partitions: Vec<SidMsmPartition> = Vec::new();
    let mut partition_index: usize = 0;
    while partition_index < num_partitions
        invariant
            partition_index <= num_partitions,
            num_partitions == window_count(window_size as nat),
            partitions@.len() == partition_index,
            forall|j: int|
                0 <= j < partition_index ==> (#[trigger] partitions@[j]).bit_index == j
                    * window_size,
            forall|j: int|
                0 <= j < partition_index ==> (#[trigger] partitions@[j]).window_values@.len()
                    == scalars@.len(),
            forall|j: int, i: int|
                0 <= j < partition_index && 0 <= i < scalars@.len() ==> (#[trigger] partitions@[j].window_values@[i])
                    == window_digit(scalars@[i], j as nat, window_size as nat),
        decreases num_partitions - partition_index,
    {
        proof {
            lemma_mul_inequality(
                partition_index as int,
                window_count(window_size as nat) - 1,
                window_size as int,
            );
        }
        let bit_index = partition_index * window_size;
        let window_values = window_values_at(scalars, partition_index, window_size);
        partitions.push(SidMsmPartition { bit_index, window_values });
        partition_index = partition_index + 1;
    }
    partitions
}

/// Recode the unsigned windows into signed digits, appending the overflow
/// window at the next bit index.
#[verifier::loop_isolation(false)]
pub fn sid_decompose_partitions(partitions: &[SidMsmPartition], window_size: usize) -> (ds: Vec<
    SidMsmPartitionDecomposed,
>)
    requires
        1 <= window_size <= 16,
        1 <= partitions@.len() <= 32,
        forall|j: int|
            0 <= j < partitions@.len() ==> (#[trigger] partitions@[j]).bit_index == j
                * window_size,
        forall|j: int|
            0 <= j < partitions@.len() ==> (#[trigger] partitions@[j]).window_values@.len()
                == partitions@[0].window_values@.len(),
        forall|j: int, i: int|
            0 <= j < partitions@.len() && 0 <= i < partitions@[0].window_values@.len() ==> (
            #[trigger] partitions@[j].window_values@[i]) < pow2(window_size as nat),
    ensures
        sid_decomposed_wf(ds@, partitions@, window_size as nat),
{
    let w = partitions.len();
    let n = partitions[0].window_values.len();
    let mut columns: Vec<Vec<u32>> = Vec::new();
    let mut j: usize = 0;
    while j < w
        invariant
            j <= w,
            columns@.len() == j,
            forall|k: int|
                0 <= k < j ==> (#[trigger] columns@[k])@ == partitions@[k].window_values@,
        decreases w - j,
    {
        columns.push(copy_values(&partitions[j].window_values));
        j = j + 1;
    }
    proof {
        assert(rows_of_u32s(columns@) =~= sid_rows(partitions@));
        assert forall|jj: int, i: int|
            0 <= jj < columns@.len() && 0 <= i < columns@[0]@.len() implies #[trigger] columns@[jj]@[i]
            < pow2(window_size as nat) by {
            assert(columns@[jj]@[i] == partitions@[jj].window_values@[i]);
        }
    }
    let recoded = recode_windows(&columns, window_size);
    let mut ds: Vec<SidMsmPartitionDecomposed> = Vec::new();
    let mut j: usize = 0;
    while j < w + 1
        invariant
            j <= w + 1,
            ds@.len() == j,
            w == partitions@.len(),
            n == partitions@[0].window_values@.len(),
            recoded@.len() == w + 1,
            forall|k: int| 0 <= k < recoded@.len() ==> (#[trigger] recoded@[k])@.len() == n,
            forall|k: int, i: int|
                0 <= k < recoded@.len() && 0 <= i < n ==> #[trigger] recoded@[k]@[i] as int
                    == recoded_digit(
                    column(rows_of_u32s(columns@), i),
                    window_size as nat,
                    k,
                ),
            forall|k: int|
                0 <= k < j && k < w ==> (#[trigger] ds@[k]).bit_index == partitions@[k].bit_index,
            j > w ==> ds@[w as int].bit_index == partitions@[w - 1].bit_index + window_size,
            forall|k: int| 0 <= k < j ==> (#[trigger] ds@[k]).window_values@.len() == n,
            forall|k: int, i: int|
                0 <= k < j && 0 <= i < n ==> (#[trigger] ds@[k].window_values@[i]) as int
                    == recoded_digit(column(sid_rows(partitions@), i), window_size as nat, k),
        decreases w + 1 - j,
    {
        let bit_index = if j < w {
            partitions[j].bit_index
        } else {
            proof {
                lemma_mul_inequality(w - 1, 31, window_size as int);
            }
            partitions[w - 1].bit_index + window_size
        };
        let window_values = copy_digits(&recoded[j]);
        ds.push(SidMsmPartitionDecomposed { bit_index, window_values });
        j = j + 1;
    }
    ds
}

/// Compute one signed window's partial sum by bucket accumulation on
/// digit magnitudes and the reverse scan.
pub fn sid_compute_msm_for_partition(
    partition: &SidMsmPartitionDecomposed,
    points: &[Point],
    window_size: usize,
) -> (r: Point)
    requires
        1 <= window_size <= 16,
        partition.window_values@.len() == points@.len(),
        forall|i: int|
            0 <= i < partition.window_values@.len() ==> -pow2((window_size - 1) as nat) <= (
            #[trigger] partition.window_values@[i]) <= pow2((window_size - 1) as nat),
    ensures
        point_class(r) == gmod(dot(ints_of_i64s(partition.window_values@), classes(points@))),
{
    proof {
        lemma2_to64();
        if window_size - 1 < 16 {
            lemma_pow2_strictly_increases((window_size - 1) as nat, 16);
        }
        lemma_u32_shl_is_mul(1u32, (window_size - 1) as u32);
    }
    let max_scalar_value = (1u32 << ((window_size - 1) as u32)) as usize;
    rev_scan_reduce(&partition.window_values, points, max_scalar_value)
}

/// Combine the decomposed partitions' partial sums into the final point,
/// each computed by the signed reverse-scan reducer, the windows folded in
/// descending order with `c` doublings per window.
pub fn sid_combine_partitioned_msm(
    partitions: &[SidMsmPartitionDecomposed],
    points: &[Point],
    window_size: usize,
) -> (r: Point)
    requires
        1 <= window_size <= 16,
        forall|j: int|
            0 <= j < partitions@.len() ==> (#[trigger] partitions@[j]).window_values@.len()
                == points@.len(),
        forall|j: int, i: int|
            0 <= j < partitions@.len() && 0 <= i < points@.len() ==> -pow2(
                (window_size - 1) as nat,
            ) <= (#[trigger] partitions@[j].window_values@[i]) <= pow2((window_size - 1) as nat),
    ensures
        point_class(r) == gmod(horner(sid_dots(partitions@, points@), 0, window_size as nat)),
{
    let ghost dots = sid_dots(partitions@, points@);
    let mut partial_sums: Vec<Point> = Vec::new();
    let mut j: usize = 0;
    while j < partitions.len()
        invariant
            j <= partitions@.len(),
            partial_sums@.len() == j,
            1 <= window_size <= 16,
            forall|jj: int|
                0 <= jj < partitions@.len() ==> (#[trigger] partitions@[jj]).window_values@.len()
                    == points@.len(),
            forall|jj: int, i: int|
                0 <= jj < partitions@.len() && 0 <= i < points@.len() ==> -pow2(
                    (window_size - 1) as nat,
                ) <= (#[trigger] partitions@[jj].window_values@[i]) <= pow2(
                    (window_size - 1) as nat,
                ),
            dots == sid_dots(partitions@, points@),
            forall|k: int|
                0 <= k < j ==> point_class(#[trigger] partial_sums@[k]) == gmod(dots[k]),
        decreases partitions@.len() - j,
    {
        let partial = sid_compute_msm_for_partition(&partitions[j], points, window_size);
        partial_sums.push(partial);
        j = j + 1;
    }
    let result = combine_partial_sums(&partial_sums, window_size);
    proof {
        assert forall|k: int| 0 <= k < dots.len() implies gmod(
            #[trigger] classes(partial_sums@)[k],
        ) == gmod(dots[k]) by {
            lemma_gmod_twice(dots[k]);
        }
        lemma_horner_congruent(classes(partial_sums@), dots, 0, window_size as nat);
    }
    result
}

/// Multi-scalar multiplication by Pippenger with signed integer
/// decomposition: returns the sum over all pairs of `scalars[i]` times
/// `points[i]`.
pub fn sid_pippenger(points: &[Point], scalars: &[u32], window_size: usize) -> (r: Point)
    requires
        points@.len() == scalars@.len(),
        1 <= window_size <= 16,
    ensures
        point_class(r) == msm_class(points@, scalars@),
{
    let partitions = sid_partition_msm(scalars, window_size);
    proof {
        let c = window_size as nat;
        lemma_window_count(c);
        assert forall|j: int, i: int|
            0 <= j < partitions@.len() && 0 <= i < scalars@.len() implies (
        #[trigger] partitions@[j].window_values@[i]) < pow2(c) by {
            lemma_window_digit_bound(scalars@[i], j as nat, c);
        }
    }
    let decomposed_partitions = sid_decompose_partitions(&partitions, window_size);
    proof {
        let c = window_size as nat;
        assert forall|j: int, i: int|
            0 <= j < decomposed_partitions@.len() && 0 <= i < points@.len() implies -pow2(
            (window_size - 1) as nat,
        ) <= (#[trigger] decomposed_partitions@[j].window_values@[i]) <= pow2(
            (window_size - 1) as nat,
        ) by {
            vstd::arithmetic::power2::lemma_pow2_pos((window_size - 1) as nat);
            assert((c - 1) as nat == (window_size - 1) as nat);
            lemma_recoded_digit_range(column(sid_rows(partitions@), i), c, j);
            assert(column(sid_rows(partitions@), i).len() == partitions@.len());
            assert(decomposed_partitions@[j].window_values@[i] as int == recoded_digit(
                column(sid_rows(partitions@), i),
                c,
                j,
            ));
            assert forall|jj: int| 0 <= jj < partitions@.len() implies 0 <= #[trigger] column(
                sid_rows(partitions@),
                i,
            )[jj] < pow2(c) by {
                lemma_window_digit_bound(scalars@[i], jj as nat, c);
            }
        }
    }
    let result = sid_combine_partitioned_msm(&decomposed_partitions, points, window_size);
    proof {
        let c = window_size as nat;
        let mat_u = sid_rows(partitions@);
        let mat_s = sid_decomposed_rows(decomposed_partitions@);
        let cls = classes(points@);
        lemma_window_count(c);
        lemma_recoded_matrix_columns(mat_u, mat_s, scalars@, c);
        lemma_windows_total_from_columns(mat_s, cls, scalars@, c);
        assert(Seq::new(mat_s.len(), |j: int| dot(mat_s[j], cls)) =~= sid_dots(
            decomposed_partitions@,
            points@,
        ));
    }
    result
}

} // verus!
