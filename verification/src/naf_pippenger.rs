//! Pippenger with signed-digit recoding and per-bucket scalar weighting:
//! the unsigned windows are recoded into signed digits, each window is
//! reduced by scalar-multiplying every bucket sum by its digit magnitude,
//! and each window's result is weighted by doubling it `bit_index` times
//! before the final sum.

use crate::combine::{bit_weighted, combine_indexed_partials, lemma_bit_weighted_congruent,
    lemma_bit_weighted_is_pow_weighted};
use crate::curve::{gmod, lemma_gmod_twice, point_class, Point};
use crate::recode::{
    lemma_recoded_digit_range, lemma_recoded_matrix_columns, recode_windows, recoded_digit,
};
use crate::reduce::{copy_digits, copy_values, max_magnitude, scaled_bucket_reduce};
use crate::sums::{classes, column, dot, ints_of_i64s, ints_of_u32s, msm_class, rows_of_u32s};
use crate::windows::{
    horner, lemma_window_count, lemma_window_digit_bound, lemma_windows_total_from_columns,
    window_count, window_digit, window_values_at,
};
use vstd::arithmetic::mul::lemma_mul_inequality;
use vstd::arithmetic::power2::{lemma2_to64, lemma_pow2_strictly_increases, pow2};
use vstd::prelude::*;

verus! {

/// One unsigned window of the scalars.
#[derive(Clone)]
pub struct NafMsmPartition {
    pub bit_index: usize,
    pub window_values: Vec<u32>,
}

/// One window of signed digits after the decomposition.
pub struct NafMsmPartitionDecomposed {
    pub bit_index: usize,
    pub window_values: Vec<i64>,
}

/// The partitions are exactly the c-bit window decomposition of the
/// scalars.
pub open spec fn naf_partitions_wf(ps: Seq<NafMsmPartition>, scalars: Seq<u32>, c: nat) -> bool {
    &&& ps.len() == window_count(c)
    &&& forall|j: int| 0 <= j < ps.len() ==> (#[trigger] ps[j]).bit_index == j * c
    &&& forall|j: int|
        0 <= j < ps.len() ==> (#[trigger] ps[j]).window_values@.len() == scalars.len()
    &&& forall|j: int, i: int|
        0 <= j < ps.len() && 0 <= i < scalars.len() ==> (#[trigger] ps[j].window_values@[i])
            == window_digit(scalars[i], j as nat, c)
}

/// Each unsigned partition's window values, as integers.
pub open spec fn naf_rows(ps: Seq<NafMsmPartition>) -> Seq<Seq<int>> {
    Seq::new(ps.len(), |j: int| ints_of_u32s(ps[j].window_values@))
}

/// Each decomposed partition's signed digits, as integers.
pub open spec fn naf_decomposed_rows(ds: Seq<NafMsmPartitionDecomposed>) -> Seq<Seq<int>> {
    Seq::new(ds.len(), |j: int| ints_of_i64s(ds[j].window_values@))
}

/// The decomposed partitions are exactly the signed recoding of the given
/// unsigned window matrix: one more window, the same bit indices, and each
/// digit given by the carry recoding of its scalar's column.
pub open spec fn naf_decomposed_wf(
    ds: Seq<NafMsmPartitionDecomposed>,
    ps: Seq<NafMsmPartition>,
    c: nat,
) -> bool {
    let n = ps[0].window_values@.len();
    &&& ds.len() == ps.len() + 1
    &&& forall|j: int| 0 <= j < ps.len() ==> (#[trigger] ds[j]).bit_index == ps[j].bit_index
    &&& ds[ps.len() as int].bit_index == ps[ps.len() - 1].bit_index + c
    &&& forall|j: int| 0 <= j < ds.len() ==> (#[trigger] ds[j]).window_values@.len() == n
    &&& forall|j: int, i: int|
        0 <= j < ds.len() && 0 <= i < n ==> (#[trigger] ds[j].window_values@[i]) as int
            == recoded_digit(column(naf_rows(ps), i), c, j)
}

/// Each decomposed partition's contribution: the dot product of its signed
/// digits with the points' classes.
pub open spec fn naf_dots(ds: Seq<NafMsmPartitionDecomposed>, points: Seq<Point>) -> Seq<int> {
    Seq::new(ds.len(), |j: int| dot(ints_of_i64s(ds[j].window_values@), classes(points)))
}

/// Split the scalars into `ceil(32 / c)` unsigned windows of width `c`.
#[verifier::loop_isolation(false)]
pub fn naf_partition_msm(scalars: &[u32], window_size: usize) -> (partitions: Vec<NafMsmPartition>)
    requires
        1 <= window_size <= 16,
    ensures
        naf_partitions_wf(partitions@, scalars@, window_size as nat),
{
    proof {
        lemma_window_count(window_size as nat);
    }
    let num_partitions = (32 + window_size - 1) / window_size;
    let mut partitions: Vec<NafMsmPartition> = Vec::new();
    let mut partition_index: usize = 0;
    while partition_index < num_partitions
        invariant
            partition_index <= num_partitions,
            num_partitions == window_count(window_size as nat),
            partitions@.len() == partition_index,
            forall|j: int|
                0 <= j < partition_index ==> (#[trigger] partitions@[j]).bit_index == j
                    * window_size,
            forall|j: int|
                0 <= j < partition_index ==> (#[trigger] partitions@[j]).window_values@.len()
                    == scalars@.len(),
            forall|j: int, i: int|
                0 <= j < partition_index && 0 <= i < scalars@.len() ==> (#[trigger] partitions@[j].window_values@[i])
                    == window_digit(scalars@[i], j as nat, window_size as nat),
        decreases num_partitions - partition_index,
    {
        proof {
            lemma_mul_inequality(
                partition_index as int,
                window_count(window_size as nat) - 1,
                window_size as int,
            );
        }
        let bit_index = partition_index * window_size;
        let window_values = window_values_at(scalars, partition_index, window_size);
        partitions.push(NafMsmPartition { bit_index, window_values });
        partition_index = partition_index + 1;
    }
    partitions
}

/// Recode the unsigned windows into signed digits, appending the overflow
/// window at the next bit index.
#[verifier::loop_isolation(false)]
pub fn naf_decompose_partitions(partitions: &[NafMsmPartition], window_size: usize) -> (ds: Vec<
    NafMsmPartitionDecomposed,
>)
    requires
        1 <= window_size <= 16,
        1 <= partitions@.len() <= 32,
        forall|j: int|
            0 <= j < partitions@.len() ==> (#[trigger] partitions@[j]).bit_index == j
                * window_size,
        forall|j: int|
            0 <= j < partitions@.len() ==> (#[trigger] partitions@[j]).window_values@.len()
                == partitions@[0].window_values@.len(),
        forall|j: int, i: int|
            0 <= j < partitions@.len() && 0 <= i < partitions@[0].window_values@.len() ==> (
            #[trigger] partitions@[j].window_values@[i]) < pow2(window_size as nat),
    ensures
        naf_decomposed_wf(ds@, partitions@, window_size as nat),
{
    let w = partitions.len();
    let n = partitions[0].window_values.len();
    let mut columns: Vec<Vec<u32>> = Vec::new();
    let mut j: usize = 0;
    while j < w
        invariant
            j <= w,
            columns@.len() == j,
            forall|k: int|
                0 <= k < j ==> (#[trigger] columns@[k])@ == partitions@[k].window_values@,
        decreases w - j,
    {
        columns.push(copy_values(&partitions[j].window_values));
        j = j + 1;
    }
    proof {
        assert(rows_of_u32s(columns@) =~= naf_rows(partitions@));
        assert forall|jj: int, i: int|
            0 <= jj < columns@.len() && 0 <= i < columns@[0]@.len() implies #[trigger] columns@[jj]@[i]
            < pow2(window_size as nat) by {
            assert(columns@[jj]@[i] == partitions@[jj].window_values@[i]);
        }
    }
    let recoded = recode_windows(&columns, window_size);
    let mut ds: Vec<NafMsmPartitionDecomposed> = Vec::new();
    let mut j: usize = 0;
    while j < w + 1
        invariant
            j <= w + 1,
            ds@.len() == j,
            w == partitions@.len(),
            n == partitions@[0].window_values@.len(),
            recoded@.len() == w + 1,
            forall|k: int| 0 <= k < recoded@.len() ==> (#[trigger] recoded@[k])@.len() == n,
            forall|k: int, i: int|
                0 <= k < recoded@.len() && 0 <= i < n ==> #[trigger] recoded@[k]@[i] as int
                    == recoded_digit(
                    column(rows_of_u32s(columns@), i),
                    window_size as nat,
                    k,
                ),
            forall|k: int|
                0 <= k < j && k < w ==> (#[trigger] ds@[k]).bit_index == partitions@[k].bit_index,
            j > w ==> ds@[w as int].bit_index == partitions@[w - 1].bit_index + window_size,
            forall|k: int| 0 <= k < j ==> (#[trigger] ds@[k]).window_values@.len() == n,
            forall|k: int, i: int|
                0 <= k < j && 0 <= i < n ==> (#[trigger] ds@[k].window_values@[i]) as int
                    == recoded_digit(column(naf_rows(partitions@), i), window_size as nat, k),
        decreases w + 1 - j,
    {
        let bit_index = if j < w {
            partitions[j].bit_index
        } else {
            proof {
                lemma_mul_inequality(w - 1, 31, window_size as int);
            }
            partitions[w - 1].bit_index + window_size
        };
        let window_values = copy_digits(&recoded[j]);
        ds.push(NafMsmPartitionDecomposed { bit_index, window_values });
        j = j + 1;
    }
    ds
}

/// The bit index of each decomposed partition.
pub open spec fn naf_bits(ds: Seq<NafMsmPartitionDecomposed>) -> Seq<usize> {
    Seq::new(ds.len(), |j: int| ds[j].bit_index)
}

/// Compute one signed window's partial sum by bucket accumulation on
/// digit magnitudes, scalar-multiplying each bucket sum by its magnitude.
pub fn naf_compute_msm_for_partition(
    partition: &NafMsmPartitionDecomposed,
    points: &[Point],
) -> (r: Point)
    requires
        partition.window_values@.len() == points@.len(),
        forall|i: int|
            0 <= i < partition.window_values@.len() ==> -0xFFFF <= (
            #[trigger] partition.window_values@[i]) <= 0xFFFF,
    ensures
        point_class(r) == gmod(dot(ints_of_i64s(partition.window_values@), classes(points@))),
{
    let dmax = max_magnitude(&partition.window_values);
    scaled_bucket_reduce(&partition.window_values, points, dmax)
}

/// Combine the decomposed partitions into the final point: each window's
/// partial sum is doubled `bit_index` times, which weights it by
/// `2^bit_index`, and the weighted results are summed.
pub fn naf_combine_partitioned_msm(partitions: &[NafMsmPartitionDecomposed], points: &[Point]) -> (r:
    Point)
    requires
        forall|j: int|
            0 <= j < partitions@.len() ==> (#[trigger] partitions@[j]).window_values@.len()
                == points@.len(),
        forall|j: int, i: int|
            0 <= j < partitions@.len() && 0 <= i < points@.len() ==> -0xFFFF <= (
            #[trigger] partitions@[j].window_values@[i]) <= 0xFFFF,
    ensures
        point_class(r) == gmod(
            bit_weighted(
                naf_dots(partitions@, points@),
                naf_bits(partitions@),
                partitions@.len() as int,
            ),
        ),
{
    let ghost dots = naf_dots(partitions@, points@);
    let mut partial_sums: Vec<Point> = Vec::new();
    let mut bit_indexes: Vec<usize> = Vec::new();
    let mut j: usize = 0;
    while j < partitions.len()
        invariant
            j <= partitions@.len(),
            partial_sums@.len() == j,
            bit_indexes@.len() == j,
            forall|jj: int|
                0 <= jj < partitions@.len() ==> (#[trigger] partitions@[jj]).window_values@.len()
                    == points@.len(),
            forall|jj: int, i: int|
                0 <= jj < partitions@.len() && 0 <= i < points@.len() ==> -0xFFFF <= (
                #[trigger] partitions@[jj].window_values@[i]) <= 0xFFFF,
            dots == naf_dots(partitions@, points@),
            forall|k: int|
                0 <= k < j ==> point_class(#[trigger] partial_sums@[k]) == gmod(dots[k]),
            forall|k: int| 0 <= k < j ==> #[trigger] bit_indexes@[k] == partitions@[k].bit_index,
        decreases partitions@.len() - j,
    {
        let partial = naf_compute_msm_for_partition(&partitions[j], points);
        partial_sums.push(partial);
        bit_indexes.push(partitions[j].bit_index);
        j = j + 1;
    }
    let result = combine_indexed_partials(&partial_sums, &bit_indexes);
    proof {
        assert forall|k: int| 0 <= k < dots.len() implies gmod(
            #[trigger] classes(partial_sums@)[k],
        ) == gmod(dots[k]) by {
            lemma_gmod_twice(dots[k]);
        }
        assert(bit_indexes@ =~= naf_bits(partitions@));
        lemma_bit_weighted_congruent(
            classes(partial_sums@),
            dots,
            naf_bits(partitions@),
            partitions@.len() as int,
        );
    }
    result
}

/// Multi-scalar multiplication by Pippenger with signed-digit recoding
/// and per-bucket scalar weighting: returns the sum over all pairs of
/// `scalars[i]` times `points[i]`.
pub fn naf_pippenger(points: &[Point], scalars: &[u32], window_size: usize) -> (r: Point)
    requires
        points@.len() == scalars@.len(),
        1 <= window_size <= 16,
    ensures
        point_class(r) == msm_class(points@, scalars@),
{
    let partitions = naf_partition_msm(scalars, window_size);
    proof {
        let c = window_size as nat;
        lemma_window_count(c);
        assert forall|j: int, i: int|
            0 <= j < partitions@.len() && 0 <= i < scalars@.len() implies (
        #[trigger] partitions@[j].window_values@[i]) < pow2(c) by {
            lemma_window_digit_bound(scalars@[i], j as nat, c);
        }
    }
    let decomposed_partitions = naf_decompose_partitions(&partitions, window_size);
    proof {
        let c = window_size as nat;
        assert forall|j: int, i: int|
            0 <= j < decomposed_partitions@.len() && 0 <= i < points@.len() implies -0xFFFF <= (
        #[trigger] decomposed_partitions@[j].window_values@[i]) <= 0xFFFF by {
            vstd::arithmetic::power2::lemma_pow2_pos((window_size - 1) as nat);
            lemma2_to64();
            if window_size - 1 < 16 {
                lemma_pow2_strictly_increases((window_size - 1) as nat, 16);
            }
            assert((c - 1) as nat == (window_size - 1) as nat);
            lemma_recoded_digit_range(column(naf_rows(partitions@), i), c, j);
            assert(column(naf_rows(partitions@), i).len() == partitions@.len());
            assert forall|jj: int| 0 <= jj < partitions@.len() implies 0 <= #[trigger] column(
                naf_rows(partitions@),
                i,
            )[jj] < pow2(c) by {
                lemma_window_digit_bound(scalars@[i], jj as nat, c);
            }
            assert(decomposed_partitions@[j].window_values@[i] as int == recoded_digit(
                column(naf_rows(partitions@), i),
                c,
                j,
            ));
        }
    }
    let result = naf_combine_partitioned_msm(&decomposed_partitions, points);
    proof {
        let c = window_size as nat;
        let mat_u = naf_rows(partitions@);
        let mat_s = naf_decomposed_rows(decomposed_partitions@);
        let cls = classes(points@);
        let w = partitions@.len() as int;
        lemma_window_count(c);
        lemma_recoded_matrix_columns(mat_u, mat_s, scalars@, c);
        lemma_windows_total_from_columns(mat_s, cls, scalars@, c);
        let dots = naf_dots(decomposed_partitions@, points@);
        assert(Seq::new(mat_s.len(), |j: int| dot(mat_s[j], cls)) =~= dots);
        assert forall|t: int| 0 <= t < naf_bits(decomposed_partitions@).len() implies #[trigger] naf_bits(
            decomposed_partitions@,
        )[t] == t * c by {
            if t < w {
                assert(decomposed_partitions@[t].bit_index == partitions@[t].bit_index);
            } else {
                assert(decomposed_partitions@[t].bit_index == partitions@[w - 1].bit_index + c);
                assert((w - 1) * c + c == w * c) by (nonlinear_arith);
            }
        }
        lemma_bit_weighted_is_pow_weighted(
            dots,
            naf_bits(decomposed_partitions@),
            c,
            dots.len() as int,
        );
        assert(dots.take(dots.len() as int) =~= dots);
        crate::windows::lemma_horner_is_pow_weighted(dots, 0, c);
        assert(pow2(0) == 1) by {
            lemma2_to64();
        }
        assert(0 * c == 0) by (nonlinear_arith);
        assert(1 * horner(dots, 0, c) == horner(dots, 0, c)) by (nonlinear_arith);
    }
    result
}

} // verus!
