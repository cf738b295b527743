use msm::combine::{combine_indexed_partials, combine_partial_sums};
use msm::curve::{random_points, Point};
use msm::naf_pippenger::naf_pippenger;
use msm::naive::naive_msm;
use msm::operations::{add_points, scalar_multiply};
use msm::parallel_naf_pippenger::{
    parallel_naf_compute_msm_for_partition, parallel_naf_decompose_partitions,
    parallel_naf_partition_msm,
};
use msm::parallel_pippenger::{parallel_compute_msm_for_partition, parallel_partition_msm};
use msm::parallel_sid_pippenger::{
    parallel_sid_compute_msm_for_partition, parallel_sid_decompose_partitions,
    parallel_sid_partition_msm,
};
use msm::parallel_sid_subsum_pippenger::{
    parallel_sid_subsum_compute_msm_for_partition, parallel_sid_subsum_decompose_partitions,
    parallel_sid_subsum_partition_msm,
};
use msm::parallel_subsum_pippenger::{
    parallel_subsum_compute_msm_for_partition, parallel_subsum_partition_msm,
};
use msm::pippenger::pippenger;
use msm::sid_pippenger::{sid_decompose_partitions, sid_partition_msm, sid_pippenger};
use msm::sid_subsum_pippenger::sid_subsum_pippenger;
use msm::subsum_pippenger::subsum_pippenger;
use msm::trivial::trivial_msm;

use ark_std::rand::Rng;

fn generate_scalars(num_scalars: usize, bound: u32) -> Vec<u32> {
    let mut rng = ark_std::test_rng();
    (0..num_scalars).map(|_| rng.gen_range(0..bound)).collect()
}

// Every MSM entry point of the library, applied sequentially.
fn all_variants(points: &[Point], scalars: &[u32], window_size: usize) -> Vec<Point> {
    vec![
        naive_msm(points, scalars),
        trivial_msm(points, scalars),
        pippenger(points, scalars, window_size),
        subsum_pippenger(points, scalars, window_size),
        sid_pippenger(points, scalars, window_size),
        sid_subsum_pippenger(points, scalars, window_size),
        naf_pippenger(points, scalars, window_size),
    ]
}

#[test]
// A zero scalar yields the identity, for every window width 2..=4 and
// every variant.
fn test_zero_scalar_identity_every_width() {
    let points = vec![Point::generator()];
    let scalars = vec![0u32];
    assert!(!points[0].equals(&Point::zero()), "the generator is not the identity");
    for window_size in 2..5usize {
        for result in all_variants(&points, &scalars, window_size) {
            assert!(result.equals(&Point::zero()));
        }
    }
}

#[test]
// points = [P, P], scalars = [1, 2]: every variant returns 3 * P, for
// every window width 2..=4.
fn test_one_and_two_make_three() {
    let generator = Point::generator();
    let points = vec![generator, generator];
    let scalars = vec![1u32, 2u32];
    let expected = scalar_multiply(generator, 3);
    for window_size in 2..5usize {
        for result in all_variants(&points, &scalars, window_size) {
            assert!(result.equals(&expected));
        }
    }
}

#[test]
// A scalar with only a high-order bit set exercises the high windows.
fn test_high_order_window() {
    let points = random_points(1);
    let scalars = vec![1u32 << 30];
    let expected = scalar_multiply(points[0], 1u32 << 30);
    for window_size in 2..5usize {
        for result in all_variants(&points, &scalars, window_size) {
            assert!(result.equals(&expected));
        }
    }
}

#[test]
// The degenerate width 1 and the largest width 16 both work.
fn test_extreme_window_widths() {
    let points = random_points(4);
    let scalars = generate_scalars(4, 65536);
    let expected = naive_msm(&points, &scalars);
    for window_size in [1usize, 16usize] {
        for result in all_variants(&points, &scalars, window_size) {
            assert!(result.equals(&expected));
        }
    }
}

#[test]
// The signed recoding of unsigned windows [3, 1, 2, 3, 1] at width 2:
// signed digits [-1, 1, -2, -1, 1] and overflow carries [1, 0, 1, 1, 0]
// at the next bit index.
fn test_sid_decompose_exact_digits() {
    let partitions =
        vec![msm::sid_pippenger::SidMsmPartition { bit_index: 0, window_values: vec![3, 1, 2, 3, 1] }];
    let decomposed = sid_decompose_partitions(&partitions, 2);
    assert_eq!(decomposed.len(), 2);
    assert_eq!(decomposed[0].window_values, vec![-1, 1, -2, -1, 1]);
    assert_eq!(decomposed[1].window_values, vec![1, 0, 1, 1, 0]);
    assert_eq!(decomposed[0].bit_index, 0);
    assert_eq!(decomposed[1].bit_index, 2);
}

#[test]
// Full cross-consistency: 1000 random points, 1000 random 16-bit scalars,
// width 2; every sequential variant and the per-window cores of every
// parallel twin agree with the naive oracle.
fn test_cross_consistency_large() {
    let points = random_points(1000);
    let scalars = generate_scalars(1000, 65536);
    let window_size = 2;
    let expected = naive_msm(&points, &scalars);
    for result in all_variants(&points, &scalars, window_size) {
        assert!(result.equals(&expected));
    }

    // The parallel twins' per-window reductions, folded by the library's
    // join-side combiners.
    let ps = parallel_partition_msm(&scalars, window_size);
    let partials: Vec<Point> = ps
        .iter()
        .map(|p| parallel_compute_msm_for_partition(p, &points, window_size))
        .collect();
    assert!(combine_partial_sums(&partials, window_size).equals(&expected));

    let ps = parallel_subsum_partition_msm(&scalars, window_size);
    let partials: Vec<Point> = ps
        .iter()
        .map(|p| parallel_subsum_compute_msm_for_partition(p, &points))
        .collect();
    assert!(combine_partial_sums(&partials, window_size).equals(&expected));

    let ps = parallel_sid_partition_msm(&scalars, window_size);
    let ds = parallel_sid_decompose_partitions(&ps, window_size);
    let partials: Vec<Point> = ds
        .iter()
        .map(|p| parallel_sid_compute_msm_for_partition(p, &points, window_size))
        .collect();
    assert!(combine_partial_sums(&partials, window_size).equals(&expected));

    let ps = parallel_sid_subsum_partition_msm(&scalars, window_size);
    let ds = parallel_sid_subsum_decompose_partitions(&ps, window_size);
    let partials: Vec<Point> = ds
        .iter()
        .map(|p| parallel_sid_subsum_compute_msm_for_partition(p, &points))
        .collect();
    assert!(combine_partial_sums(&partials, window_size).equals(&expected));

    let ps = parallel_naf_partition_msm(&scalars, window_size);
    let ds = parallel_naf_decompose_partitions(&ps, window_size);
    let partials: Vec<Point> = ds
        .iter()
        .map(|p| parallel_naf_compute_msm_for_partition(p, &points))
        .collect();
    let bit_indexes: Vec<usize> = ds.iter().map(|p| p.bit_index).collect();
    assert!(combine_indexed_partials(&partials, &bit_indexes).equals(&expected));
}

#[test]
// Linearity in the scalars: msm(P, a) + msm(P, b) = msm(P, a + b) when no
// component addition overflows.
fn test_linearity_in_scalars() {
    let points = random_points(8);
    let left = generate_scalars(8, 65536);
    let right = generate_scalars(8, 65536);
    let total: Vec<u32> = left.iter().zip(right.iter()).map(|(a, b)| a + b).collect();
    let sum_of_parts = add_points(naive_msm(&points, &left), naive_msm(&points, &right));
    for window_size in 2..5usize {
        assert!(pippenger(&points, &total, window_size).equals(&sum_of_parts));
    }
}

#[test]
// Permutation invariance: jointly reversing points and scalars leaves the
// result unchanged.
fn test_permutation_invariance() {
    let points = random_points(9);
    let scalars = generate_scalars(9, 65536);
    let reversed_points: Vec<Point> = points.iter().rev().copied().collect();
    let reversed_scalars: Vec<u32> = scalars.iter().rev().copied().collect();
    let expected = sid_subsum_pippenger(&points, &scalars, 3);
    assert!(sid_subsum_pippenger(&reversed_points, &reversed_scalars, 3).equals(&expected));
}

#[test]
// The bit-indexed combiner weights a partial sum by two to the bit index.
fn test_combine_indexed_partials_weights() {
    let points = random_points(1);
    let partials = vec![points[0]];
    let bit_indexes = vec![3usize];
    let expected = scalar_multiply(points[0], 8);
    assert!(combine_indexed_partials(&partials, &bit_indexes).equals(&expected));
}

#[test]
// Scalars whose windows collide in one bucket: equal digits land in the
// same bucket and are still weighted correctly.
fn test_equal_scalars_share_buckets() {
    let points = random_points(6);
    let scalars = vec![7u32; 6];
    let expected = naive_msm(&points, &scalars);
    for result in all_variants(&points, &scalars, 2) {
        assert!(result.equals(&expected));
    }
}
