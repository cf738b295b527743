use msm::curve::{random_points, Point};
use msm::operations::add_points;
use msm::parallel_sid_subsum_pippenger::{
    parallel_sid_subsum_compute_msm_for_partition, parallel_sid_subsum_decompose_partitions,
    parallel_sid_subsum_partition_msm, ParallelSidSubsumMsmPartition,
    ParallelSidSubsumMsmPartitionDecomposed,
};

use std::collections::HashMap;

#[test]
// Test for Step 1 Part 1: Number of partitions should be 32/c. c == window_size
fn test_parallel_sid_subsum_partition_msm() {
    let scalars = vec![182, 255, 129];
    let window_size = 2;
    let partitions = parallel_sid_subsum_partition_msm(&scalars, window_size);

    assert_eq!(partitions.len(), 32 / window_size, "Incorrect number of partitions");
}

#[test]
// Test for Step 1 Part 1: Testing behaviour of partition_msm when partitions does not divide window_size
fn test_parallel_sid_subsum_partition_msm_1() {
    let scalars = vec![182, 255, 129];
    let window_size = 3;
    let partitions = parallel_sid_subsum_partition_msm(&scalars, window_size);

    // The number of partitions should be (32/window_size).ceil() i.e. 11 when scalars are u32 bit integeres and window_size = 3
    assert_eq!(partitions.len(), 11, "Incorrect number of partitions");
}

#[test]
// Test for Step 1 Part 2: Bit_index should be (i * window_size)
fn test_parallel_sid_subsum_partition_msm_2() {
    let scalars = vec![182, 255, 129];
    let window_size = 2;
    let partitions = parallel_sid_subsum_partition_msm(&scalars, window_size);

    for (i, partition) in partitions.iter().enumerate() {
        assert_eq!(partition.bit_index, i * window_size, "Incorrect bit_index");
    }
}

#[test]
// Test for Step 1 Part 3: Testing correctness of window_values
fn test_parallel_sid_subsum_partition_msm_3() {
    let scalars = vec![182, 255, 129];
    let window_size = 2;
    let partitions = parallel_sid_subsum_partition_msm(&scalars, window_size);

    // Manually calculated expected window values for each scalar
    let expected_values: Vec<Vec<u32>> = vec![
        vec![2, 1, 3, 2, 0, 0, 0, 0, 0, 0, 0, 0, 0, 0, 0, 0], // For 182 (10110110)
        vec![3, 3, 3, 3, 0, 0, 0, 0, 0, 0, 0, 0, 0, 0, 0, 0], // For 255 (11111111)
        vec![1, 0, 0, 2, 0, 0, 0, 0, 0, 0, 0, 0, 0, 0, 0, 0], // For 129 (10000001)
    ];

    for (i, partition) in partitions.iter().enumerate() {
        for (j, &scalar) in scalars.iter().enumerate() {
            let expected = expected_values[j][i];
            println!("Exp: {:?}", expected);
            let actual = (scalar >> (i * window_size)) & ((1 << window_size) - 1);
            println!("Actual: {:?}", actual);
            assert_eq!(
                actual, expected,
                "Incorrect window value for scalar {} in partition {}",
                scalar, i
            );
            assert_eq!(partition.window_values[j], expected);
        }
    }
}

// Test for Signed Integer Decomposition Step
#[test]
fn test_parallel_sid_subsum_decompose_partitions() {
    let window_size = 2; // Example window size
    // Define a partition with window values within the correct range for a window_size of 2
    let partitions = vec![ParallelSidSubsumMsmPartition {
        bit_index: 0,
        window_values: vec![3, 1, 2, 3, 1],
    }]; // Adjusted values

    // Perform decomposition
    let decomposed_partitions =
        parallel_sid_subsum_decompose_partitions(&partitions, window_size);

    let expected_decomposed_values = vec![vec![-1, 1, -2, -1, 1]];

    // Compare decomposed window values against expected values
    decomposed_partitions
        .iter()
        .zip(expected_decomposed_values.iter())
        .for_each(|(decomposed, expected)| {
            assert_eq!(
                decomposed.window_values, *expected,
                "Decomposition did not produce the expected result"
            );
        });
}

#[test]
// Test for Step 2: Compute MSM for each partition
fn test_parallel_sid_subsum_compute_msm_for_partition() {
    let points = random_points(10);
    let partitions = ParallelSidSubsumMsmPartition {
        bit_index: 0,
        window_values: vec![1, 0, 1, 0, 1, 0, 1, 0, 1, 0],
    };
    let window_size = 2;
    let decomposed_partitions =
        parallel_sid_subsum_decompose_partitions(&[partitions], window_size);

    // Initialise an accumulator for MSM results from each partition
    let mut total_msm_result = Point::zero();

    // Iterate over each decomposed partition and compute its MSM contribution
    for decomposed_partition in decomposed_partitions.iter() {
        let msm_result =
            parallel_sid_subsum_compute_msm_for_partition(decomposed_partition, &points);
        // Accumulate the MSM result from each partition
        total_msm_result = add_points(total_msm_result, msm_result);
    }

    // Compare against the expected result
    let expected_result = points
        .iter()
        .step_by(2)
        .fold(Point::zero(), |acc, &p| add_points(acc, p));
    assert!(
        total_msm_result.equals(&expected_result),
        "MSM computation for partition failed"
    );
}

// Test for Step 2: Bucket negative values in same bucket as positive values if absolute value is equal
#[test]
fn test_parallel_sid_subsum_compute_msm_for_partition_2() {
    // Define a decomposed partition with a mix of positive, negative, and zero window values
    let decomposed_partition = ParallelSidSubsumMsmPartitionDecomposed {
        bit_index: 0,
        window_values: vec![2, -2, 3, -3, 0, 1, -1, 0, 2, -2],
    };

    // Generate dummy points (the actual points are not relevant for bucket count verification)
    let points = random_points(10);

    // Utilise the parallel_sid_subsum_compute_msm_for_partition function to process the decomposed partition
    let _ = parallel_sid_subsum_compute_msm_for_partition(&decomposed_partition, &points);

    // Extract the bucketing logic for verification purposes
    let mut buckets: HashMap<u32, Vec<usize>> = HashMap::new();
    for (index, &value) in decomposed_partition.window_values.iter().enumerate() {
        if value != 0 {
            let abs_value = value.abs() as u32;
            buckets.entry(abs_value).or_insert_with(Vec::new).push(index);
        }
    }

    let expected_bucket_count = 3;
    let actual_bucket_count = buckets.len();

    assert_eq!(
        actual_bucket_count, expected_bucket_count,
        "The number of buckets does not match the expected count."
    );
}
