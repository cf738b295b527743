use msm::curve::{random_points, Point};
use msm::naive::naive_msm;
use msm::operations::{add_points, scalar_multiply};

#[test]
fn test_naive_msm_with_zero_scalars() {
    let points = random_points(2);
    let scalars = vec![0, 0]; // Zero scalars
    assert!(
        naive_msm(&points, &scalars).equals(&Point::zero()),
        "MSM with zero scalars should be the zero point"
    );
}

#[test]
fn test_naive_msm_with_mixed_scalars() {
    let points = random_points(2);
    let scalars = vec![1, 2]; // Mixed scalars
    // Compare against result from point addition and scalar multiplication
    let expected_result = add_points(
        scalar_multiply(points[0], scalars[0]),
        scalar_multiply(points[1], scalars[1]),
    );
    assert!(
        naive_msm(&points, &scalars).equals(&expected_result),
        "MSM with mixed scalars failed"
    );
}

#[test]
fn test_naive_msm_with_all_ones_scalars() {
    let points = random_points(2);
    let scalars = vec![1, 1]; // All ones
    // Compare against result from point addition and scalar multiplication
    let expected_result = add_points(points[0], points[1]);
    assert!(
        naive_msm(&points, &scalars).equals(&expected_result),
        "MSM with all ones scalars failed"
    );
}

#[test]
fn test_naive_msm_with_large_scalars() {
    let points = random_points(1);
    let large_scalar = 1u32 << 30; // Large scalar
    // Compare against result from point addition and scalar multiplication
    let expected_result = scalar_multiply(points[0], large_scalar);
    assert!(
        naive_msm(&points, &[large_scalar]).equals(&expected_result),
        "MSM with large scalar failed"
    );
}

#[test]
fn test_naive_msm_with_empty_lists() {
    let points: Vec<Point> = Vec::new(); // Empty list
    let scalars: Vec<u32> = Vec::new(); // Empty list
    assert!(
        naive_msm(&points, &scalars).equals(&Point::zero()),
        "MSM with large scalar failed"
    );
}
