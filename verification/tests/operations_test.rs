use msm::curve::{random_points, Point};
use msm::operations::{add_points, scalar_multiply};
use msm::sid_pippenger::{sid_compute_msm_for_partition, SidMsmPartitionDecomposed};

use ark_std::rand::Rng;

#[test]
// Point added with zero point should return same point
fn test_point_addition_with_zero() {
    let points = random_points(1);
    let point1 = points[0];
    assert!(
        point1.equals(&add_points(point1, Point::zero())),
        "Point addition with zero point failed"
    );
}

#[test]
// Point addition should be commutative
fn test_point_addition_commutativity() {
    let points = random_points(2);
    let (point1, point2) = (points[0], points[1]);
    assert!(
        add_points(point1, point2).equals(&add_points(point2, point1)),
        "Point addition is not commutative"
    );
}

#[test]
// Point addition should be associative
fn test_point_addition_associativity() {
    let points = random_points(3);
    let (point1, point2, point3) = (points[0], points[1], points[2]);
    assert!(
        add_points(add_points(point1, point2), point3)
            .equals(&add_points(point1, add_points(point2, point3))),
        "Point addition is not associative"
    );
}

#[test]
// Point added with its negative should return the zero point
fn test_point_addition_invertibility() {
    let points = random_points(1);
    let point = points[0];
    // The negative of the point comes out of the signed bucket reducer:
    // one window whose only digit is -1.
    let minus_one = SidMsmPartitionDecomposed { bit_index: 0, window_values: vec![-1] };
    let neg_point = sid_compute_msm_for_partition(&minus_one, &points, 2);
    assert!(
        Point::zero().equals(&add_points(point, neg_point)),
        "Point addition does not satisfy invertability"
    );
}

#[test]
// Point multiplied by one should return same point
fn test_scalar_multiplication_identity() {
    let points = random_points(1);
    let point1 = points[0];
    assert!(
        point1.equals(&scalar_multiply(point1, 1)),
        "Scalar multiplication by one failed"
    );
}

#[test]
// Scalar multiplication should be commutative
fn test_scalar_multiplication_commutativity() {
    let points = random_points(1);
    let point = points[0];
    let mut rng = ark_std::test_rng();
    let scalar1: u32 = rng.gen_range(0..65536);
    let scalar2: u32 = rng.gen_range(0..65536);
    assert!(
        scalar_multiply(scalar_multiply(point, scalar1), scalar2)
            .equals(&scalar_multiply(scalar_multiply(point, scalar2), scalar1)),
        "Scalar multiplication is not commutative"
    );
}

#[test]
// Scalar multiplication should be associative
fn test_scalar_multiplication_associativity() {
    let points = random_points(1);
    let point = points[0];
    let mut rng = ark_std::test_rng();
    let scalar1: u32 = rng.gen_range(0..65536);
    let scalar2: u32 = rng.gen_range(0..65536);
    assert!(
        scalar_multiply(scalar_multiply(point, scalar1), scalar2)
            .equals(&scalar_multiply(point, scalar1 * scalar2)),
        "Scalar multiplication is not associative"
    );
}

#[test]
// Point multiplied by 0 should return the zero point
fn test_scalar_multiplication_zero() {
    let points = random_points(1);
    let point = points[0];
    assert!(
        Point::zero().equals(&scalar_multiply(point, 0)),
        "Multiplication by zero failed"
    );
}

#[test]
// Scalar multiplication should be distributive
fn test_scalar_multiplication_distributivity() {
    let points = random_points(2);
    let (point1, point2) = (points[0], points[1]);
    let mut rng = ark_std::test_rng();
    let scalar: u32 = rng.gen_range(0..65536);
    assert!(
        scalar_multiply(add_points(point1, point2), scalar)
            .equals(&add_points(scalar_multiply(point1, scalar), scalar_multiply(point2, scalar))),
        "Scalar multiplication is not distributive over point addition"
    );
}

#[test]
fn test_scalar_multiplication_large_scalar() {
    let points = random_points(1);
    let point = points[0];
    let large_scalar = 1u32 << 30; // Example large scalar
    // Simply testing that the operation completes without error
    let _ = scalar_multiply(point, large_scalar);
}
