//! The curve operations this library consumes, as trusted wrappers around
//! the curve crate. Each contract states what the operation does to the
//! point's class in the cyclic group (see `curve`): adding group elements
//! adds classes modulo the group order, negation negates them, and scalar
//! multiplication scales them.

use crate::curve::{gadd, gmul, gneg, point_class, Point};
use ark_ec::AdditiveGroup;
use ark_mnt4_298::Fr;
use vstd::prelude::*;

verus! {

/// Point addition: adds two points of the curve's G1 group.
/// Relies on the curve crate's `+` on `G1Projective`: group addition.
#[verifier::external_body]
pub fn add_points(point1: Point, point2: Point) -> (r: Point)
    ensures
        point_class(r) == gadd(point_class(point1), point_class(point2)),
{
    Point { inner: point1.inner + point2.inner }
}

/// Scalar multiplication: multiplies a point of the G1 group by a 32-bit
/// scalar, the scalar width this library works with.
/// Relies on the curve crate's `*` on `G1Projective` by a scalar-field
/// element, with the scalar embedded by `Fr::from`: the k-fold multiple.
#[verifier::external_body]
pub fn scalar_multiply(point: Point, scalar: u32) -> (r: Point)
    ensures
        point_class(r) == gmul(scalar as int, point_class(point)),
{
    Point { inner: point.inner * Fr::from(scalar) }
}

/// Doubles a point of the G1 group.
/// Relies on the curve crate's `AdditiveGroup::double`: the sum of the
/// point with itself.
#[verifier::external_body]
pub(crate) fn point_double(point: &Point) -> (r: Point)
    ensures
        point_class(r) == gadd(point_class(*point), point_class(*point)),
{
    Point { inner: point.inner.double() }
}

/// Negates a point of the G1 group.
/// Relies on the curve crate's `Neg` for `G1Projective`: the group inverse.
#[verifier::external_body]
pub(crate) fn point_negate(point: &Point) -> (r: Point)
    ensures
        point_class(r) == gneg(point_class(*point)),
{
    Point { inner: -point.inner }
}

} // verus!
