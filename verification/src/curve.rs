//! The elliptic-curve group this library computes in, and its spec-level
//! model.
//!
//! `Point` wraps the curve crate's MNT4-298 G1 projective point. The wrapped
//! value stays private: every `Point` in existence was produced by one of
//! the trusted constructors below or by the operations in `operations`, so
//! every `Point` holds a genuine element of the G1 group.
//!
//! That group is cyclic of prime order (the curve's cofactor is 1), so
//! fixing a generator identifies each group element with an index in
//! `[0, group_order())`. The uninterpreted function `point_class` names that
//! index for a `Point`'s group element; two points are the same group
//! element exactly when their classes agree. Each trusted operation states
//! its result as an identity of classes modulo the group order, and the MSM
//! algorithms are verified against that ordinary modular arithmetic.

use ark_ec::PrimeGroup;
use ark_ff::Zero;
use ark_mnt4_298::G1Projective;
use ark_std::UniformRand;
use vstd::arithmetic::div_mod::{
    lemma_add_mod_noop, lemma_mod_twice, lemma_mul_mod_noop_right, lemma_small_mod,
};
use vstd::prelude::*;

verus! {

/// A point of the MNT4-298 G1 group.
///
/// The curve crate's projective representation is kept opaque (its type is
/// generic over a curve-configuration trait that cannot be declared here),
/// so the whole struct is hidden from the verifier and described only by
/// `point_class`.
#[verifier::external_body]
pub struct Point {
    pub(crate) inner: G1Projective,
}

impl Clone for Point {
    /// Relies on the curve crate's point type being `Copy`: the clone is
    /// the same value, so it holds the same group element.
    #[verifier::external_body]
    fn clone(&self) -> (r: Self)
        ensures
            point_class(r) == point_class(*self),
    {
        Point { inner: self.inner }
    }
}

impl Copy for Point {

}

/// The index (discrete logarithm with respect to a fixed generator) of the
/// group element that `p` holds, in `[0, group_order())`. Two points hold
/// the same group element exactly when their classes are equal.
pub uninterp spec fn point_class(p: Point) -> int;

/// The order of the G1 group of MNT4-298: the prime scalar-field modulus r,
/// as the curve crate documents it. The proofs in this crate use only that
/// it is positive.
pub open spec fn group_order() -> int {
    475922286169261325753349249653048451545124878552823515553267735739164647307408490559963137int
}

/// Reduction modulo the group order.
pub open spec fn gmod(x: int) -> int {
    x % group_order()
}

/// Class of the sum of two group elements given by their classes.
pub open spec fn gadd(a: int, b: int) -> int {
    gmod(a + b)
}

/// Class of the inverse of a group element given by its class.
pub open spec fn gneg(a: int) -> int {
    gmod(-a)
}

/// Class of the `k`-fold multiple of a group element given by its class.
pub open spec fn gmul(k: int, a: int) -> int {
    gmod(k * a)
}

impl Point {
    /// The identity point of the group.
    /// Relies on the curve crate's `Zero::zero` for `G1Projective`: the
    /// point at infinity, the group identity, whose class is 0.
    #[verifier::external_body]
    pub fn zero() -> (r: Point)
        ensures
            point_class(r) == 0,
    {
        Point { inner: G1Projective::zero() }
    }

    /// The fixed generator point of the group.
    /// Relies on the curve crate's configured G1 generator; nothing about
    /// its class is assumed beyond it being some group element.
    #[verifier::external_body]
    pub fn generator() -> Point {
        Point { inner: G1Projective::generator() }
    }

    /// Whether `self` and `other` are the same group element.
    /// Relies on the curve crate's `==` on `G1Projective`, which compares
    /// the group elements regardless of their projective representation.
    #[verifier::external_body]
    pub fn equals(&self, other: &Point) -> (r: bool)
        ensures
            r <==> point_class(*self) == point_class(*other),
    {
        self.inner == other.inner
    }
}

/// `n` points of the group, drawn from the curve crate's deterministic test
/// generator. Relies on `UniformRand::rand` returning group elements;
/// nothing about which elements is assumed.
#[verifier::external_body]
pub fn random_points(n: usize) -> (r: Vec<Point>)
    ensures
        r@.len() == n,
{
    let mut rng = ark_std::test_rng();
    (0..n).map(|_| Point { inner: G1Projective::rand(&mut rng) }).collect()
}

/// Reducing twice reduces once.
pub proof fn lemma_gmod_twice(x: int)
    ensures
        gmod(gmod(x)) == gmod(x),
{
    lemma_mod_twice(x, group_order());
}

/// A reduced value is its own reduction.
pub proof fn lemma_gmod_small(x: int)
    requires
        0 <= x < group_order(),
    ensures
        gmod(x) == x,
{
    lemma_small_mod(x as nat, group_order() as nat);
}

/// Adding reduced values and reducing equals reducing the plain sum.
pub proof fn lemma_gadd_fold(x: int, y: int)
    ensures
        gadd(gmod(x), gmod(y)) == gmod(x + y),
{
    lemma_add_mod_noop(x, y, group_order());
}

/// Adding one reduced value: the inner reduction can be dropped.
pub proof fn lemma_gadd_fold_left(x: int, y: int)
    ensures
        gadd(gmod(x), y) == gmod(x + y),
{
    lemma_gmod_twice(y);
    lemma_gadd_fold(x, gmod(y));
    lemma_gadd_fold(x, y);
}

/// Scaling preserves congruence modulo the group order.
pub proof fn lemma_gmod_scale_congruent(k: int, a: int, b: int)
    requires
        gmod(a) == gmod(b),
    ensures
        gmod(k * a) == gmod(k * b),
{
    lemma_gmul_fold(k, a);
    lemma_gmul_fold(k, b);
}

/// Adding a fixed term preserves congruence modulo the group order.
pub proof fn lemma_gmod_add_congruent(a: int, b: int, b2: int)
    requires
        gmod(b) == gmod(b2),
    ensures
        gmod(a + b) == gmod(a + b2),
{
    lemma_gadd_fold_left(b, a);
    lemma_gadd_fold_left(b2, a);
}

/// Scaling a reduced value and reducing equals reducing the plain product.
pub proof fn lemma_gmul_fold(k: int, x: int)
    ensures
        gmul(k, gmod(x)) == gmod(k * x),
{
    lemma_mul_mod_noop_right(k, x, group_order());
}

} // verus!
