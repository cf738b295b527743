//! The trivial MSM: per-pair double-and-add over the bits of the scalar.
//! A secondary oracle, independent of the windowing machinery.

use crate::curve::{
    gmod, lemma_gadd_fold_left, lemma_gmod_add_congruent, lemma_gmod_scale_congruent,
    lemma_gmod_twice, point_class, Point,
};
use crate::operations::{add_points, point_double};
use crate::sums::{classes, dot, ints_of_u32s, lemma_dot_prefix, msm_class};
use vstd::arithmetic::div_mod::{
    lemma_div_denominator, lemma_fundamental_div_mod, lemma_mod_breakdown,
};
use vstd::arithmetic::power2::{lemma2_to64, lemma_pow2_adds, lemma_pow2_pos, pow2};
use vstd::prelude::*;

verus! {

/// Multi-scalar multiplication by per-pair double-and-add: returns the sum
/// over all pairs of `scalars[i]` times `points[i]`.
#[verifier::loop_isolation(false)]
pub fn trivial_msm(points: &[Point], scalars: &[u32]) -> (r: Point)
    requires
        points@.len() == scalars@.len(),
    ensures
        point_class(r) == msm_class(points@, scalars@),
{
    let ghost cls = classes(points@);
    let ghost svals = ints_of_u32s(scalars@);
    let mut result = Point::zero();
    let mut i: usize = 0;
    while i < points.len()
        invariant
            i <= points@.len(),
            point_class(result) == gmod(dot(svals.take(i as int), cls.take(i as int))),
        decreases points@.len() - i,
    {
        let s0 = scalars[i];
        let ghost cl0 = cls[i as int];
        let mut point_contribution = Point::zero();
        let mut scalar = s0;
        let mut current_point = points[i];
        let ghost mut k: nat = 0;
        proof {
            assert(pow2(0) == 1) by {
                lemma2_to64();
            }
            assert(s0 as int % 1int == 0);
            assert(0int * cl0 == 0) by (nonlinear_arith);
            assert(gmod(0) == 0) by {
                crate::curve::lemma_gmod_small(0);
            }
        }
        while scalar != 0
            invariant
                0 <= i < points@.len(),
                scalar == s0 as int / pow2(k) as int,
                gmod(point_class(current_point)) == gmod(pow2(k) * cl0),
                point_class(point_contribution) == gmod((s0 as int % pow2(k) as int) * cl0),
            decreases scalar,
        {
            let ghost pk = pow2(k) as int;
            proof {
                lemma_pow2_pos(k);
                lemma_pow2_adds(k, 1);
                assert(pow2(1) == 2) by {
                    lemma2_to64();
                }
                lemma_mod_breakdown(s0 as int, pk, 2);
                lemma_div_denominator(s0 as int, pk, 2);
                assert(scalar & 1 == scalar % 2) by (bit_vector);
                assert(scalar >> 1u32 == scalar / 2) by (bit_vector);
            }
            if scalar & 1 == 1 {
                let ghost before = point_class(point_contribution);
                let ghost cur_cl = point_class(current_point);
                point_contribution = add_points(point_contribution, current_point);
                proof {
                    lemma_gmod_add_congruent(before, cur_cl, pk * cl0);
                    lemma_gadd_fold_left((s0 as int % pk) * cl0, pk * cl0);
                    assert((s0 as int % pk) * cl0 + pk * cl0 == (s0 as int % pk + pk) * cl0)
                        by (nonlinear_arith);
                    assert(s0 as int % (pk * 2) == s0 as int % pk + pk) by {
                        assert((s0 as int / pk) % 2 == 1);
                        assert(pk * 1 == pk) by (nonlinear_arith);
                    }
                }
            } else {
                proof {
                    assert((s0 as int / pk) % 2 == 0);
                    assert(pk * 0 == 0) by (nonlinear_arith);
                    assert(s0 as int % (pk * 2) == s0 as int % pk);
                }
            }
            let ghost cur_cl = point_class(current_point);
            current_point = point_double(&current_point);
            proof {
                lemma_gmod_twice(cur_cl + cur_cl);
                lemma_gmod_scale_congruent(2, cur_cl, pk * cl0);
                assert(2 * (pk * cl0) == (pk * 2) * cl0) by (nonlinear_arith);
                k = k + 1;
            }
            scalar = scalar >> 1u32;
        }
        proof {
            lemma_pow2_pos(k);
            lemma_fundamental_div_mod(s0 as int, pow2(k) as int);
            assert(pow2(k) as int * 0 == 0) by (nonlinear_arith);
            assert(s0 as int % pow2(k) as int == s0 as int);
        }
        let ghost before = dot(svals.take(i as int), cls.take(i as int));
        let ghost result_cl = point_class(result);
        let ghost contrib_cl = point_class(point_contribution);
        result = add_points(result, point_contribution);
        proof {
            lemma_gmod_twice((s0 as int) * cl0);
            lemma_gmod_add_congruent(result_cl, contrib_cl, (s0 as int) * cl0);
            lemma_gadd_fold_left(before, (s0 as int) * cl0);
            lemma_dot_prefix(svals, cls, i as int);
            assert(svals[i as int] == s0 as int);
        }
        i = i + 1;
    }
    proof {
        assert(svals.take(points@.len() as int) =~= svals);
        assert(cls.take(points@.len() as int) =~= cls);
    }
    result
}

} // verus!
