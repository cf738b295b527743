//! Multi-scalar multiplication on the MNT4-298 G1 elliptic-curve group:
//! given points and 32-bit scalars of equal number, every entry point
//! returns the sum over all pairs of `scalars[i]` times `points[i]`.
//!
//! The bucket-based Pippenger variants share a verified core: `windows`
//! slices the scalars into c-bit digits, `recode` optionally rewrites them
//! as signed digits, `reduce` turns one window's digits into its partial
//! sum (by reverse scan, by sub-sum accumulation, or by per-bucket scalar
//! weighting), and `combine` folds the windows together. `naive` and
//! `trivial` are the two oracles. Each variant's contract states the same
//! thing: the class of the returned point is `sums::msm_class`, so all
//! variants agree; `properties` proves the algebraic laws of that
//! specification. The curve arithmetic itself is consumed from the curve
//! crate through the trusted operations in `curve` and `operations`.

pub mod combine;
pub mod curve;
pub mod naf_pippenger;
pub mod naive;
pub mod operations;
pub mod parallel_naf_pippenger;
pub mod parallel_pippenger;
pub mod parallel_sid_pippenger;
pub mod parallel_sid_subsum_pippenger;
pub mod parallel_subsum_pippenger;
pub mod pippenger;
pub mod properties;
pub mod recode;
pub mod reduce;
pub mod sid_pippenger;
pub mod sid_subsum_pippenger;
pub mod subsum_pippenger;
pub mod sums;
pub mod trivial;
pub mod windows;
