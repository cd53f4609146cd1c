//! Exact-arithmetic solver for the linear complementarity problem (LCP):
//! given a square matrix `M`, a vector `q` and a covering vector `d`, find
//! `z >= 0` with `w = M z + q >= 0` and `z' w = 0`, or report that the
//! complementary path escapes along a ray.  The solver is Lemke's
//! complementary-pivoting method with a lexicographic minimum-ratio rule,
//! run on an integer tableau with fraction-free pivoting so that every
//! intermediate value stays exact.

use vstd::prelude::*;

pub mod arith;
pub mod bigint;
pub mod lcp;
pub mod lex_min_ratio;
pub mod tableau;
pub mod tableau_vars;

verus! {

/// Why a covering vector was rejected.
#[derive(Debug, PartialEq, Eq, Structural)]
pub enum CoveringVectorFault {
    /// The entry is negative.
    NegativeEntry,
    /// The entry is zero while the matching entry of `q` is negative,
    /// so the ray can never make that row feasible.
    ZeroOnNegativeQ,
}

/// Everything that can go wrong while setting up or running a solve.
#[derive(Debug, PartialEq, Eq, Structural)]
pub enum LcpError {
    /// The lengths of `M`, `q` and `d` do not fit together.
    DimensionMismatch,
    /// `M` has a rectangular, non-square shape.
    NonSquareMatrix,
    /// The covering vector cannot start the pivoting; the payload is the
    /// offending row and the reason.
    BadCoveringVector(usize, CoveringVectorFault),
    /// The entering column has no positive entry: no solution lies along
    /// this ray.
    RayTermination,
    /// The pivot budget was exhausted before z0 could leave the basis.
    PivotLimitReached,
    /// An internal invariant failed at run time; this reports a defect
    /// rather than a property of the input.
    BrokenInvariant,
}

} // verus!
