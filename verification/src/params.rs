//! Detection parameter kinds.

use vstd::prelude::*;

verus! {

/// Weighting mode of the robust ellipse fit.
#[derive(Clone, Copy, Debug, PartialEq, Eq, Structural)]
pub enum Weight {
    /// No weighting.
    Unweighted,
    InvGrad,
    /// Declared but never implemented by the fit.
    InvSqrtGrad,
    /// Unused by the pipeline.
    InvSquareGrad,
}

/// Weighting used by the flow-component completion.
pub const K_WEIGHT: Weight = Weight::InvGrad;

} // verus!
