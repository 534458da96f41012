//! Errors of the ellipse and circle computations.

use vstd::prelude::*;

verus! {

/// Why an ellipse computation failed.
#[derive(Debug, Clone, Copy, PartialEq, Eq, Structural)]
pub enum GeomError {
    /// Semi axes must be real positive.
    NegativeAxis,
    /// Singular matrix.
    Singular,
    /// The fit's input points appear to be linearly dependent.
    NotInvertible,
    /// Degenerate fit.
    Degeneracy,
    /// First singularity of the conic-to-ellipse conversion.
    Singularity1,
    /// Second singularity of the conic-to-ellipse conversion.
    Singularity2,
    /// Degenerate ellipse after the fit (a line or a point).
    DegenerateAxes,
    /// At least 5 points are needed to estimate an ellipse.
    TooFewPoints,
    /// Degenerate circle fit (negative radius).
    DegenerateCircle,
    /// Normalisation of a point at infinity.
    InfinitePoint,
}

} // verus!
