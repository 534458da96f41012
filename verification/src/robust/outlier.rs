//! Inputs of the "is another segment" test of the robust stage.

use vstd::prelude::*;
use crate::edge::EdgeIdx;

verus! {

/// The other candidate whose outer points may belong to the same ellipse.
pub struct OtherCandidate<'a> {
    pub outer_ellipse_points: &'a [EdgeIdx],
    pub filtered_children: &'a [EdgeIdx],
}

} // verus!
