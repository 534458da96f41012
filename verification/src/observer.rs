//! Hook for stage dumps; the default implementation does nothing.

use vstd::prelude::*;
use crate::edge::EdgePointCollection;
use crate::pyramid::ImagePyramid;

verus! {

/// Receives the intermediate results of a detection.
pub trait StageObserver {
    /// The pyramid was built.
    fn on_pyramid(&mut self, pyr: &ImagePyramid) {
    }

    /// The edge points of `level` were collected.
    fn on_edges(&mut self, level: usize, coll: &EdgePointCollection) {
    }

    /// The votes of `level` were tallied, giving `seeds`.
    fn on_vote(&mut self, level: usize, coll: &EdgePointCollection, seeds: &[i32]) {
    }
}

/// An observer that ignores everything.
pub struct NoopObserver;

impl StageObserver for NoopObserver {
}

} // verus!
