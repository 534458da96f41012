//! Image pyramid: per level the (down-scaled) source, the `i16` derivatives
//! and the thinned Canny edge map.

use vstd::prelude::*;
use crate::image::{GrayImage, I16Plane, Plane};

verus! {

/// One pyramid level.
#[derive(Clone, Debug, Default)]
pub struct Level {
    pub level: usize,
    pub src: GrayImage,
    pub dx: I16Plane,
    pub dy: I16Plane,
    pub edges: Plane<u8>,
}

/// The levels of a pyramid, finest first.
#[derive(Debug, Default)]
pub struct ImagePyramid {
    pub levels: Vec<Level>,
}

impl ImagePyramid {
    /// A pyramid without levels.
    pub fn new() -> (p: Self)
        ensures
            p.levels@.len() == 0,
    {
        ImagePyramid { levels: Vec::new() }
    }

    /// Level `i`.
    pub fn level(&self, i: usize) -> (l: &Level)
        requires
            i < self.levels@.len(),
        ensures
            *l == self.levels@[i as int],
    {
        &self.levels[i]
    }
}

} // verus!
