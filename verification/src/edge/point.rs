//! An edge pixel with its (unnormalised) image gradient.

use vstd::prelude::*;

verus! {

/// An edge pixel: position and `i16` gradient.
#[derive(Clone, Copy, Debug, PartialEq, Eq, Structural, Default)]
pub struct EdgePoint {
    pub x: i16,
    pub y: i16,
    pub dx: i16,
    pub dy: i16,
}

impl EdgePoint {
    /// A point at `(x, y)` (stored as `i16`, truncating) with gradient `(dx, dy)`.
    pub fn new(x: i32, y: i32, dx: i16, dy: i16) -> (p: Self)
        ensures
            p.x == x as i16,
            p.y == y as i16,
            p.dx == dx,
            p.dy == dy,
    {
        EdgePoint { x: x as i16, y: y as i16, dx, dy }
    }
}

} // verus!
