//! Geometry error kinds.

pub mod ellipse;
