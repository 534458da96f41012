//! Robust-estimation support: the PCG32 generator that drives the random
//! sampling of the ellipse fits.

pub mod rng;
pub mod outlier;
