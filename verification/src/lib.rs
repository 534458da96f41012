//! Integer core of a concentric-circle (CCTag) fiducial marker detector:
//! image planes, the recoded Canny edge detector, LUT thinning, the PCG32
//! generator that drives the robust estimators, and the bookkeeping
//! structures of the voting stage.

pub mod marker;
pub mod image;
pub mod filter;
pub mod robust;
pub mod util;
pub mod edge;
pub mod vote;
pub mod timing;
pub mod refdata;
pub mod params;
pub mod detection;
pub mod geometry;
pub mod observer;
pub mod pyramid;
pub mod bank;
pub mod filelog;
