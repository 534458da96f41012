//! Front-end filters: the recoded Canny edge detector, LUT thinning, and the
//! derivative-of-Gaussian kernel data.

pub mod canny;
pub mod thinning;
pub mod dog;
