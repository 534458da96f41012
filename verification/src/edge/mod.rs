//! Edge points and their collection.

pub mod collection;
pub mod from_canny;
pub mod point;

pub use collection::{EdgeIdx, EdgePointCollection, NO_EDGE};
pub use point::EdgePoint;
