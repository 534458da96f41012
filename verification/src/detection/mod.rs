//! Detection execution modes.

use vstd::prelude::*;

pub mod from_edges;

verus! {

/// How the pipeline is executed.
#[derive(Clone, Copy, Debug, PartialEq, Eq, Structural)]
pub enum ExecMode {
    /// Fully sequential; a single PCG32 stream consumed in a fixed order.
    Parity,
    /// Parallel, with per-candidate generator streams; deterministic for any
    /// thread count.
    Fast,
}

} // verus!
