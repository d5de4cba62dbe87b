//! The workload optimizer of the engine.

use vstd::prelude::*;

verus! {

/// Re-clusters the engine's data files to fit a workload; it holds no state.
pub struct Optimizer {}

} // verus!
