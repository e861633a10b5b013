//! What the counting engine reports instead of a count.

use vstd::prelude::*;

verus! {

/// The ways in which a computation of the engine ends without a result.
#[derive(Clone, Copy, Debug, PartialEq, Eq, Structural)]
pub enum EngineError {
    /// The caller asked for no worker at all.
    InvalidWorkerCount,
    /// A worker could not finish: a count or a buffer size left the range of its type.
    /// Nothing partial is returned.
    WorkerFault,
}

} // verus!
