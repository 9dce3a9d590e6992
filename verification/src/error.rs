//! The ways an operation on a graph can fail.

use vstd::prelude::*;

verus! {

/// Why an operation was refused. Every failure is final: nothing is retried.
#[derive(Clone, Copy, Debug, PartialEq, Eq, Structural)]
pub enum TractError {
    /// An operator rejected its input facts (arity, rank or datum type).
    FactInferenceError,
    /// A constant disagrees with the datum type or shape it was declared with.
    ShapeMismatch,
    /// A node depends on itself through its inputs.
    CyclicGraphError,
    /// A patch does not fit the graph it is applied to.
    PatchInvariantViolation,
    /// A patch that fits would change the fact of an outlet that it taps
    /// or redirects.
    PatchFactMismatch,
    /// An outlet was named that the graph does not hold.
    OutletNotFound,
    /// An edge was added to an inlet that is not the next free slot of its node.
    NonSequentialInlet,
    /// A tensor's byte size or alignment cannot be laid out in memory.
    InvalidLayout,
    /// The count of applied patches no longer fits in a machine word.
    PatchCountOverflow,
}

pub type TractResult<T> = Result<T, TractError>;

} // verus!
