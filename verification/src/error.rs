//! The ways in which building or traversing an automaton can fail.

use vstd::prelude::*;

verus! {

/// Why an operation on an automaton was refused.
#[derive(Clone, Copy, Debug, PartialEq, Eq, Structural)]
pub enum AutomatonError {
    /// A state with the given index is already present in the automaton.
    StructuralError,
    /// An index that the operation reached names no state of the automaton.
    LookupError,
    /// An index lies beyond what the operation can number.
    CapacityError,
}

} // verus!
