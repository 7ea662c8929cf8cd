//! What every automaton offers: simulation on an input string.

use vstd::prelude::*;
use crate::error::AutomatonError;

verus! {

/// An automaton that can be run on an input string.
pub trait Automaton {
    /// The representation is in order: the states are held in ascending order
    /// of index. Every automaton built through this library is.
    spec fn wf(&self) -> bool;

    /// What a simulation on `input` yields: whether the input is accepted, or
    /// the lookup error of a simulation that reaches an index without a state.
    spec fn outcome(&self, input: Seq<char>) -> Result<bool, AutomatonError>;

    /// Simulates the automaton on `input`.
    fn accept(&self, input: &str) -> (r: Result<bool, AutomatonError>)
        requires
            self.wf(),
        ensures
            r == self.outcome(input@),
    ;
}

/// An automaton of which a regular expression can be written.
pub trait ToRegex: Automaton {
    /// The text of a regular expression for what the automaton accepts.
    fn to_regex(&self) -> (r: Result<String, AutomatonError>)
        requires
            self.wf(),
    ;
}

} // verus!
