//! Finite automata: nondeterministic automata with epsilon and multi-character
//! transitions, deterministic automata, the conversions between them
//! (epsilon compression, transition splitting, subset construction, completion,
//! minimization) and the synthesis of a regular expression by state elimination.

pub mod automaton;
pub mod bits;
pub mod complete;
pub mod compress;
pub mod convert;
pub mod dfa;
pub mod error;
pub mod language;
pub mod marks;
pub mod minimize;
pub mod model;
pub mod nfa;
pub mod regex;
pub mod render;
pub mod split;
pub mod state;
pub mod subset;
pub mod symbols;
pub mod text;

pub use automaton::{Automaton, ToRegex};
pub use dfa::{Dfa, DfaState, ToCompleteDfa, ToDfa, ToMinimalCompleteDfa};
pub use error::AutomatonError;
pub use model::{AutomatonModel, StateModel};
pub use nfa::{Nfa, NfaState};
pub use state::{State, Traversable};
