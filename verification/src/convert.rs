//! From one kind of automaton to another: labels as characters or as
//! strings, and the conversions of nondeterministic automata that go
//! through their deterministic automaton.

use vstd::prelude::*;
use vstd::string::*;
use crate::compress::{compressed, eps_dangling};
use crate::dfa::{alphabet_of, completed, total, Dfa, ToCompleteDfa, ToDfa, ToMinimalCompleteDfa};
use crate::error::AutomatonError;
use crate::minimize::{dangling, is_minimal};
use crate::model::{AutomatonModel, StateModel};
use crate::nfa::{Nfa, NfaState};
use crate::split::{split, split_overflows};
use crate::subset::{
    is_subset_dfa, lemma_unit_states, small, subset_dangling, subset_dfa, unit_model,
};

verus! {

/// The automaton `d` with each symbol as a label of one character.
pub open spec fn as_words(d: AutomatonModel<char>) -> AutomatonModel<Seq<char>> {
    AutomatonModel {
        start: d.start,
        states: d.states.map_values(
            |s: StateModel<char>|
                StateModel {
                    index: s.index,
                    terminal: s.terminal,
                    edges: s.edges.map_values(|e: (char, u64)| (seq![e.0], e.1)),
                },
        ),
    }
}

/// What the automaton with single-character transitions of `m` is, or why
/// there is none.
pub open spec fn chars_of_words(m: AutomatonModel<Seq<char>>) -> Result<
    AutomatonModel<Seq<char>>,
    AutomatonError,
> {
    if !m.has_state(m.start) || eps_dangling(m) {
        Err(AutomatonError::LookupError)
    } else if split_overflows(compressed(m)) {
        Err(AutomatonError::CapacityError)
    } else {
        Ok(split(compressed(m)))
    }
}

/// What the deterministic automaton of `cm` is, or why there is none.
pub open spec fn dfa_of_chars(cm: AutomatonModel<char>) -> Result<
    AutomatonModel<char>,
    AutomatonError,
> {
    if !cm.has_state(cm.start) {
        Err(AutomatonError::LookupError)
    } else if !small(cm) {
        Err(AutomatonError::CapacityError)
    } else if subset_dangling(cm) {
        Err(AutomatonError::LookupError)
    } else {
        Ok(subset_dfa(cm))
    }
}

/// What the deterministic automaton of `m` is, or why there is none.
pub open spec fn dfa_of_words(m: AutomatonModel<Seq<char>>) -> Result<
    AutomatonModel<char>,
    AutomatonError,
> {
    match chars_of_words(m) {
        Ok(s) => dfa_of_chars(unit_model(s)),
        Err(e) => Err(e),
    }
}

/// What the completion of `d` is, or why there is none.
pub open spec fn completion_of(d: AutomatonModel<char>) -> Result<
    AutomatonModel<char>,
    AutomatonError,
> {
    if !d.has_state(d.start) {
        Err(AutomatonError::LookupError)
    } else if !total(d, alphabet_of(d)) && d.states.last().index == u64::MAX {
        Err(AutomatonError::CapacityError)
    } else {
        Ok(completed(d))
    }
}

/// `r` is what minimizing the completion of `d` yields.
pub open spec fn is_minimal_of(
    d: AutomatonModel<char>,
    r: Result<AutomatonModel<char>, AutomatonError>,
) -> bool {
    match completion_of(d) {
        Err(e) => r == Err::<AutomatonModel<char>, AutomatonError>(e),
        Ok(c) => if dangling(c) {
            r == Err::<AutomatonModel<char>, AutomatonError>(AutomatonError::LookupError)
        } else {
            r matches Ok(m) && is_minimal(c, m)
        },
    }
}

/// The model of the automaton that `r` holds, or its error.
pub open spec fn dfa_model(r: Result<Dfa, AutomatonError>) -> Result<
    AutomatonModel<char>,
    AutomatonError,
> {
    match r {
        Ok(d) => Ok(d@),
        Err(e) => Err(e),
    }
}

/// The string that holds the character `c` alone.
pub fn char_string(c: char) -> (s: String)
    ensures
        s@ == seq![c],
{
    let mut s = String::new();
    s.push(c);
    assert(s@ =~= seq![c]);
    s
}

impl Nfa<char> {
    /// The same automaton with every label as a string of one character.
    pub fn to_nfa_string(&self) -> (r: Nfa<String>)
        requires
            self.ordered(),
        ensures
            r.ordered(),
            r@ == self@,
    {
        let states = self.states();
        let mut out: Vec<NfaState<String>> = Vec::new();
        let mut k: usize = 0;
        while k < states.len()
            invariant
                k <= states@.len(),
                out@.len() == k,
                forall|j: int| 0 <= j < k ==> (#[trigger] out@[j])@ == states@[j]@,
            decreases states@.len() - k,
        {
            let st = &states[k];
            let mut ns: NfaState<String> = NfaState::new(st.index, st.is_terminal);
            let mut e: usize = 0;
            while e < st.transitions.len()
                invariant
                    e <= st.transitions@.len(),
                    ns.index == st.index,
                    ns.is_terminal == st.is_terminal,
                    ns@.edges == st@.edges.take(e as int),
                decreases st.transitions@.len() - e,
            {
                let (c, t) = st.transitions[e];
                ns.add_transition(char_string(c), t);
                assert(st@.edges[e as int] == (seq![c], t));
                assert(ns@.edges =~= st@.edges.take(e + 1));
                e += 1;
            }
            assert(st@.edges.take(e as int) =~= st@.edges);
            out.push(ns);
            k += 1;
        }
        assert forall|i: int, j: int| 0 <= i < j < out@.len() implies (#[trigger] out@[i]).index < (
        #[trigger] out@[j]).index by {
            assert(out@[i]@.index == self@.states[i].index);
            assert(out@[j]@.index == self@.states[j].index);
        }
        let r = Nfa::from_states(self.starting_state(), out);
        assert(r@.states =~= self@.states);
        r
    }
}

impl Dfa {
    /// The same automaton as a nondeterministic automaton, with every
    /// symbol as a label of one character.
    pub fn to_nfa(&self) -> (r: Nfa<String>)
        requires
            self.ordered(),
        ensures
            r.ordered(),
            r@ == as_words(self@),
    {
        let states = self.states();
        let mut out: Vec<NfaState<String>> = Vec::new();
        let mut k: usize = 0;
        while k < states.len()
            invariant
                states@.len() == self@.states.len(),
                forall|j: int| 0 <= j < states@.len() ==> (#[trigger] states@[j])@ == self@.states[j],
                k <= states@.len(),
                out@.len() == k,
                forall|j: int| 0 <= j < k ==> (#[trigger] out@[j])@ == as_words(self@).states[j],
            decreases states@.len() - k,
        {
            let st = &states[k];
            assert(st@ == self@.states[k as int]);
            let ghost want = as_words(self@).states[k as int];
            let mut ns: NfaState<String> = NfaState::new(st.index, st.is_terminal);
            let mut e: usize = 0;
            while e < st.transitions.len()
                invariant
                    st@ == self@.states[k as int],
                    k < self@.states.len(),
                    want == as_words(self@).states[k as int],
                    e <= st.transitions@.len(),
                    ns.index == st.index,
                    ns.is_terminal == st.is_terminal,
                    ns@.edges == want.edges.take(e as int),
                decreases st.transitions@.len() - e,
            {
                let (c, t) = st.transitions[e];
                ns.add_transition(char_string(c), t);
                assert(want.edges[e as int] == (seq![c], t));
                assert(ns@.edges =~= want.edges.take(e + 1));
                e += 1;
            }
            assert(want.edges.take(e as int) =~= want.edges);
            out.push(ns);
            k += 1;
        }
        assert forall|i: int, j: int| 0 <= i < j < out@.len() implies (#[trigger] out@[i]).index < (
        #[trigger] out@[j]).index by {
            assert(out@[i]@.index == self@.states[i].index);
            assert(out@[j]@.index == self@.states[j].index);
        }
        let r = Nfa::from_states(self.starting_state(), out);
        assert(r@.states =~= as_words(self@).states);
        r
    }
}

/// Splitting keeps the start index and the states under their indices.
pub proof fn lemma_split_keeps(c: AutomatonModel<Seq<char>>, idx: u64)
    requires
        c.has_state(idx),
    ensures
        split(c).has_state(idx),
        split(c).start == c.start,
{
    let k = c.position(idx);
    assert(split(c).states[k].index == idx);
}

/// Compressing keeps the start index and the states under their indices.
pub proof fn lemma_compressed_keeps(m: AutomatonModel<Seq<char>>, idx: u64)
    ensures
        compressed(m).has_state(idx) <==> m.has_state(idx),
        compressed(m).start == m.start,
{
    let c = compressed(m);
    if m.has_state(idx) {
        let k = m.position(idx);
        assert(c.states[k].index == idx);
    }
    if c.has_state(idx) {
        let k = c.position(idx);
        assert(m.states[k].index == idx);
    }
}

impl ToDfa for Nfa<String> {
    /// The deterministic automaton of the automaton with single-character
    /// transitions.
    fn to_dfa(&self) -> (r: Result<Dfa, AutomatonError>)
        ensures
            dfa_model(r) == dfa_of_words(self@),
            r matches Ok(d) ==> d@.closed() && is_subset_dfa(
                unit_model(split(compressed(self@))),
                d@,
            ),
    {
        let s = match self.split_words() {
            Ok(s) => s,
            Err(e) => {
                return Err(e);
            },
        };
        proof {
            lemma_compressed_keeps(self@, self@.start);
            lemma_split_keeps(compressed(self@), self@.start);
            lemma_unit_states(s@);
        }
        s.to_dfa()
    }
}

impl ToCompleteDfa for Nfa<char> {
    /// The completion of the deterministic automaton.
    fn to_cdfa(&self) -> (r: Result<Dfa, AutomatonError>)
        ensures
            dfa_model(r) == match dfa_of_chars(self.chars()) {
                Ok(d) => completion_of(d),
                Err(e) => Err(e),
            },
    {
        proof {
            lemma_unit_states(self@);
        }
        match self.to_dfa() {
            Ok(d) => d.to_cdfa(),
            Err(e) => Err(e),
        }
    }
}

impl ToCompleteDfa for Nfa<String> {
    /// The completion of the deterministic automaton.
    fn to_cdfa(&self) -> (r: Result<Dfa, AutomatonError>)
        ensures
            dfa_model(r) == match dfa_of_words(self@) {
                Ok(d) => completion_of(d),
                Err(e) => Err(e),
            },
    {
        match self.to_dfa() {
            Ok(d) => d.to_cdfa(),
            Err(e) => Err(e),
        }
    }
}

impl ToMinimalCompleteDfa for Nfa<char> {
    /// The minimal automaton of the completion of the deterministic automaton.
    fn to_mcdfa(&self) -> (r: Result<Dfa, AutomatonError>)
        ensures
            match dfa_of_chars(self.chars()) {
                Ok(d) => is_minimal_of(d, dfa_model(r)),
                Err(e) => r matches Err(f) && f == e,
            },
    {
        proof {
            lemma_unit_states(self@);
        }
        match self.to_dfa() {
            Ok(d) => d.to_mcdfa(),
            Err(e) => Err(e),
        }
    }
}

impl ToMinimalCompleteDfa for Nfa<String> {
    /// The minimal automaton of the completion of the deterministic automaton.
    fn to_mcdfa(&self) -> (r: Result<Dfa, AutomatonError>)
        ensures
            match dfa_of_words(self@) {
                Ok(d) => is_minimal_of(d, dfa_model(r)),
                Err(e) => r matches Err(f) && f == e,
            },
    {
        match self.to_dfa() {
            Ok(d) => d.to_mcdfa(),
            Err(e) => Err(e),
        }
    }
}

} // verus!
