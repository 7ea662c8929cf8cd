//! Deterministic automata: states joined by single-character transitions.

use vstd::prelude::*;
use crate::automaton::Automaton;
use crate::error::AutomatonError;
use crate::model::{AutomatonModel, StateModel};
use crate::symbols::{ascending, insert_symbol, lemma_ascending_unique};
use crate::text::chars_of;

verus! {

/// A state of a deterministic automaton.
#[derive(Clone, Debug)]
pub struct DfaState {
    pub index: u64,
    pub is_terminal: bool,
    pub transitions: Vec<(char, u64)>,
}

impl DfaState {
    /// A state without transitions.
    pub fn new(index: u64, is_terminal: bool) -> (s: Self)
        ensures
            s@ == (StateModel::<char> { index, terminal: is_terminal, edges: Seq::empty() }),
    {
        DfaState { index, is_terminal, transitions: Vec::new() }
    }

    /// Adds a transition on `sym` to the state with index `next_state`, after
    /// the transitions that are there.
    pub fn add_transition(&mut self, sym: char, next_state: u64)
        ensures
            final(self)@ == (StateModel::<char> {
                edges: old(self)@.edges.push((sym, next_state)),
                ..old(self)@
            }),
    {
        self.transitions.push((sym, next_state));
    }

}

impl View for DfaState {
    type V = StateModel<char>;

    open spec fn view(&self) -> StateModel<char> {
        StateModel { index: self.index, terminal: self.is_terminal, edges: self.transitions@ }
    }
}

/// The target of the first transition among `edges` whose label is `c`.
pub open spec fn first_target(edges: Seq<(char, u64)>, c: char) -> Option<u64>
    decreases edges.len(),
{
    if edges.len() == 0 {
        None
    } else if edges[0].0 == c {
        Some(edges[0].1)
    } else {
        first_target(edges.drop_first(), c)
    }
}

/// The deterministic walk of `d` from the state with index `q` over the input
/// `w`: at each character the first transition with that label is taken; a
/// character without a transition rejects at once; an index without a state
/// is a lookup error; at the end of the input the state decides.
pub open spec fn dfa_run(d: AutomatonModel<char>, q: u64, w: Seq<char>) -> Result<
    bool,
    AutomatonError,
>
    decreases w.len(),
{
    if !d.has_state(q) {
        Err(AutomatonError::LookupError)
    } else if w.len() == 0 {
        Ok(d.state(q).terminal)
    } else {
        match first_target(d.state(q).edges, w[0]) {
            None => Ok(false),
            Some(t) => dfa_run(d, t, w.drop_first()),
        }
    }
}

/// The first transition with the label `x` decides where `x` leads.
pub proof fn lemma_first_target(edges: Seq<(char, u64)>, x: char, e: int)
    requires
        0 <= e < edges.len(),
        edges[e].0 == x,
        forall|f: int| 0 <= f < e ==> (#[trigger] edges[f]).0 != x,
    ensures
        first_target(edges, x) == Some(edges[e].1),
    decreases e,
{
    if e > 0 {
        assert(edges[0].0 != x);
        let rest = edges.drop_first();
        assert forall|f: int| 0 <= f < e - 1 implies (#[trigger] rest[f]).0 != x by {
            assert(edges[f + 1].0 != x);
        }
        lemma_first_target(rest, x, e - 1);
    }
}

/// A symbol that no transition carries leads nowhere.
pub proof fn lemma_no_target(edges: Seq<(char, u64)>, x: char)
    requires
        !has_label(edges, x),
    ensures
        first_target(edges, x) == None::<u64>,
    decreases edges.len(),
{
    if edges.len() > 0 {
        assert(edges[0].0 != x);
        let rest = edges.drop_first();
        assert forall|f: int| 0 <= f < rest.len() implies (#[trigger] rest[f]).0 != x by {
            assert(edges[f + 1].0 != x);
        }
        lemma_no_target(rest, x);
    }
}

/// Where a symbol leads, a transition with that symbol leads there.
pub proof fn lemma_target_is_edge(edges: Seq<(char, u64)>, x: char)
    requires
        first_target(edges, x) is Some,
    ensures
        exists|e: int|
            0 <= e < edges.len() && (#[trigger] edges[e]).0 == x && edges[e].1 == first_target(
                edges,
                x,
            ).unwrap(),
    decreases edges.len(),
{
    if edges[0].0 == x {
        assert(edges[0].1 == first_target(edges, x).unwrap());
    } else {
        let rest = edges.drop_first();
        lemma_target_is_edge(rest, x);
        let e = choose|e: int|
            0 <= e < rest.len() && (#[trigger] rest[e]).0 == x && rest[e].1 == first_target(
                rest,
                x,
            ).unwrap();
        assert(edges[e + 1] == rest[e]);
    }
}

/// A symbol that some transition carries leads somewhere.
pub proof fn lemma_no_target_rev(edges: Seq<(char, u64)>, x: char)
    requires
        has_label(edges, x),
    ensures
        first_target(edges, x) is Some,
    decreases edges.len(),
{
    let e = choose|e: int| 0 <= e < edges.len() && (#[trigger] edges[e]).0 == x;
    if edges[0].0 != x {
        let rest = edges.drop_first();
        assert(rest[e - 1].0 == x);
        lemma_no_target_rev(rest, x);
    }
}

/// Some transition of `d` carries the symbol `c`.
pub open spec fn dfa_has_symbol(d: AutomatonModel<char>, c: char) -> bool {
    exists|k: int, e: int|
        0 <= k < d.states.len() && 0 <= e < d.states[k].edges.len() && (
        #[trigger] d.states[k].edges[e]).0 == c
}

/// `a` is the alphabet of `d`: the symbols on its transitions, each once, in
/// ascending order.
pub open spec fn is_alphabet(d: AutomatonModel<char>, a: Seq<char>) -> bool {
    &&& ascending(a)
    &&& forall|c: char|
        #![trigger a.contains(c)]
        #![trigger dfa_has_symbol(d, c)]
        a.contains(c) <==> dfa_has_symbol(d, c)
}

/// The alphabet of `d`.
pub open spec fn alphabet_of(d: AutomatonModel<char>) -> Seq<char> {
    choose|a: Seq<char>| is_alphabet(d, a)
}

/// An automaton has one alphabet only.
pub proof fn lemma_alphabet_unique(d: AutomatonModel<char>, a: Seq<char>)
    requires
        is_alphabet(d, a),
    ensures
        a == alphabet_of(d),
{
    let b = alphabet_of(d);
    assert(is_alphabet(d, b));
    assert forall|c: char| a.contains(c) <==> b.contains(c) by {
        assert(a.contains(c) <==> dfa_has_symbol(d, c));
        assert(b.contains(c) <==> dfa_has_symbol(d, c));
    }
    lemma_ascending_unique(a, b);
}

/// An ascending sequence can take in one more symbol.
proof fn lemma_symbol_joins(a: Seq<char>, c: char) -> (b: Seq<char>)
    requires
        ascending(a),
    ensures
        ascending(b),
        forall|x: char| #[trigger] b.contains(x) <==> (a.contains(x) || x == c),
    decreases a.len(),
{
    if a.len() == 0 {
        let b = seq![c];
        assert(b[0] == c);
        b
    } else if a.last() < c {
        let b = a.push(c);
        assert(b[a.len() as int] == c);
        assert forall|x: char| #[trigger] b.contains(x) <==> (a.contains(x) || x == c) by {
            if a.contains(x) {
                let i = choose|i: int| 0 <= i < a.len() && a[i] == x;
                assert(b[i] == x);
            }
            if b.contains(x) {
                let i = choose|i: int| 0 <= i < b.len() && b[i] == x;
                if i < a.len() {
                    assert(a[i] == x);
                }
            }
        }
        b
    } else if a.last() == c {
        assert(a[a.len() - 1] == c);
        a
    } else {
        let a1 = a.drop_last();
        let b1 = lemma_symbol_joins(a1, c);
        let b = b1.push(a.last());
        assert forall|i: int, j: int| 0 <= i < j < b.len() implies b[i] < b[j] by {
            if j == b1.len() {
                assert(b1.contains(b1[i]));
                if a1.contains(b1[i]) {
                    let k = choose|k: int| 0 <= k < a1.len() && a1[k] == b1[i];
                    assert(a[k] < a[a.len() - 1]);
                }
            } else {
                assert(b1[i] < b1[j]);
            }
        }
        assert forall|x: char| #[trigger] b.contains(x) <==> (a.contains(x) || x == c) by {
            if b.contains(x) {
                let i = choose|i: int| 0 <= i < b.len() && b[i] == x;
                if i < b1.len() {
                    assert(b1[i] == x);
                    assert(b1.contains(x));
                    if a1.contains(x) {
                        let k = choose|k: int| 0 <= k < a1.len() && a1[k] == x;
                        assert(a[k] == x);
                    }
                } else {
                    assert(a[a.len() - 1] == x);
                }
            }
            if a.contains(x) {
                let k = choose|k: int| 0 <= k < a.len() && a[k] == x;
                if k < a1.len() {
                    assert(a1[k] == x);
                    assert(a1.contains(x));
                    assert(b1.contains(x));
                    let i = choose|i: int| 0 <= i < b1.len() && b1[i] == x;
                    assert(b[i] == x);
                } else {
                    assert(b[b1.len() as int] == x);
                }
            }
            if x == c {
                assert(b1.contains(x));
                let i = choose|i: int| 0 <= i < b1.len() && b1[i] == x;
                assert(b[i] == x);
            }
        }
        b
    }
}

/// The symbols on the first `e` transitions of the state at position `k`, and
/// on all transitions of the states before it, make an ascending sequence.
proof fn lemma_symbols_upto(d: AutomatonModel<char>, k: int, e: int) -> (b: Seq<char>)
    requires
        0 <= k <= d.states.len(),
        k < d.states.len() ==> 0 <= e <= d.states[k].edges.len(),
        k == d.states.len() ==> e == 0,
    ensures
        ascending(b),
        forall|x: char| #[trigger]
            b.contains(x) <==> exists|i: int, f: int|
                0 <= i < d.states.len() && 0 <= f < d.states[i].edges.len() && (i < k || (i == k
                    && f < e)) && (#[trigger] d.states[i].edges[f]).0 == x,
    decreases k, e,
{
    if e > 0 {
        let a = lemma_symbols_upto(d, k, e - 1);
        let c = d.states[k].edges[e - 1].0;
        let b = lemma_symbol_joins(a, c);
        assert forall|x: char| #[trigger]
            b.contains(x) <==> exists|i: int, f: int|
                0 <= i < d.states.len() && 0 <= f < d.states[i].edges.len() && (i < k || (i == k
                    && f < e)) && (#[trigger] d.states[i].edges[f]).0 == x by {
            if x == c {
                assert(d.states[k].edges[e - 1].0 == x);
            }
        }
        b
    } else if k > 0 {
        let a = lemma_symbols_upto(d, k - 1, d.states[k - 1].edges.len() as int);
        a
    } else {
        let b = Seq::<char>::empty();
        b
    }
}

/// Every automaton has an alphabet.
pub proof fn lemma_alphabet_exists(d: AutomatonModel<char>)
    ensures
        is_alphabet(d, alphabet_of(d)),
{
    let b = lemma_symbols_upto(d, d.states.len() as int, 0);
    assert forall|c: char|
        #![trigger b.contains(c)]
        #![trigger dfa_has_symbol(d, c)]
        b.contains(c) <==> dfa_has_symbol(d, c) by {
        if dfa_has_symbol(d, c) {
            let (k, e) = choose|k: int, e: int|
                0 <= k < d.states.len() && 0 <= e < d.states[k].edges.len() && (
                #[trigger] d.states[k].edges[e]).0 == c;
            assert(b.contains(c));
        }
    }
    assert(is_alphabet(d, b));
}

/// Some transition among `edges` carries the symbol `c`.
pub open spec fn has_label(edges: Seq<(char, u64)>, c: char) -> bool {
    exists|e: int| 0 <= e < edges.len() && (#[trigger] edges[e]).0 == c
}

/// The symbols of `a`, in order, that no transition among `edges` carries.
pub open spec fn missing(edges: Seq<(char, u64)>, a: Seq<char>) -> Seq<char> {
    a.filter(|c: char| !has_label(edges, c))
}

/// Every state of `d` has a transition on every symbol of `a`.
pub open spec fn total(d: AutomatonModel<char>, a: Seq<char>) -> bool {
    forall|k: int, i: int|
        0 <= k < d.states.len() && 0 <= i < a.len() ==> has_label(
            (#[trigger] d.states[k]).edges,
            #[trigger] a[i],
        )
}

/// No state of `d` has two transitions with one symbol.
pub open spec fn deterministic(d: AutomatonModel<char>) -> bool {
    forall|k: int, e: int, f: int|
        0 <= k < d.states.len() && 0 <= e < f < d.states[k].edges.len() ==> (
        #[trigger] d.states[k].edges[e]).0 != (#[trigger] d.states[k].edges[f]).0
}

/// Every state of `d` has exactly one transition on every symbol of `a`.
pub open spec fn complete(d: AutomatonModel<char>, a: Seq<char>) -> bool {
    total(d, a) && deterministic(d)
}

/// The state `s` with a transition to `sink` added, after its own, for each
/// symbol of `a` on which it has none, in the order of `a`.
pub open spec fn completed_state(s: StateModel<char>, a: Seq<char>, sink: u64) -> StateModel<
    char,
> {
    StateModel { edges: s.edges + to_sink(missing(s.edges, a), sink), ..s }
}

/// One transition to `sink` for each of `symbols`, in their order.
pub open spec fn to_sink(symbols: Seq<char>, sink: u64) -> Seq<(char, u64)> {
    symbols.map_values(|c: char| (c, sink))
}

/// The sink: a state that does not accept and that every symbol of `a` leads
/// back to.
pub open spec fn sink_state(a: Seq<char>, sink: u64) -> StateModel<char> {
    StateModel { index: sink, terminal: false, edges: to_sink(a, sink) }
}

/// The completion of `d`: `d` itself where every state has a transition on
/// every symbol of the alphabet; else `d` with a sink after its last state,
/// numbered one above the highest index, and with every state's missing
/// transitions led to the sink.
pub open spec fn completed(d: AutomatonModel<char>) -> AutomatonModel<char> {
    let a = alphabet_of(d);
    if total(d, a) {
        d
    } else {
        let sink = (d.states.last().index + 1) as u64;
        AutomatonModel {
            start: d.start,
            states: d.states.map_values(|s: StateModel<char>| completed_state(s, a, sink)).push(
                sink_state(a, sink),
            ),
        }
    }
}


/// A deterministic automaton: a start index and states with distinct indices.
#[derive(Clone, Debug)]
pub struct Dfa {
    starting_state: u64,
    states: Vec<DfaState>,
}

impl View for Dfa {
    type V = AutomatonModel<char>;

    closed spec fn view(&self) -> AutomatonModel<char> {
        AutomatonModel {
            start: self.starting_state,
            states: self.states@.map_values(|s: DfaState| s@),
        }
    }
}

impl Dfa {
    /// The states are held in strictly ascending order of index.
    pub open spec fn ordered(&self) -> bool {
        self@.sorted()
    }

    /// An automaton without states that starts at `starting_state`.
    pub fn new(starting_state: u64) -> (d: Self)
        ensures
            d.ordered(),
            d@ == (AutomatonModel::<char> { start: starting_state, states: Seq::empty() }),
    {
        let d = Dfa { starting_state, states: Vec::new() };
        assert(d@.states =~= Seq::empty());
        d
    }

    /// The automaton with the start index `starting_state` and the states
    /// `states`, which stand in ascending order of index.
    pub fn from_states(starting_state: u64, states: Vec<DfaState>) -> (d: Self)
        requires
            forall|i: int, j: int|
                0 <= i < j < states@.len() ==> (#[trigger] states@[i]).index < (
                #[trigger] states@[j]).index,
        ensures
            d.ordered(),
            d@ == (AutomatonModel::<char> {
                start: starting_state,
                states: states@.map_values(|s: DfaState| s@),
            }),
    {
        Dfa { starting_state, states }
    }

    /// The index of the state in which a walk starts.
    pub fn starting_state(&self) -> (q: u64)
        ensures
            q == self@.start,
    {
        self.starting_state
    }

    /// The states, in ascending order of index.
    pub fn states(&self) -> (s: &Vec<DfaState>)
        ensures
            s@.len() == self@.states.len(),
            forall|k: int| 0 <= k < s@.len() ==> (#[trigger] s@[k])@ == self@.states[k],
    {
        &self.states
    }

    /// An automaton equal to this one.
    pub fn duplicate(&self) -> (d: Self)
        requires
            self.ordered(),
        ensures
            d.ordered(),
            d@ == self@,
    {
        let mut states: Vec<DfaState> = Vec::new();
        let mut k: usize = 0;
        while k < self.states.len()
            invariant
                k <= self.states@.len(),
                states@.len() == k,
                forall|j: int| 0 <= j < k ==> (#[trigger] states@[j])@ == self.states@[j]@,
            decreases self.states@.len() - k,
        {
            states.push(copy_state(&self.states[k]));
            k += 1;
        }
        let d = Dfa { starting_state: self.starting_state, states };
        assert(d@.states =~= self@.states);
        d
    }

    /// The number of states with an index below `index`.
    fn lower_bound(&self, index: u64) -> (p: usize)
        requires
            self.ordered(),
        ensures
            p <= self@.states.len(),
            forall|k: int| 0 <= k < p ==> (#[trigger] self@.states[k]).index < index,
            forall|k: int| p <= k < self@.states.len() ==> (#[trigger] self@.states[k]).index >= index,
    {
        let mut lo: usize = 0;
        let mut hi: usize = self.states.len();
        while lo < hi
            invariant
                self.ordered(),
                lo <= hi <= self.states@.len(),
                forall|k: int| 0 <= k < lo ==> (#[trigger] self@.states[k]).index < index,
                forall|k: int| hi <= k < self@.states.len() ==> (#[trigger] self@.states[k]).index >= index,
            decreases hi - lo,
        {
            let mid = lo + (hi - lo) / 2;
            assert(self@.states[mid as int].index == self.states@[mid as int].index);
            if self.states[mid].index < index {
                assert forall|k: int| 0 <= k < mid + 1 implies (#[trigger] self@.states[k]).index < index by {
                    if k < mid {
                        assert(self@.states[k].index < self@.states[mid as int].index);
                    }
                }
                lo = mid + 1;
            } else {
                assert forall|k: int| mid <= k < self@.states.len() implies (#[trigger] self@.states[k]).index >= index by {
                    if k > mid {
                        assert(self@.states[mid as int].index < self@.states[k].index);
                    }
                }
                hi = mid;
            }
        }
        lo
    }

    /// Where the state with index `index` stands among the states, if there is one.
    pub fn find(&self, index: u64) -> (r: Option<usize>)
        requires
            self.ordered(),
        ensures
            match r {
                Some(k) => k < self@.states.len() && self@.states[k as int].index == index
                    && self@.has_state(index) && self@.position(index) == k,
                None => !self@.has_state(index),
            },
    {
        let p = self.lower_bound(index);
        if p < self.states.len() && self.states[p].index == index {
            assert(self@.states[p as int].index == index);
            proof {
                self@.lemma_position(p as int);
            }
            Some(p)
        } else {
            assert forall|k: int| 0 <= k < self@.states.len() implies (#[trigger] self@.states[k]).index != index by {
                if k >= p && k != p {
                    assert(self@.states[p as int].index < self@.states[k].index);
                }
            }
            None
        }
    }

    /// Adds `state` to the automaton, unless a state with its index is there
    /// already: that is a structural error, and the automaton stays as it was.
    pub fn add_state(&mut self, state: DfaState) -> (r: Result<(), AutomatonError>)
        requires
            old(self).ordered(),
        ensures
            final(self).ordered(),
            final(self)@.start == old(self)@.start,
            old(self)@.has_state(state.index) ==> r == Err::<(), AutomatonError>(
                AutomatonError::StructuralError,
            ) && final(self)@ == old(self)@,
            !old(self)@.has_state(state.index) ==> r == Ok::<(), AutomatonError>(())
                && final(self)@.has_state(state.index) && exists|p: int|
                0 <= p <= old(self)@.states.len() && final(self)@.states == old(
                    self,
                )@.states.insert(p, state@),
    {
        let p = self.lower_bound(state.index);
        if p < self.states.len() && self.states[p].index == state.index {
            assert(self@.states[p as int].index == state.index);
            return Err(AutomatonError::StructuralError);
        }
        assert forall|k: int| 0 <= k < self@.states.len() implies (#[trigger] self@.states[k]).index != state.index by {
            if k >= p && k != p {
                assert(self@.states[p as int].index < self@.states[k].index);
            }
        }
        let ghost before = self@;
        let ghost sv = state@;
        self.states.insert(p, state);
        proof {
            assert(self@.states =~= before.states.insert(p as int, sv));
            assert(self@.states[p as int].index == sv.index);
            assert forall|i: int, j: int| 0 <= i < j < self@.states.len() implies (
            #[trigger] self@.states[i]).index < (#[trigger] self@.states[j]).index by {
                let bi = if i < p { i } else { i - 1 };
                let bj = if j < p { j } else { j - 1 };
                if i != p {
                    assert(self@.states[i] == before.states[bi]);
                }
                if j != p {
                    assert(self@.states[j] == before.states[bj]);
                }
                if i != p && j != p {
                    assert(before.states[bi].index < before.states[bj].index);
                }
            }
        }
        Ok(())
    }

    /// The alphabet: the symbols on the transitions, each once, in ascending order.
    pub fn get_alphabet(&self) -> (a: Vec<char>)
        ensures
            is_alphabet(self@, a@),
    {
        let mut a: Vec<char> = Vec::new();
        let mut k: usize = 0;
        while k < self.states.len()
            invariant
                k <= self.states@.len(),
                ascending(a@),
                forall|c: char|
                    a@.contains(c) <==> exists|i: int, e: int|
                        0 <= i < k && 0 <= e < self@.states[i].edges.len() && (
                        #[trigger] self@.states[i].edges[e]).0 == c,
            decreases self.states@.len() - k,
        {
            let st = &self.states[k];
            assert(st@ == self@.states[k as int]);
            let mut e: usize = 0;
            while e < st.transitions.len()
                invariant
                    k < self.states@.len(),
                    st@ == self@.states[k as int],
                    e <= st.transitions@.len(),
                    ascending(a@),
                    forall|c: char|
                        a@.contains(c) <==> ((exists|i: int, f: int|
                            0 <= i < k && 0 <= f < self@.states[i].edges.len() && (
                            #[trigger] self@.states[i].edges[f]).0 == c) || (exists|f: int|
                            0 <= f < e && (#[trigger] st@.edges[f]).0 == c)),
                decreases st.transitions@.len() - e,
            {
                let ghost prev = a@;
                insert_symbol(&mut a, st.transitions[e].0);
                assert forall|c: char|
                    a@.contains(c) <==> ((exists|i: int, f: int|
                        0 <= i < k && 0 <= f < self@.states[i].edges.len() && (
                        #[trigger] self@.states[i].edges[f]).0 == c) || (exists|f: int|
                        0 <= f < e + 1 && (#[trigger] st@.edges[f]).0 == c)) by {
                    if exists|f: int| 0 <= f < e + 1 && (#[trigger] st@.edges[f]).0 == c {
                        let f = choose|f: int| 0 <= f < e + 1 && (#[trigger] st@.edges[f]).0 == c;
                        if f < e {
                            assert(prev.contains(c));
                        }
                    }
                    if c == st@.edges[e as int].0 {
                        assert(st@.edges[e as int].0 == c);
                    }
                }
                e += 1;
            }
            assert forall|c: char|
                a@.contains(c) <==> exists|i: int, f: int|
                    0 <= i < k + 1 && 0 <= f < self@.states[i].edges.len() && (
                    #[trigger] self@.states[i].edges[f]).0 == c by {
                if exists|f: int| 0 <= f < e && (#[trigger] st@.edges[f]).0 == c {
                    let f = choose|f: int| 0 <= f < e && (#[trigger] st@.edges[f]).0 == c;
                    assert(self@.states[k as int].edges[f].0 == c);
                }
                if exists|i: int, f: int|
                    0 <= i < k + 1 && 0 <= f < self@.states[i].edges.len() && (
                    #[trigger] self@.states[i].edges[f]).0 == c {
                    let (i, f) = choose|i: int, f: int|
                        0 <= i < k + 1 && 0 <= f < self@.states[i].edges.len() && (
                        #[trigger] self@.states[i].edges[f]).0 == c;
                    if i == k {
                        assert(st@.edges[f].0 == c);
                    }
                }
            }
            k += 1;
        }
        a
    }
}

impl Automaton for Dfa {
    open spec fn wf(&self) -> bool {
        self.ordered()
    }

    open spec fn outcome(&self, input: Seq<char>) -> Result<bool, AutomatonError> {
        dfa_run(self@, self@.start, input)
    }

    fn accept(&self, input: &str) -> (r: Result<bool, AutomatonError>) {
        let w = chars_of(input);
        let mut cur: u64 = self.starting_state;
        let mut i: usize = 0;
        assert(w@.skip(0) =~= w@);
        while i < w.len()
            invariant
                self.ordered(),
                i <= w@.len(),
                w@ == input@,
                dfa_run(self@, self@.start, w@) == dfa_run(self@, cur, w@.skip(i as int)),
            decreases w@.len() - i,
        {
            let ghost rest = w@.skip(i as int);
            assert(rest.len() > 0 && rest[0] == w@[i as int]);
            assert(rest.drop_first() =~= w@.skip(i + 1));
            match self.find(cur) {
                None => {
                    return Err(AutomatonError::LookupError);
                },
                Some(p) => {
                    let st = &self.states[p];
                    assert(st@ == self@.state(cur));
                    match first_match(&st.transitions, w[i]) {
                        None => {
                            return Ok(false);
                        },
                        Some(t) => {
                            cur = t;
                        },
                    }
                },
            }
            i += 1;
        }
        assert(w@.skip(i as int).len() == 0);
        match self.find(cur) {
            None => Err(AutomatonError::LookupError),
            Some(p) => {
                assert(self.states@[p as int]@ == self@.state(cur));
                Ok(self.states[p].is_terminal)
            },
        }
    }
}

/// An automaton that can be made into a complete deterministic automaton.
pub trait ToCompleteDfa: Automaton {
    /// The complete deterministic automaton of this automaton: one in which
    /// every state has a transition on every symbol of the alphabet.
    fn to_cdfa(&self) -> (r: Result<Dfa, AutomatonError>)
        requires
            self.wf(),
        ensures
            r matches Ok(d) ==> d.ordered() && total(d@, alphabet_of(d@)),
    ;
}

/// An automaton that can be made into a minimal complete deterministic automaton.
pub trait ToMinimalCompleteDfa: Automaton {
    /// The minimal complete deterministic automaton of this automaton.
    fn to_mcdfa(&self) -> (r: Result<Dfa, AutomatonError>)
        requires
            self.wf(),
        ensures
            r matches Ok(d) ==> d.ordered() && total(d@, alphabet_of(d@)),
    ;
}

/// An automaton that can be made into a deterministic automaton.
pub trait ToDfa: Automaton {
    /// The deterministic automaton of this automaton.
    fn to_dfa(&self) -> (r: Result<Dfa, AutomatonError>)
        requires
            self.wf(),
        ensures
            r matches Ok(d) ==> d.ordered(),
    ;
}

/// Whether some transition among `edges` carries the symbol `c`.
pub fn has_transition(edges: &Vec<(char, u64)>, c: char) -> (b: bool)
    ensures
        b == has_label(edges@, c),
{
    let mut k: usize = 0;
    while k < edges.len()
        invariant
            k <= edges@.len(),
            forall|e: int| 0 <= e < k ==> (#[trigger] edges@[e]).0 != c,
        decreases edges@.len() - k,
    {
        if edges[k].0 == c {
            return true;
        }
        k += 1;
    }
    false
}

/// A state equal to `st`.
pub fn copy_state(st: &DfaState) -> (r: DfaState)
    ensures
        r@ == st@,
{
    let mut r = DfaState::new(st.index, st.is_terminal);
    let mut e: usize = 0;
    while e < st.transitions.len()
        invariant
            e <= st.transitions@.len(),
            r.index == st.index,
            r.is_terminal == st.is_terminal,
            r.transitions@ == st.transitions@.take(e as int),
        decreases st.transitions@.len() - e,
    {
        let (c, t) = st.transitions[e];
        r.add_transition(c, t);
        assert(st.transitions@.take(e + 1) =~= st.transitions@.take(e as int).push((c, t)));
        e += 1;
    }
    assert(st.transitions@.take(e as int) =~= st.transitions@);
    r
}

/// One more symbol of the alphabet adds itself to the missing ones, or not.
pub proof fn lemma_missing_step(edges: Seq<(char, u64)>, a: Seq<char>, i: int)
    requires
        0 <= i < a.len(),
    ensures
        missing(edges, a.take(i + 1)) == if has_label(edges, a[i]) {
            missing(edges, a.take(i))
        } else {
            missing(edges, a.take(i)).push(a[i])
        },
{
    reveal(Seq::filter);
    assert(a.take(i + 1).drop_last() =~= a.take(i));
    assert(a.take(i + 1).last() == a[i]);
}

/// What is missing among ascending symbols is ascending, lies among them, and
/// is all of them that the transitions do not carry.
pub proof fn lemma_missing_ascending(edges: Seq<(char, u64)>, a: Seq<char>)
    requires
        ascending(a),
    ensures
        ascending(missing(edges, a)),
        forall|c: char| #[trigger]
            missing(edges, a).contains(c) <==> (a.contains(c) && !has_label(edges, c)),
    decreases a.len(),
{
    reveal(Seq::filter);
    let m = missing(edges, a);
    if a.len() == 0 {
        assert(m =~= Seq::<char>::empty());
    } else {
        let a1 = a.drop_last();
        let m1 = missing(edges, a1);
        lemma_missing_ascending(edges, a1);
        assert forall|c: char| #[trigger] m.contains(c) <==> (a.contains(c) && !has_label(
            edges,
            c,
        )) by {
            if m.contains(c) {
                let j = choose|j: int| 0 <= j < m.len() && m[j] == c;
                if j < m1.len() {
                    assert(m1[j] == c);
                    assert(m1.contains(c));
                    let i = choose|i: int| 0 <= i < a1.len() && a1[i] == c;
                    assert(a[i] == c);
                } else {
                    assert(a[a.len() - 1] == c);
                }
            }
            if a.contains(c) && !has_label(edges, c) {
                let i = choose|i: int| 0 <= i < a.len() && a[i] == c;
                if i < a1.len() {
                    assert(a1[i] == c);
                    assert(a1.contains(c));
                    assert(m1.contains(c));
                    let j = choose|j: int| 0 <= j < m1.len() && m1[j] == c;
                    assert(m[j] == c);
                } else {
                    assert(m[m.len() - 1] == c);
                }
            }
        }
        assert forall|i: int, j: int| 0 <= i < j < m.len() implies m[i] < m[j] by {
            if j < m1.len() {
                assert(m1[i] < m1[j]);
            } else {
                assert(m1[i] == m[i]);
                assert(m1.contains(m[i]));
                assert(a1.contains(m[i]));
                let x = choose|x: int| 0 <= x < a1.len() && a1[x] == m[i];
                assert(a[x] < a[a.len() - 1]);
            }
        }
    }
}

/// The target of the first transition among `edges` whose label is `c`.
pub fn first_match(edges: &Vec<(char, u64)>, c: char) -> (r: Option<u64>)
    ensures
        r == first_target(edges@, c),
{
    let mut k: usize = 0;
    assert(edges@.skip(0) =~= edges@);
    while k < edges.len()
        invariant
            k <= edges@.len(),
            first_target(edges@, c) == first_target(edges@.skip(k as int), c),
        decreases edges@.len() - k,
    {
        let ghost rest = edges@.skip(k as int);
        assert(rest.len() > 0 && rest[0] == edges@[k as int]);
        assert(rest.drop_first() =~= edges@.skip(k + 1));
        if edges[k].0 == c {
            return Some(edges[k].1);
        }
        k += 1;
    }
    assert(edges@.skip(k as int).len() == 0);
    None
}

} // verus!
