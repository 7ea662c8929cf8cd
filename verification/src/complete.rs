//! Completion: a deterministic automaton is made total by a sink state.

use vstd::prelude::*;
use crate::convert::{completion_of, dfa_model};
use crate::dfa::{
    alphabet_of, complete, completed, completed_state, copy_state, deterministic, dfa_has_symbol,
    dfa_run, first_target, has_label, has_transition, is_alphabet, lemma_alphabet_exists,
    lemma_alphabet_unique, lemma_missing_ascending, lemma_missing_step, lemma_no_target_rev,
    lemma_target_is_edge, missing, sink_state, to_sink, total, Dfa, DfaState, ToCompleteDfa,
};
use crate::error::AutomatonError;
use crate::model::AutomatonModel;

verus! {

/// Whether every one of `states` has a transition on every symbol of `a`.
fn is_total(states: &Vec<DfaState>, a: &Vec<char>) -> (b: bool)
    ensures
        b == (forall|k: int, i: int|
            0 <= k < states@.len() && 0 <= i < a@.len() ==> has_label(
                (#[trigger] states@[k])@.edges,
                #[trigger] a@[i],
            )),
{
    let mut k: usize = 0;
    while k < states.len()
        invariant
            k <= states@.len(),
            forall|j: int, i: int|
                0 <= j < k && 0 <= i < a@.len() ==> has_label(
                    (#[trigger] states@[j])@.edges,
                    #[trigger] a@[i],
                ),
        decreases states@.len() - k,
    {
        let mut i: usize = 0;
        while i < a.len()
            invariant
                k < states@.len(),
                i <= a@.len(),
                forall|x: int|
                    0 <= x < i ==> has_label(states@[k as int]@.edges, #[trigger] a@[x]),
            decreases a@.len() - i,
        {
            if !has_transition(&states[k].transitions, a[i]) {
                return false;
            }
            i += 1;
        }
        k += 1;
    }
    true
}

/// The sink state for the alphabet `a`.
fn make_sink(a: &Vec<char>, sink: u64) -> (s: DfaState)
    ensures
        s@ == sink_state(a@, sink),
{
    let mut s = DfaState::new(sink, false);
    let mut i: usize = 0;
    while i < a.len()
        invariant
            i <= a@.len(),
            s.index == sink,
            !s.is_terminal,
            s.transitions@ == to_sink(a@.take(i as int), sink),
        decreases a@.len() - i,
    {
        s.add_transition(a[i], sink);
        assert(to_sink(a@.take(i + 1), sink) =~= to_sink(a@.take(i as int), sink).push(
            (a@[i as int], sink),
        ));
        i += 1;
    }
    assert(a@.take(i as int) =~= a@);
    s
}

/// The state `st` with its missing transitions led to `sink`.
fn complete_state(st: &DfaState, a: &Vec<char>, sink: u64) -> (s: DfaState)
    ensures
        s@ == completed_state(st@, a@, sink),
{
    let mut s = copy_state(st);
    let mut i: usize = 0;
    assert(s.transitions@ =~= st@.edges + to_sink(missing(st@.edges, a@.take(0)), sink)) by {
        reveal(Seq::filter);
    }
    while i < a.len()
        invariant
            i <= a@.len(),
            s.index == st.index,
            s.is_terminal == st.is_terminal,
            s.transitions@ == st@.edges + to_sink(missing(st@.edges, a@.take(i as int)), sink),
        decreases a@.len() - i,
    {
        proof {
            lemma_missing_step(st@.edges, a@, i as int);
        }
        if !has_transition(&st.transitions, a[i]) {
            s.add_transition(a[i], sink);
            assert(to_sink(missing(st@.edges, a@.take(i as int)).push(a@[i as int]), sink)
                =~= to_sink(missing(st@.edges, a@.take(i as int)), sink).push(
                (a@[i as int], sink),
            ));
            assert(s.transitions@ =~= st@.edges + to_sink(
                missing(st@.edges, a@.take(i + 1)),
                sink,
            ));
        }
        i += 1;
    }
    assert(a@.take(i as int) =~= a@);
    s
}

impl ToCompleteDfa for Dfa {
    /// Fails with a lookup error where the start index names no state, and
    /// with a capacity error where a sink is needed and the highest index has
    /// no successor. Else the result is the completion of the automaton.
    fn to_cdfa(&self) -> (r: Result<Dfa, AutomatonError>)
        ensures
            dfa_model(r) == completion_of(self@),
            !self@.has_state(self@.start) ==> r == Err::<Dfa, AutomatonError>(
                AutomatonError::LookupError,
            ),
            self@.has_state(self@.start) && !total(self@, alphabet_of(self@))
                && self@.states.last().index == u64::MAX ==> r == Err::<Dfa, AutomatonError>(
                AutomatonError::CapacityError,
            ),
            self@.has_state(self@.start) && (total(self@, alphabet_of(self@))
                || self@.states.last().index < u64::MAX) ==> (r matches Ok(d) && d@ == completed(
                self@,
            )),
            r matches Ok(d) ==> (deterministic(self@) ==> complete(d@, alphabet_of(d@))),
    {
        if self.find(self.starting_state()).is_none() {
            return Err(AutomatonError::LookupError);
        }
        let a = self.get_alphabet();
        let states = self.states();
        let n = states.len();
        proof {
            lemma_alphabet_unique(self@, a@);
        }
        let whole = is_total(states, &a);
        proof {
            if whole {
                assert forall|k: int, i: int|
                    0 <= k < self@.states.len() && 0 <= i < a@.len() implies has_label(
                    (#[trigger] self@.states[k]).edges,
                    #[trigger] a@[i],
                ) by {
                    assert(states@[k]@ == self@.states[k]);
                }
            } else {
                let (k, i) = choose|k: int, i: int|
                    0 <= k < states@.len() && 0 <= i < a@.len() && !has_label(
                        (#[trigger] states@[k])@.edges,
                        #[trigger] a@[i],
                    );
                assert(!has_label(self@.states[k].edges, a@[i]));
            }
        }
        if whole {
            let d = self.duplicate();
            proof {
                lemma_completion(self@);
            }
            return Ok(d);
        }
        let top = states[n - 1].index;
        assert(top == self@.states.last().index);
        if top == u64::MAX {
            return Err(AutomatonError::CapacityError);
        }
        let sink = top + 1;
        let mut out: Vec<DfaState> = Vec::new();
        let mut k: usize = 0;
        while k < n
            invariant
                n == states@.len(),
                n == self@.states.len(),
                forall|j: int| 0 <= j < n ==> (#[trigger] states@[j])@ == self@.states[j],
                k <= n,
                out@.len() == k,
                forall|j: int|
                    0 <= j < k ==> (#[trigger] out@[j])@ == completed_state(
                        self@.states[j],
                        a@,
                        sink,
                    ),
            decreases n - k,
        {
            out.push(complete_state(&states[k], &a, sink));
            k += 1;
        }
        out.push(make_sink(&a, sink));
        assert forall|i: int, j: int| 0 <= i < j < out@.len() implies (#[trigger] out@[i]).index
            < (#[trigger] out@[j]).index by {
            assert(out@[i]@.index == self@.states[i].index);
            if j < n {
                assert(out@[j]@.index == self@.states[j].index);
            } else {
                if i < n - 1 {
                    assert(self@.states[i].index < self@.states[n - 1].index);
                }
            }
        }
        let d = Dfa::from_states(self.starting_state(), out);
        proof {
            assert(d@.states =~= completed(self@).states);
            lemma_completion(self@);
        }
        Ok(d)
    }
}

/// The completion of an automaton has the alphabet of the automaton and a
/// transition on each of its symbols in every state. Where no state of the
/// automaton has two transitions with one symbol, every state of the
/// completion has exactly one transition on every symbol of the alphabet.
pub proof fn lemma_completion(d: AutomatonModel<char>)
    requires
        d.sorted(),
        d.states.len() > 0,
        total(d, alphabet_of(d)) || d.states.last().index < u64::MAX,
    ensures
        completed(d).sorted(),
        completed(d).start == d.start,
        forall|q: u64| d.has_state(q) ==> #[trigger] completed(d).has_state(q),
        alphabet_of(completed(d)) == alphabet_of(d),
        total(completed(d), alphabet_of(d)),
        deterministic(d) ==> complete(completed(d), alphabet_of(completed(d))),
{
    let a = alphabet_of(d);
    let c = completed(d);
    lemma_alphabet_exists(d);
    if total(d, a) {
    } else {
        let sink = (d.states.last().index + 1) as u64;
        let n = d.states.len() as int;
        assert forall|k: int| 0 <= k < n implies (#[trigger] d.states[k]).index < sink by {
            if k < n - 1 {
                assert(d.states[k].index < d.states[n - 1].index);
            }
        }
        assert forall|i: int, j: int| 0 <= i < j < c.states.len() implies (
        #[trigger] c.states[i]).index < (#[trigger] c.states[j]).index by {
            assert(c.states[i].index == d.states[i].index);
            if j < n {
                assert(c.states[j].index == d.states[j].index);
            }
        }
        assert forall|q: u64| d.has_state(q) implies #[trigger] c.has_state(q) by {
            let k = d.position(q);
            assert(c.states[k].index == q);
        }
        // The completion carries the symbols of `d` and no others.
        assert forall|x: char|
            #![trigger a.contains(x)]
            #![trigger dfa_has_symbol(c, x)]
            a.contains(x) <==> dfa_has_symbol(c, x) by {
            if a.contains(x) {
                assert(dfa_has_symbol(d, x));
                let (k, e) = choose|k: int, e: int|
                    0 <= k < d.states.len() && 0 <= e < d.states[k].edges.len() && (
                    #[trigger] d.states[k].edges[e]).0 == x;
                assert(c.states[k].edges[e].0 == x);
            }
            if dfa_has_symbol(c, x) {
                let (k, e) = choose|k: int, e: int|
                    0 <= k < c.states.len() && 0 <= e < c.states[k].edges.len() && (
                    #[trigger] c.states[k].edges[e]).0 == x;
                if k < n {
                    let own = d.states[k].edges;
                    if e < own.len() {
                        assert(d.states[k].edges[e].0 == x);
                        assert(dfa_has_symbol(d, x));
                    } else {
                        lemma_missing_ascending(own, a);
                        let m = missing(own, a);
                        assert(m[e - own.len()] == x);
                        assert(m.contains(x));
                    }
                } else {
                    assert(a[e] == x);
                }
            }
        }
        assert(is_alphabet(c, a));
        lemma_alphabet_unique(c, a);
        assert forall|k: int, i: int| 0 <= k < c.states.len() && 0 <= i < a.len() implies has_label(
            (#[trigger] c.states[k]).edges,
            #[trigger] a[i],
        ) by {
            let x = a[i];
            assert(a.contains(x));
            if k < n {
                let own = d.states[k].edges;
                lemma_missing_ascending(own, a);
                let m = missing(own, a);
                if has_label(own, x) {
                    let e = choose|e: int| 0 <= e < own.len() && (#[trigger] own[e]).0 == x;
                    assert(c.states[k].edges[e].0 == x);
                } else {
                    assert(m.contains(x));
                    let j = choose|j: int| 0 <= j < m.len() && m[j] == x;
                    assert(c.states[k].edges[own.len() + j].0 == x);
                }
            } else {
                assert(c.states[k].edges[i].0 == x);
            }
        }
        if deterministic(d) {
            assert forall|k: int, e: int, f: int|
                0 <= k < c.states.len() && 0 <= e < f < c.states[k].edges.len() implies (
            #[trigger] c.states[k].edges[e]).0 != (#[trigger] c.states[k].edges[f]).0 by {
                if k < n {
                    let own = d.states[k].edges;
                    lemma_missing_ascending(own, a);
                    let m = missing(own, a);
                    if f < own.len() {
                        assert(d.states[k].edges[e].0 != d.states[k].edges[f].0);
                    } else if e < own.len() {
                        assert(m.contains(m[f - own.len()]));
                        assert(own[e].0 == c.states[k].edges[e].0);
                    } else {
                        assert(m[e - own.len()] < m[f - own.len()]);
                    }
                } else {
                    assert(a[e] < a[f]);
                }
            }
        }
    }
}

/// Among transitions joined end to end, a symbol leads where it leads in
/// the first part, or else where it leads in the second.
pub proof fn lemma_first_target_joined(e1: Seq<(char, u64)>, e2: Seq<(char, u64)>, x: char)
    ensures
        first_target(e1 + e2, x) == if first_target(e1, x) is Some {
            first_target(e1, x)
        } else {
            first_target(e2, x)
        },
    decreases e1.len(),
{
    if e1.len() == 0 {
        assert(e1 + e2 =~= e2);
    } else {
        assert((e1 + e2).drop_first() =~= e1.drop_first() + e2);
        lemma_first_target_joined(e1.drop_first(), e2, x);
    }
}

/// Among transitions that all lead to the sink, a symbol leads to the sink
/// exactly if it is one of theirs.
pub proof fn lemma_first_target_sink(symbols: Seq<char>, sink: u64, x: char)
    ensures
        first_target(to_sink(symbols, sink), x) == if symbols.contains(x) {
            Some(sink)
        } else {
            None
        },
    decreases symbols.len(),
{
    let edges = to_sink(symbols, sink);
    if symbols.len() > 0 {
        let rest = symbols.drop_first();
        assert(edges.drop_first() =~= to_sink(rest, sink));
        lemma_first_target_sink(rest, sink, x);
        assert(symbols[0] == edges[0].0);
        if symbols.contains(x) && symbols[0] != x {
            let i = choose|i: int| 0 <= i < symbols.len() && symbols[i] == x;
            assert(rest[i - 1] == x);
        }
        if rest.contains(x) {
            let i = choose|i: int| 0 <= i < rest.len() && rest[i] == x;
            assert(symbols[i + 1] == x);
        }
    }
}

/// A walk that starts in the sink rejects.
pub proof fn lemma_sink_run(c: AutomatonModel<char>, a: Seq<char>, k: int, w: Seq<char>)
    requires
        c.sorted(),
        0 <= k < c.states.len(),
        c.states[k] == sink_state(a, c.states[k].index),
    ensures
        dfa_run(c, c.states[k].index, w) == Ok::<bool, AutomatonError>(false),
    decreases w.len(),
{
    c.lemma_position(k);
    if w.len() > 0 {
        lemma_first_target_sink(a, c.states[k].index, w[0]);
        if a.contains(w[0]) {
            lemma_sink_run(c, a, k, w.drop_first());
        }
    }
}

/// The completion of an automaton whose transitions all lead to states
/// walks as the automaton does, from every state of the automaton.
pub proof fn lemma_completion_run(d: AutomatonModel<char>, q: u64, w: Seq<char>)
    requires
        d.sorted(),
        d.closed(),
        total(d, alphabet_of(d)) || d.states.last().index < u64::MAX,
        d.has_state(q),
    ensures
        dfa_run(completed(d), q, w) == dfa_run(d, q, w),
    decreases w.len(),
{
    let a = alphabet_of(d);
    let c = completed(d);
    lemma_alphabet_exists(d);
    if !total(d, a) {
        lemma_completion(d);
        let n = d.states.len() as int;
        let sink = (d.states.last().index + 1) as u64;
        let k = d.position(q);
        d.lemma_position(k);
        assert(c.states[k].index == q);
        c.lemma_position(k);
        if w.len() > 0 {
            let x = w[0];
            let own = d.states[k].edges;
            let added = to_sink(missing(own, a), sink);
            lemma_first_target_joined(own, added, x);
            lemma_first_target_sink(missing(own, a), sink, x);
            lemma_missing_ascending(own, a);
            match first_target(own, x) {
                Some(t) => {
                    lemma_target_is_edge(own, x);
                    let e = choose|e: int|
                        0 <= e < own.len() && (#[trigger] own[e]).0 == x && own[e].1
                            == first_target(own, x).unwrap();
                    assert(d.states[k].edges[e].1 == t);
                    lemma_completion_run(d, t, w.drop_first());
                },
                None => {
                    if has_label(own, x) {
                        lemma_no_target_rev(own, x);
                    }
                    if a.contains(x) {
                        assert(c.states[n] == sink_state(a, sink));
                        lemma_sink_run(c, a, n, w.drop_first());
                    }
                },
            }
        }
    }
}

} // verus!
