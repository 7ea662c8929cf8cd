//! Subset construction: the deterministic automaton whose states are the
//! sets of states that a nondeterministic automaton may be in.

use vstd::prelude::*;
use vstd::set_lib::FiniteFull;
use crate::convert::{dfa_model, dfa_of_chars};
use crate::bits::{
    bit, has_bit, lemma_bit_single, lemma_bit_zero, lemma_bits_decide, lemma_not_empty, with_bit,
};
use crate::dfa::{
    alphabet_of, dfa_has_symbol, is_alphabet, lemma_alphabet_exists, lemma_alphabet_unique, Dfa,
    DfaState, ToDfa,
};
use crate::error::AutomatonError;
use crate::model::{lemma_same_states, AutomatonModel, StateModel};
use crate::nfa::Nfa;
use crate::symbols::{ascending, insert_symbol};

verus! {

/// The automaton `m`, whose labels are single characters, with each label
/// as a character.
pub open spec fn unit_model(m: AutomatonModel<Seq<char>>) -> AutomatonModel<char> {
    AutomatonModel {
        start: m.start,
        states: m.states.map_values(
            |s: StateModel<Seq<char>>|
                StateModel {
                    index: s.index,
                    terminal: s.terminal,
                    edges: s.edges.map_values(|e: (Seq<char>, u64)| (e.0[0], e.1)),
                },
        ),
    }
}

/// The symbol `x` leads from some state of the set `s` to the index `t`.
pub open spec fn moved(cm: AutomatonModel<char>, s: u64, x: char, t: u64) -> bool {
    exists|i: u64, e: int|
        bit(s, i) && cm.has_state(i) && 0 <= e < cm.state(i).edges.len() && (#[trigger] cm.state(
            i,
        ).edges[e]) == (x, t)
}

/// The set `next` holds the indices to which `x` leads from the states of
/// the set `s`, and no others.
pub open spec fn is_move(cm: AutomatonModel<char>, s: u64, x: char, next: u64) -> bool {
    forall|t: u64| #![trigger bit(next, t)] #![trigger moved(cm, s, x, t)] bit(next, t) <==> moved(cm, s, x, t)
}

/// The symbol `x` leads somewhere from the set `s`.
pub open spec fn movable(cm: AutomatonModel<char>, s: u64, x: char) -> bool {
    exists|t: u64| moved(cm, s, x, t)
}

/// The set of the indices to which `x` leads from the states of the set `s`.
pub open spec fn move_of(cm: AutomatonModel<char>, s: u64, x: char) -> u64 {
    choose|next: u64| is_move(cm, s, x, next)
}

/// The set that holds the start index alone.
pub open spec fn start_set(cm: AutomatonModel<char>) -> u64 {
    1u64 << cm.start
}

/// The set `s` is reached from the start set by `steps` symbols, each of
/// which leads somewhere.
pub open spec fn subset_reached_in(cm: AutomatonModel<char>, steps: nat, s: u64) -> bool
    decreases steps,
{
    if steps == 0 {
        s == start_set(cm)
    } else {
        exists|p: u64, x: char|
            subset_reached_in(cm, (steps - 1) as nat, p) && #[trigger] is_move(cm, p, x, s) && s
                != 0
    }
}

/// The set `s` is reached from the start set.
pub open spec fn subset_reachable(cm: AutomatonModel<char>, s: u64) -> bool {
    exists|steps: nat| subset_reached_in(cm, steps, s)
}

/// Some symbol leads from a reachable set to an index without a state.
pub open spec fn subset_dangling(cm: AutomatonModel<char>) -> bool {
    exists|s: u64, x: char, t: u64|
        subset_reachable(cm, s) && #[trigger] moved(cm, s, x, t) && !cm.has_state(t)
}

/// Some state of the set `s` accepts.
pub open spec fn subset_accepts(cm: AutomatonModel<char>, s: u64) -> bool {
    exists|k: int|
        0 <= k < cm.states.len() && bit(s, (#[trigger] cm.states[k]).index)
            && cm.states[k].terminal
}

/// The transitions of the set `s`: for each symbol of `a` that leads
/// somewhere from `s`, in order, the set to which it leads.
pub open spec fn subset_edges(cm: AutomatonModel<char>, a: Seq<char>, s: u64) -> Seq<(char, u64)> {
    a.filter(|x: char| movable(cm, s, x)).map_values(|x: char| (x, move_of(cm, s, x)))
}

/// The state that stands for the set `s`.
pub open spec fn subset_state(cm: AutomatonModel<char>, s: u64) -> StateModel<char> {
    StateModel {
        index: s,
        terminal: subset_accepts(cm, s),
        edges: subset_edges(cm, alphabet_of(cm), s),
    }
}

/// `d` is the deterministic automaton of `cm`: it starts in the set of the
/// start index, its states are the sets that are reached from there, each
/// under the index that holds it, and each accepts and leads on as its set does.
pub open spec fn is_subset_dfa(cm: AutomatonModel<char>, d: AutomatonModel<char>) -> bool {
    &&& d.start == start_set(cm)
    &&& forall|s: u64| #![trigger d.has_state(s)] #![trigger subset_reachable(cm, s)] d.has_state(s) <==> subset_reachable(cm, s)
    &&& forall|k: int|
        0 <= k < d.states.len() ==> #[trigger] d.states[k] == subset_state(cm, d.states[k].index)
}

/// The deterministic automaton of `cm`.
pub open spec fn subset_dfa(cm: AutomatonModel<char>) -> AutomatonModel<char> {
    choose|d: AutomatonModel<char>| d.sorted() && is_subset_dfa(cm, d)
}

/// An automaton has one deterministic automaton only.
pub proof fn lemma_subset_dfa_unique(cm: AutomatonModel<char>, d: AutomatonModel<char>)
    requires
        d.sorted(),
        is_subset_dfa(cm, d),
    ensures
        d == subset_dfa(cm),
{
    let o = subset_dfa(cm);
    assert(o.sorted() && is_subset_dfa(cm, o));
    assert forall|idx: u64| d.has_state(idx) <==> o.has_state(idx) by {
        assert(d.has_state(idx) <==> subset_reachable(cm, idx));
        assert(o.has_state(idx) <==> subset_reachable(cm, idx));
    }
    assert forall|idx: u64| d.has_state(idx) implies d.state(idx) == o.state(idx) by {
        let k = d.position(idx);
        let j = o.position(idx);
        assert(d.states[k] == subset_state(cm, d.states[k].index));
        assert(o.states[j] == subset_state(cm, o.states[j].index));
    }
    lemma_same_states(d, o);
}

/// Every index that the set `s` holds names a state.
pub open spec fn valid_set(cm: AutomatonModel<char>, s: u64) -> bool {
    forall|i: u64| bit(s, i) ==> cm.has_state(i)
}

/// One more symbol adds its transition to those of a set, or not.
pub proof fn lemma_subset_edges_step(cm: AutomatonModel<char>, a: Seq<char>, s: u64, k: int)
    requires
        0 <= k < a.len(),
    ensures
        subset_edges(cm, a.take(k + 1), s) == if movable(cm, s, a[k]) {
            subset_edges(cm, a.take(k), s).push((a[k], move_of(cm, s, a[k])))
        } else {
            subset_edges(cm, a.take(k), s)
        },
{
    reveal(Seq::filter);
    assert(a.take(k + 1).drop_last() =~= a.take(k));
    assert(a.take(k + 1).last() == a[k]);
    let f = |x: char| movable(cm, s, x);
    let g = |x: char| (x, move_of(cm, s, x));
    if movable(cm, s, a[k]) {
        assert(a.take(k + 1).filter(f).map_values(g) =~= a.take(k).filter(f).map_values(g).push(
            g(a[k]),
        ));
    }
}

/// A set that holds what a symbol leads to is the set of the move.
pub proof fn lemma_move_of(cm: AutomatonModel<char>, s: u64, x: char, next: u64)
    requires
        is_move(cm, s, x, next),
    ensures
        move_of(cm, s, x) == next,
        movable(cm, s, x) <==> next != 0,
{
    let other = move_of(cm, s, x);
    assert(is_move(cm, s, x, other));
    assert forall|j: u64| bit(other, j) == bit(next, j) by {
        assert(bit(other, j) <==> moved(cm, s, x, j));
        assert(bit(next, j) <==> moved(cm, s, x, j));
    }
    lemma_bits_decide(other, next);
    if next != 0 {
        let j = lemma_not_empty(next);
        assert(moved(cm, s, x, j));
    }
    if movable(cm, s, x) {
        let t = choose|t: u64| moved(cm, s, x, t);
        assert(bit(next, t));
        lemma_bit_zero(t);
    }
}

impl Nfa<char> {
    /// The automaton with each label as a character.
    pub open spec fn chars(&self) -> AutomatonModel<char> {
        unit_model(self@)
    }

    /// The alphabet: the symbols on the transitions, each once, in ascending order.
    pub fn alphabet(&self) -> (a: Vec<char>)
        ensures
            is_alphabet(self.chars(), a@),
    {
        let ghost cm = self.chars();
        let states = self.states();
        let mut a: Vec<char> = Vec::new();
        let mut k: usize = 0;
        while k < states.len()
            invariant
                cm == self.chars(),
                states@.len() == self@.states.len(),
                forall|j: int| 0 <= j < states@.len() ==> (#[trigger] states@[j])@ == self@.states[j],
                k <= states@.len(),
                ascending(a@),
                forall|c: char|
                    a@.contains(c) <==> exists|i: int, e: int|
                        0 <= i < k && 0 <= e < cm.states[i].edges.len() && (
                        #[trigger] cm.states[i].edges[e]).0 == c,
            decreases states@.len() - k,
        {
            let st = &states[k];
            assert(st@ == self@.states[k as int]);
            let mut e: usize = 0;
            while e < st.transitions.len()
                invariant
                    cm == self.chars(),
                    k < states@.len(),
                    states@.len() == self@.states.len(),
                    st@ == self@.states[k as int],
                    e <= st.transitions@.len(),
                    ascending(a@),
                    forall|c: char|
                        a@.contains(c) <==> ((exists|i: int, f: int|
                            0 <= i < k && 0 <= f < cm.states[i].edges.len() && (
                            #[trigger] cm.states[i].edges[f]).0 == c) || (exists|f: int|
                            0 <= f < e && (#[trigger] cm.states[k as int].edges[f]).0 == c)),
                decreases st.transitions@.len() - e,
            {
                let ghost prev = a@;
                assert(cm.states[k as int].edges[e as int].0 == st.transitions@[e as int].0);
                insert_symbol(&mut a, st.transitions[e].0);
                assert forall|c: char|
                    a@.contains(c) <==> ((exists|i: int, f: int|
                        0 <= i < k && 0 <= f < cm.states[i].edges.len() && (
                        #[trigger] cm.states[i].edges[f]).0 == c) || (exists|f: int|
                        0 <= f < e + 1 && (#[trigger] cm.states[k as int].edges[f]).0 == c)) by {
                    if exists|f: int|
                        0 <= f < e + 1 && (#[trigger] cm.states[k as int].edges[f]).0 == c {
                        let f = choose|f: int|
                            0 <= f < e + 1 && (#[trigger] cm.states[k as int].edges[f]).0 == c;
                        if f < e {
                            assert(prev.contains(c));
                        }
                    }
                    if c == cm.states[k as int].edges[e as int].0 {
                        assert(cm.states[k as int].edges[e as int].0 == c);
                    }
                    assert(a@.contains(c) <==> (prev.contains(c) || c == st.transitions@[e as int].0));
                }
                e += 1;
            }
            assert forall|c: char|
                a@.contains(c) <==> exists|i: int, f: int|
                    0 <= i < k + 1 && 0 <= f < cm.states[i].edges.len() && (
                    #[trigger] cm.states[i].edges[f]).0 == c by {
                if exists|f: int| 0 <= f < e && (#[trigger] cm.states[k as int].edges[f]).0 == c {
                    let f = choose|f: int|
                        0 <= f < e && (#[trigger] cm.states[k as int].edges[f]).0 == c;
                    assert(cm.states[k as int].edges[f].0 == c);
                }
                if exists|i: int, f: int|
                    0 <= i < k + 1 && 0 <= f < cm.states[i].edges.len() && (
                    #[trigger] cm.states[i].edges[f]).0 == c {
                    let (i, f) = choose|i: int, f: int|
                        0 <= i < k + 1 && 0 <= f < cm.states[i].edges.len() && (
                        #[trigger] cm.states[i].edges[f]).0 == c;
                    if i == k {
                        assert(cm.states[k as int].edges[f].0 == c);
                    }
                }
            }
            k += 1;
        }
        a
    }
}

/// Every state of `cm` has an index that a set can hold.
pub open spec fn small(cm: AutomatonModel<char>) -> bool {
    forall|k: int| 0 <= k < cm.states.len() ==> (#[trigger] cm.states[k]).index < 64
}

/// `mem` holds the positions of the states of the set `s`.
pub open spec fn is_members(cm: AutomatonModel<char>, s: u64, mem: Seq<usize>) -> bool {
    &&& forall|j: int|
        0 <= j < mem.len() ==> (#[trigger] mem[j]) < cm.states.len() && bit(
            s,
            cm.states[mem[j] as int].index,
        )
    &&& forall|k: int|
        0 <= k < cm.states.len() && bit(s, (#[trigger] cm.states[k]).index) ==> mem.contains(
            k as usize,
        )
}

/// The positions of the states of the set `s`.
fn members_of(nfa: &Nfa<char>, s: u64) -> (mem: Vec<usize>)
    requires
        small(nfa.chars()),
    ensures
        is_members(nfa.chars(), s, mem@),
{
    let ghost cm = nfa.chars();
    let states = nfa.states();
    let mut mem: Vec<usize> = Vec::new();
    let mut k: usize = 0;
    while k < states.len()
        invariant
            cm == nfa.chars(),
            small(cm),
            states@.len() == cm.states.len(),
            forall|j: int| 0 <= j < states@.len() ==> (#[trigger] states@[j])@ == nfa@.states[j],
            k <= states@.len(),
            forall|j: int|
                0 <= j < mem@.len() ==> (#[trigger] mem@[j]) < k && bit(
                    s,
                    cm.states[mem@[j] as int].index,
                ),
            forall|i: int|
                0 <= i < k && bit(s, (#[trigger] cm.states[i]).index) ==> mem@.contains(
                    i as usize,
                ),
        decreases states@.len() - k,
    {
        assert(states@[k as int]@ == nfa@.states[k as int]);
        assert(cm.states[k as int].index == states@[k as int].index);
        if has_bit(s, states[k].index) {
            let ghost prev = mem@;
            mem.push(k);
            assert(mem@[prev.len() as int] == k);
            assert forall|i: int|
                0 <= i < k + 1 && bit(s, (#[trigger] cm.states[i]).index) implies mem@.contains(
                i as usize,
            ) by {
                if i < k {
                    assert(prev.contains(i as usize));
                    let j = choose|j: int| 0 <= j < prev.len() && prev[j] == i as usize;
                    assert(mem@[j] == i as usize);
                }
            }
        }
        k += 1;
    }
    mem
}

/// The set to which the symbol `x` leads from the set `s`, or nothing where
/// it leads to an index without a state.
fn step_set(nfa: &Nfa<char>, mem: &Vec<usize>, x: char, Ghost(s): Ghost<u64>) -> (r: Option<u64>)
    requires
        nfa.ordered(),
        small(nfa.chars()),
        is_members(nfa.chars(), s, mem@),
        valid_set(nfa.chars(), s),
    ensures
        match r {
            Some(q) => is_move(nfa.chars(), s, x, q) && valid_set(nfa.chars(), q) && forall|
                t: u64,
            | #[trigger] moved(nfa.chars(), s, x, t) ==> nfa.chars().has_state(t),
            None => exists|t: u64| #[trigger] moved(nfa.chars(), s, x, t) && !nfa.chars().has_state(t),
        },
{
    let ghost cm = nfa.chars();
    let states = nfa.states();
    let mut q: u64 = 0;
    let mut j: usize = 0;
    proof {
        assert forall|t: u64| !bit(0, t) by {
            lemma_bit_zero(t);
        }
        lemma_unit_states(nfa@);
    }
    while j < mem.len()
        invariant
            cm == nfa.chars(),
            nfa.ordered(),
            cm.sorted(),
            small(cm),
            is_members(cm, s, mem@),
            states@.len() == cm.states.len(),
            forall|k: int| 0 <= k < states@.len() ==> (#[trigger] states@[k])@ == nfa@.states[k],
            forall|idx: u64| #[trigger] cm.has_state(idx) <==> nfa@.has_state(idx),
            j <= mem@.len(),
            forall|t: u64| #[trigger] bit(q, t) ==> cm.has_state(t),
            forall|t: u64|
                #[trigger] bit(q, t) <==> exists|a: int, e: int|
                    0 <= a < j && 0 <= e < cm.states[mem@[a] as int].edges.len() && (
                    #[trigger] cm.states[mem@[a] as int].edges[e]) == (x, t),
        decreases mem@.len() - j,
    {
        let p = mem[j];
        let st = &states[p];
        assert(st@ == nfa@.states[p as int]);
        let ghost own = cm.states[p as int].edges;
        let ghost q0 = q;
        let mut e: usize = 0;
        while e < st.transitions.len()
            invariant
                cm == nfa.chars(),
                nfa.ordered(),
                cm.sorted(),
                small(cm),
                is_members(cm, s, mem@),
                forall|idx: u64| #[trigger] cm.has_state(idx) <==> nfa@.has_state(idx),
                j < mem@.len(),
                p == mem@[j as int],
                p < cm.states.len(),
                st@ == nfa@.states[p as int],
                own == cm.states[p as int].edges,
                own.len() == st.transitions@.len(),
                e <= st.transitions@.len(),
                forall|t: u64| #[trigger] bit(q, t) ==> cm.has_state(t),
                forall|t: u64|
                    #[trigger] bit(q, t) <==> (bit(q0, t) || exists|f: int|
                        0 <= f < e && (#[trigger] own[f]) == (x, t)),
            decreases st.transitions@.len() - e,
        {
            let (c, t) = st.transitions[e];
            assert(own[e as int] == (c, t));
            if c == x {
                match nfa.find(t) {
                    None => {
                        proof {
                            cm.lemma_position(p as int);
                            assert(cm.state(cm.states[p as int].index).edges[e as int] == (x, t));
                            assert(moved(cm, s, x, t));
                        }
                        return None;
                    },
                    Some(tp) => {
                        assert(cm.states[tp as int].index == t);
                        let ghost before = q;
                        q = with_bit(q, t);
                        assert forall|u: u64|
                            #[trigger] bit(q, u) <==> (bit(q0, u) || exists|f: int|
                                0 <= f < e + 1 && (#[trigger] own[f]) == (x, u)) by {
                            assert(bit(q, u) <==> bit(before, u) || u == t);
                            if exists|f: int| 0 <= f < e + 1 && (#[trigger] own[f]) == (x, u) {
                                let f = choose|f: int|
                                    0 <= f < e + 1 && (#[trigger] own[f]) == (x, u);
                                if f < e {
                                    assert(bit(before, u));
                                }
                            }
                            if u == t {
                                assert(own[e as int] == (x, u));
                            }
                        }
                    },
                }
            } else {
                assert forall|u: u64|
                    #[trigger] bit(q, u) <==> (bit(q0, u) || exists|f: int|
                        0 <= f < e + 1 && (#[trigger] own[f]) == (x, u)) by {
                    if exists|f: int| 0 <= f < e + 1 && (#[trigger] own[f]) == (x, u) {
                        let f = choose|f: int| 0 <= f < e + 1 && (#[trigger] own[f]) == (x, u);
                        assert(f < e);
                    }
                }
            }
            e += 1;
        }
        assert forall|t: u64|
            #[trigger] bit(q, t) <==> exists|a: int, e: int|
                0 <= a < j + 1 && 0 <= e < cm.states[mem@[a] as int].edges.len() && (
                #[trigger] cm.states[mem@[a] as int].edges[e]) == (x, t) by {
            if bit(q, t) {
                if bit(q0, t) {
                    let (a, e) = choose|a: int, e: int|
                        0 <= a < j && 0 <= e < cm.states[mem@[a] as int].edges.len() && (
                        #[trigger] cm.states[mem@[a] as int].edges[e]) == (x, t);
                    assert(cm.states[mem@[a] as int].edges[e] == (x, t));
                } else {
                    let f = choose|f: int| 0 <= f < e && (#[trigger] own[f]) == (x, t);
                    assert(cm.states[mem@[j as int] as int].edges[f] == (x, t));
                }
            }
            if exists|a: int, e: int|
                0 <= a < j + 1 && 0 <= e < cm.states[mem@[a] as int].edges.len() && (
                #[trigger] cm.states[mem@[a] as int].edges[e]) == (x, t) {
                let (a, e) = choose|a: int, e: int|
                    0 <= a < j + 1 && 0 <= e < cm.states[mem@[a] as int].edges.len() && (
                    #[trigger] cm.states[mem@[a] as int].edges[e]) == (x, t);
                if a < j {
                    assert(bit(q0, t));
                } else {
                    assert(own[e] == (x, t));
                }
            }
        }
        j += 1;
    }
    proof {
        assert forall|t: u64|
            #![trigger bit(q, t)]
            #![trigger moved(cm, s, x, t)]
            bit(q, t) <==> moved(cm, s, x, t) by {
            if bit(q, t) {
                let (a, e) = choose|a: int, e: int|
                    0 <= a < mem@.len() && 0 <= e < cm.states[mem@[a] as int].edges.len() && (
                    #[trigger] cm.states[mem@[a] as int].edges[e]) == (x, t);
                let k = mem@[a] as int;
                cm.lemma_position(k);
                assert(cm.state(cm.states[k].index).edges[e] == (x, t));
            }
            if moved(cm, s, x, t) {
                let (i, e) = choose|i: u64, e: int|
                    bit(s, i) && cm.has_state(i) && 0 <= e < cm.state(i).edges.len() && (
                    #[trigger] cm.state(i).edges[e]) == (x, t);
                let k = cm.position(i);
                assert(0 <= k < cm.states.len() && cm.states[k].index == i);
                assert(cm.states.len() <= usize::MAX) by {
                    assert(states@.len() == states.len());
                }
                cm.lemma_position(k);
                assert(bit(s, cm.states[k].index));
                assert(mem@.contains(k as usize));
                let a = choose|a: int| 0 <= a < mem@.len() && mem@[a] == k as usize;
                assert(cm.states[mem@[a] as int].edges[e] == (x, t));
            }
        }
    }
    Some(q)
}

/// The automaton with each label as a character has the states of the
/// automaton, under their indices and in their order.
pub proof fn lemma_unit_states(m: AutomatonModel<Seq<char>>)
    ensures
        unit_model(m).states.len() == m.states.len(),
        unit_model(m).start == m.start,
        m.sorted() ==> unit_model(m).sorted(),
        forall|idx: u64| #[trigger] unit_model(m).has_state(idx) <==> m.has_state(idx),
{
    let cm = unit_model(m);
    if m.sorted() {
        assert forall|i: int, j: int| 0 <= i < j < cm.states.len() implies (
        #[trigger] cm.states[i]).index < (#[trigger] cm.states[j]).index by {
            assert(m.states[i].index < m.states[j].index);
        }
    }
    assert forall|idx: u64| #[trigger] cm.has_state(idx) <==> m.has_state(idx) by {
        if cm.has_state(idx) {
            let k = cm.position(idx);
            assert(m.states[k].index == idx);
        }
        if m.has_state(idx) {
            let k = m.position(idx);
            assert(cm.states[k].index == idx);
        }
    }
}

/// Every symbol leads from the set `s` to states only.
pub open spec fn resolved(cm: AutomatonModel<char>, s: u64) -> bool {
    forall|x: char, t: u64| #[trigger] moved(cm, s, x, t) ==> cm.has_state(t)
}

/// The transitions `edges` hold, for every symbol that leads somewhere from
/// the set `s`, the transition on that symbol to the set to which it leads.
pub open spec fn covers(cm: AutomatonModel<char>, s: u64, edges: Seq<(char, u64)>) -> bool {
    forall|x: char| #[trigger]
        movable(cm, s, x) ==> exists|f: int|
            0 <= f < edges.len() && #[trigger] edges[f] == (x, move_of(cm, s, x))
}

/// Whether some state at the positions `mem` accepts.
fn any_accepts(nfa: &Nfa<char>, mem: &Vec<usize>, Ghost(s): Ghost<u64>) -> (b: bool)
    requires
        is_members(nfa.chars(), s, mem@),
    ensures
        b == subset_accepts(nfa.chars(), s),
{
    let ghost cm = nfa.chars();
    let states = nfa.states();
    let mut j: usize = 0;
    while j < mem.len()
        invariant
            cm == nfa.chars(),
            is_members(cm, s, mem@),
            states@.len() == cm.states.len(),
            forall|k: int| 0 <= k < states@.len() ==> (#[trigger] states@[k])@ == nfa@.states[k],
            j <= mem@.len(),
            forall|a: int| 0 <= a < j ==> !cm.states[(#[trigger] mem@[a]) as int].terminal,
        decreases mem@.len() - j,
    {
        let p = mem[j];
        assert(states@[p as int]@ == nfa@.states[p as int]);
        if states[p].is_terminal {
            assert(cm.states[p as int].terminal && bit(s, cm.states[p as int].index));
            return true;
        }
        j += 1;
    }
    proof {
        if subset_accepts(cm, s) {
            let k = choose|k: int|
                0 <= k < cm.states.len() && bit(s, (#[trigger] cm.states[k]).index)
                    && cm.states[k].terminal;
            assert(cm.states.len() <= usize::MAX) by {
                assert(states@.len() == states.len());
            }
            assert(mem@.contains(k as usize));
            let a = choose|a: int| 0 <= a < mem@.len() && mem@[a] == k as usize;
            assert(!cm.states[mem@[a] as int].terminal);
        }
    }
    false
}

/// The state that stands for the set `s`, or nothing where a symbol leads
/// from `s` to an index without a state.
fn build_subset(nfa: &Nfa<char>, a: &Vec<char>, s: u64) -> (r: Option<DfaState>)
    requires
        nfa.ordered(),
        small(nfa.chars()),
        is_alphabet(nfa.chars(), a@),
        valid_set(nfa.chars(), s),
    ensures
        r is None ==> !resolved(nfa.chars(), s),
        r matches Some(st) ==> st@ == subset_state(nfa.chars(), s),
        r matches Some(st) ==> resolved(nfa.chars(), s),
        r matches Some(st) ==> forall|f: int|
            0 <= f < st@.edges.len() ==> valid_set(nfa.chars(), (#[trigger] st@.edges[f]).1)
                && st@.edges[f].1 != 0 && is_move(
                nfa.chars(),
                s,
                st@.edges[f].0,
                st@.edges[f].1,
            ),
        r matches Some(st) ==> covers(nfa.chars(), s, st@.edges),
{
    let ghost cm = nfa.chars();
    proof {
        lemma_alphabet_unique(cm, a@);
    }
    let mem = members_of(nfa, s);
    let accepts = any_accepts(nfa, &mem, Ghost(s));
    let mut st = DfaState::new(s, accepts);
    let mut i: usize = 0;
    assert(st.transitions@ =~= subset_edges(cm, a@.take(0), s)) by {
        reveal(Seq::filter);
    }
    while i < a.len()
        invariant
            cm == nfa.chars(),
            nfa.ordered(),
            small(cm),
            is_alphabet(cm, a@),
            a@ == alphabet_of(cm),
            valid_set(cm, s),
            is_members(cm, s, mem@),
            i <= a@.len(),
            st.index == s,
            st.is_terminal == accepts,
            st.transitions@ == subset_edges(cm, a@.take(i as int), s),
            forall|j: int, t: u64|
                0 <= j < i && #[trigger] moved(cm, s, a@[j], t) ==> cm.has_state(t),
            forall|f: int|
                0 <= f < st.transitions@.len() ==> valid_set(cm, (#[trigger] st.transitions@[f]).1)
                    && st.transitions@[f].1 != 0 && is_move(
                    cm,
                    s,
                    st.transitions@[f].0,
                    st.transitions@[f].1,
                ),
            forall|j: int|
                0 <= j < i && movable(cm, s, #[trigger] a@[j]) ==> exists|f: int|
                    0 <= f < st.transitions@.len() && #[trigger] st.transitions@[f] == (
                        a@[j],
                        move_of(cm, s, a@[j]),
                    ),
        decreases a@.len() - i,
    {
        let x = a[i];
        let q = match step_set(nfa, &mem, x, Ghost(s)) {
            Some(q) => q,
            None => {
                return None;
            },
        };
        proof {
            lemma_move_of(cm, s, x, q);
            lemma_subset_edges_step(cm, a@, s, i as int);
        }
        if q != 0 {
            let ghost prev = st.transitions@;
            st.add_transition(x, q);
            assert forall|j: int|
                0 <= j < i + 1 && movable(cm, s, #[trigger] a@[j]) implies exists|f: int|
                0 <= f < st.transitions@.len() && #[trigger] st.transitions@[f] == (
                    a@[j],
                    move_of(cm, s, a@[j]),
                ) by {
                if j < i {
                    let f = choose|f: int|
                        0 <= f < prev.len() && #[trigger] prev[f] == (a@[j], move_of(cm, s, a@[j]));
                    assert(st.transitions@[f] == prev[f]);
                } else {
                    assert(st.transitions@[prev.len() as int] == (x, q));
                }
            }
            assert forall|f: int| 0 <= f < st.transitions@.len() implies valid_set(
                cm,
                (#[trigger] st.transitions@[f]).1,
            ) && st.transitions@[f].1 != 0 && is_move(
                cm,
                s,
                st.transitions@[f].0,
                st.transitions@[f].1,
            ) by {
                if f < prev.len() {
                    assert(st.transitions@[f] == prev[f]);
                }
            }
        }
        i += 1;
    }
    proof {
        assert(a@.take(i as int) =~= a@);
        assert forall|x: char, t: u64| #[trigger] moved(cm, s, x, t) implies cm.has_state(t) by {
            let (k, e) = choose|k: u64, e: int|
                bit(s, k) && cm.has_state(k) && 0 <= e < cm.state(k).edges.len() && (
                #[trigger] cm.state(k).edges[e]) == (x, t);
            let p = cm.position(k);
            assert(cm.states[p].edges[e].0 == x);
            assert(dfa_has_symbol(cm, x));
            assert(a@.contains(x));
            let j = choose|j: int| 0 <= j < a@.len() && a@[j] == x;
            assert(moved(cm, s, a@[j], t));
        }
        assert forall|x: char| #[trigger] movable(cm, s, x) implies exists|f: int|
            0 <= f < st@.edges.len() && #[trigger] st@.edges[f] == (x, move_of(cm, s, x)) by {
            let t = choose|t: u64| moved(cm, s, x, t);
            let (k, e) = choose|k: u64, e: int|
                bit(s, k) && cm.has_state(k) && 0 <= e < cm.state(k).edges.len() && (
                #[trigger] cm.state(k).edges[e]) == (x, t);
            let p = cm.position(k);
            assert(cm.states[p].edges[e].0 == x);
            assert(dfa_has_symbol(cm, x));
            assert(a@.contains(x));
            let j = choose|j: int| 0 <= j < a@.len() && a@[j] == x;
            assert(movable(cm, s, a@[j]));
            let f = choose|f: int|
                0 <= f < st.transitions@.len() && #[trigger] st.transitions@[f] == (
                    a@[j],
                    move_of(cm, s, a@[j]),
                );
            assert(st@.edges[f] == (x, move_of(cm, s, x)));
        }
    }
    assert(covers(nfa.chars(), s, st@.edges));
    Some(st)
}

/// Every symbol that leads somewhere from the set `s` leads to a state of
/// `d` or to a set that waits in `stack`.
pub open spec fn closed_at(
    cm: AutomatonModel<char>,
    d: AutomatonModel<char>,
    stack: Seq<u64>,
    s: u64,
) -> bool {
    forall|x: char| #[trigger]
        movable(cm, s, x) ==> d.has_state(move_of(cm, s, x)) || stack.contains(move_of(cm, s, x))
}

/// The states of `d` stand for reachable sets of states of `cm`, and every
/// symbol leads from them to states.
pub open spec fn subsets_sound(cm: AutomatonModel<char>, d: AutomatonModel<char>) -> bool {
    forall|s: u64| #[trigger]
        d.has_state(s) ==> d.state(s) == subset_state(cm, s) && subset_reachable(cm, s)
            && resolved(cm, s) && forall|f: int|
            0 <= f < d.state(s).edges.len() ==> subset_reachable(
                cm,
                (#[trigger] d.state(s).edges[f]).1,
            )
}

/// States that hold the start set and are closed under the moves hold
/// every reachable set.
proof fn lemma_closed_subsets(
    cm: AutomatonModel<char>,
    d: AutomatonModel<char>,
    steps: nat,
    s: u64,
)
    requires
        d.has_state(start_set(cm)),
        forall|p: u64| #[trigger] d.has_state(p) ==> closed_at(cm, d, Seq::empty(), p),
        subset_reached_in(cm, steps, s),
    ensures
        d.has_state(s),
    decreases steps,
{
    if steps > 0 {
        let (p, x) = choose|p: u64, x: char|
            subset_reached_in(cm, (steps - 1) as nat, p) && #[trigger] is_move(cm, p, x, s) && s
                != 0;
        lemma_closed_subsets(cm, d, (steps - 1) as nat, p);
        lemma_move_of(cm, p, x, s);
        assert(closed_at(cm, d, Seq::empty(), p));
        assert(movable(cm, p, x));
    }
}

impl ToDfa for Nfa<char> {
    /// The deterministic automaton whose states are the sets of states that
    /// are reached from the set of the start state, each numbered by the
    /// word whose bits are the indices of its states. Fails with a lookup
    /// error where the start index names no state, with a capacity error
    /// where a state has an index above 63, and with a lookup error where a
    /// symbol leads from a reachable set to an index without a state.
    fn to_dfa(&self) -> (r: Result<Dfa, AutomatonError>)
        ensures
            dfa_model(r) == dfa_of_chars(self.chars()),
            !self@.has_state(self@.start) ==> (r matches Err(e) && e
                == AutomatonError::LookupError),
            self@.has_state(self@.start) && !small(self.chars()) ==> (r matches Err(e) && e
                == AutomatonError::CapacityError),
            self@.has_state(self@.start) && small(self.chars()) && subset_dangling(self.chars())
                ==> (r matches Err(e) && e == AutomatonError::LookupError),
            self@.has_state(self@.start) && small(self.chars()) && !subset_dangling(self.chars())
                ==> (r matches Ok(d) && d@ == subset_dfa(self.chars()) && is_subset_dfa(
                self.chars(),
                d@,
            ) && d@.closed()),
    {
        let ghost cm = self.chars();
        proof {
            lemma_unit_states(self@);
        }
        if self.find(self.starting_state()).is_none() {
            return Err(AutomatonError::LookupError);
        }
        let states = self.states();
        let n = states.len();
        assert(n > 0) by {
            assert(0 <= self@.position(self@.start) < self@.states.len());
        }
        assert(states@[n - 1]@ == self@.states[n - 1]);
        if states[n - 1].index >= 64 {
            assert(cm.states[n - 1].index >= 64);
            return Err(AutomatonError::CapacityError);
        }
        proof {
            assert forall|k: int| 0 <= k < cm.states.len() implies (#[trigger] cm.states[k]).index
                < 64 by {
                if k < n - 1 {
                    assert(self@.states[k].index < self@.states[n - 1].index);
                }
            }
        }
        let a = self.alphabet();
        let start = 1u64 << self.starting_state();
        assert(start == start_set(cm));
        proof {
            assert forall|i: u64| bit(start, i) implies cm.has_state(i) by {
                lemma_bit_single(cm.start, i);
            }
            lemma_bit_single(cm.start, cm.start);
            assert(subset_reached_in(cm, 0, start));
            <u64 as FiniteFull>::full_properties();
        }
        let mut dfa = Dfa::new(start);
        let mut stack: Vec<u64> = Vec::new();
        stack.push(start);
        assert(stack@[0] == start);
        let ghost mut left: Set<u64> = Set::full();
        while stack.len() > 0
            invariant
                cm == self.chars(),
                self.ordered(),
                small(cm),
                is_alphabet(cm, a@),
                start == start_set(cm),
                dfa.ordered(),
                dfa@.start == start,
                subsets_sound(cm, dfa@),
                forall|j: int|
                    0 <= j < stack@.len() ==> subset_reachable(cm, #[trigger] stack@[j])
                        && valid_set(cm, stack@[j]),
                dfa@.has_state(start) || stack@.contains(start),
                forall|p: u64| #[trigger] dfa@.has_state(p) ==> closed_at(cm, dfa@, stack@, p),
                left.finite(),
                forall|s: u64| !dfa@.has_state(s) ==> #[trigger] left.contains(s),
            decreases left.len(), stack@.len(),
        {
            let ghost stack0 = stack@;
            let cur = stack.pop().unwrap();
            assert(stack0 == stack@.push(cur));
            assert(stack0[stack@.len() as int] == cur);
            proof {
                assert forall|u: u64| stack0.contains(u) implies stack@.contains(u) || u == cur by {
                    let j = choose|j: int| 0 <= j < stack0.len() && stack0[j] == u;
                    if j < stack@.len() {
                        assert(stack@[j] == u);
                    }
                }
            }
            if dfa.find(cur).is_none() {
                let st = match build_subset(self, &a, cur) {
                    Some(st) => st,
                    None => {
                        proof {
                            let (x, t) = choose|x: char, t: u64| #[trigger]
                                moved(cm, cur, x, t) && !cm.has_state(t);
                            assert(subset_dangling(cm));
                        }
                        return Err(AutomatonError::LookupError);
                    },
                };
                let ghost d0 = dfa@;
                let ghost pushed0 = stack@;
                let mut f: usize = 0;
                while f < st.transitions.len()
                    invariant
                        cm == self.chars(),
                        dfa.ordered(),
                        dfa@ == d0,
                        f <= st.transitions@.len(),
                        st@ == subset_state(cm, cur),
                        subset_reachable(cm, cur),
                        forall|g: int|
                            0 <= g < st@.edges.len() ==> valid_set(cm, (#[trigger] st@.edges[g]).1)
                                && st@.edges[g].1 != 0 && is_move(
                                cm,
                                cur,
                                st@.edges[g].0,
                                st@.edges[g].1,
                            ),
                        covers(cm, cur, st@.edges),
                        forall|j: int|
                            0 <= j < stack@.len() ==> subset_reachable(cm, #[trigger] stack@[j])
                                && valid_set(cm, stack@[j]),
                        forall|u: u64| pushed0.contains(u) ==> stack@.contains(u),
                        forall|g: int|
                            0 <= g < f ==> d0.has_state((#[trigger] st@.edges[g]).1)
                                || stack@.contains(st@.edges[g].1) || st@.edges[g].1 == cur,
                    decreases st.transitions@.len() - f,
                {
                    let q = st.transitions[f].1;
                    if q != cur && dfa.find(q).is_none() {
                        let ghost before = stack@;
                        stack.push(q);
                        proof {
                            assert(stack@[before.len() as int] == q);
                            assert forall|u: u64| before.contains(u) implies stack@.contains(u) by {
                                let j = choose|j: int| 0 <= j < before.len() && before[j] == u;
                                assert(stack@[j] == u);
                            }
                            let steps = choose|steps: nat| subset_reached_in(cm, steps, cur);
                            assert(is_move(cm, cur, st@.edges[f as int].0, q));
                            assert(subset_reached_in(cm, steps + 1, q));
                        }
                    }
                    f += 1;
                }
                let ghost sv = st@;
                match dfa.add_state(st) {
                    Ok(()) => {},
                    Err(_) => {
                        proof {
                            assert(false);
                        }
                    },
                }
                proof {
                    let p = choose|p: int|
                        0 <= p <= d0.states.len() && dfa@.states == d0.states.insert(p, sv);
                    d0.lemma_insert(dfa@, p, sv);
                    assert(left.contains(cur));
                    left = left.remove(cur);
                    assert forall|s: u64| #[trigger] dfa@.has_state(s) implies closed_at(
                        cm,
                        dfa@,
                        stack@,
                        s,
                    ) by {
                        assert forall|x: char| #[trigger] movable(cm, s, x) implies dfa@.has_state(
                            move_of(cm, s, x),
                        ) || stack@.contains(move_of(cm, s, x)) by {
                            let q = move_of(cm, s, x);
                            if s == cur {
                                assert(covers(cm, cur, sv.edges));
                                let g = choose|g: int|
                                    0 <= g < sv.edges.len() && #[trigger] sv.edges[g] == (
                                        x,
                                        move_of(cm, cur, x),
                                    );
                                assert(d0.has_state(sv.edges[g].1) || stack@.contains(
                                    sv.edges[g].1,
                                ) || sv.edges[g].1 == cur);
                            } else {
                                assert(d0.has_state(s));
                                assert(closed_at(cm, d0, stack0, s));
                                assert(d0.has_state(q) || stack0.contains(q));
                                if stack0.contains(q) && q != cur {
                                    assert(pushed0.contains(q));
                                }
                            }
                        }
                    }
                    assert forall|s: u64| #[trigger] dfa@.has_state(s) implies dfa@.state(s)
                        == subset_state(cm, s) && subset_reachable(cm, s) && resolved(cm, s)
                        && forall|f: int|
                        0 <= f < dfa@.state(s).edges.len() ==> subset_reachable(
                            cm,
                            (#[trigger] dfa@.state(s).edges[f]).1,
                        ) by {
                        if s != cur {
                            assert(d0.has_state(s));
                        } else {
                            assert forall|f: int|
                                0 <= f < sv.edges.len() implies subset_reachable(
                                cm,
                                (#[trigger] sv.edges[f]).1,
                            ) by {
                                let steps = choose|steps: nat| subset_reached_in(cm, steps, cur);
                                assert(is_move(cm, cur, sv.edges[f].0, sv.edges[f].1));
                                assert(subset_reached_in(cm, steps + 1, sv.edges[f].1));
                            }
                        }
                    }
                    if stack0.contains(start) && start != cur {
                        assert(pushed0.contains(start));
                    }
                }
            } else {
                proof {
                    assert forall|s: u64| #[trigger] dfa@.has_state(s) implies closed_at(
                        cm,
                        dfa@,
                        stack@,
                        s,
                    ) by {
                        assert(closed_at(cm, dfa@, stack0, s));
                    }
                }
            }
        }
        proof {
            assert(!stack@.contains(start));
            assert forall|p: u64| #[trigger] dfa@.has_state(p) implies closed_at(
                cm,
                dfa@,
                Seq::empty(),
                p,
            ) by {
                assert(closed_at(cm, dfa@, stack@, p));
                assert(stack@ =~= Seq::<u64>::empty());
            }
            assert forall|s: u64|
                #![trigger dfa@.has_state(s)]
                #![trigger subset_reachable(cm, s)]
                dfa@.has_state(s) <==> subset_reachable(cm, s) by {
                if subset_reachable(cm, s) {
                    let steps = choose|steps: nat| subset_reached_in(cm, steps, s);
                    lemma_closed_subsets(cm, dfa@, steps, s);
                }
            }
            assert forall|k: int| 0 <= k < dfa@.states.len() implies #[trigger] dfa@.states[k]
                == subset_state(cm, dfa@.states[k].index) by {
                dfa@.lemma_position(k);
            }
            assert forall|k: int, e: int|
                0 <= k < dfa@.states.len() && 0 <= e < dfa@.states[k].edges.len() implies dfa@.has_state(
                (#[trigger] dfa@.states[k].edges[e]).1,
            ) by {
                dfa@.lemma_position(k);
                assert(dfa@.has_state(dfa@.states[k].index));
                assert(subset_reachable(cm, dfa@.state(dfa@.states[k].index).edges[e].1));
            }
            lemma_subset_dfa_unique(cm, dfa@);
        }
        Ok(dfa)
    }
}

/// The symbols on the transitions of a set are symbols of `a`.
proof fn lemma_subset_edges_symbol(cm: AutomatonModel<char>, a: Seq<char>, s: u64, e: int)
    requires
        0 <= e < subset_edges(cm, a, s).len(),
    ensures
        a.contains(subset_edges(cm, a, s)[e].0),
    decreases a.len(),
{
    if a.len() > 0 {
        let k = a.len() - 1;
        lemma_subset_edges_step(cm, a, s, k);
        assert(a.take(k + 1) =~= a);
        let rest = a.take(k);
        if e < subset_edges(cm, rest, s).len() {
            lemma_subset_edges_symbol(cm, rest, s, e);
            let x = subset_edges(cm, rest, s)[e].0;
            let j = choose|j: int| 0 <= j < rest.len() && rest[j] == x;
            assert(a[j] == x);
        } else {
            assert(a[k] == subset_edges(cm, a, s)[e].0);
        }
    } else {
        assert(subset_edges(cm, a, s) =~= Seq::empty()) by {
            reveal(Seq::filter);
        }
    }
}

/// The symbols of the deterministic automaton are symbols of the automaton.
pub proof fn lemma_subset_symbols(cm: AutomatonModel<char>, d: AutomatonModel<char>)
    requires
        is_subset_dfa(cm, d),
    ensures
        forall|k: int, e: int|
            0 <= k < d.states.len() && 0 <= e < d.states[k].edges.len() ==> dfa_has_symbol(
                cm,
                (#[trigger] d.states[k].edges[e]).0,
            ),
{
    lemma_alphabet_exists(cm);
    let a = alphabet_of(cm);
    assert forall|k: int, e: int|
        0 <= k < d.states.len() && 0 <= e < d.states[k].edges.len() implies dfa_has_symbol(
        cm,
        (#[trigger] d.states[k].edges[e]).0,
    ) by {
        assert(d.states[k] == subset_state(cm, d.states[k].index));
        lemma_subset_edges_symbol(cm, a, d.states[k].index, e);
    }
}

} // verus!
