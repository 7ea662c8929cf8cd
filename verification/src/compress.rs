//! Epsilon compression: every state takes over what its epsilon closure
//! offers, and no epsilon transition remains.

use vstd::prelude::*;
use vstd::string::*;
use crate::error::AutomatonError;
use crate::language::lemma_compress_keeps_language;
use crate::marks::{blank_row, lemma_mark, unmarked};
use crate::model::{AutomatonModel, StateModel};
use crate::nfa::{label_texts, nfa_outcome, Nfa, NfaState};

verus! {

/// The index `q` is reached from the index `s` by following `steps` epsilon
/// transitions, each out of a state of `m`.
pub open spec fn eps_reached_in(m: AutomatonModel<Seq<char>>, steps: nat, s: u64, q: u64) -> bool
    decreases steps,
{
    if steps == 0 {
        q == s
    } else {
        exists|p: u64, e: int|
            eps_reached_in(m, (steps - 1) as nat, s, p) && m.has_state(p) && 0 <= e < m.state(
                p,
            ).edges.len() && (#[trigger] m.state(p).edges[e]).1 == q && m.state(
                p,
            ).edges[e].0.len() == 0
    }
}

/// The index `q` lies in the epsilon closure of `s`: it is `s` itself or is
/// reached from `s` by epsilon transitions alone.
pub open spec fn in_closure(m: AutomatonModel<Seq<char>>, s: u64, q: u64) -> bool {
    exists|steps: nat| eps_reached_in(m, steps, s, q)
}

/// An epsilon transition of some state of `m` leads to an index without a state.
pub open spec fn eps_dangling(m: AutomatonModel<Seq<char>>) -> bool {
    exists|k: int, e: int|
        0 <= k < m.states.len() && 0 <= e < m.states[k].edges.len() && (
        #[trigger] m.states[k].edges[e]).0.len() == 0 && !m.has_state(m.states[k].edges[e].1)
}

/// The transitions among `edges` that are no epsilon transitions, in order.
pub open spec fn non_eps(edges: Seq<(Seq<char>, u64)>) -> Seq<(Seq<char>, u64)> {
    edges.filter(|e: (Seq<char>, u64)| e.0.len() > 0)
}

/// The transitions, none of them an epsilon transition, of the states of
/// the closure of `s` that stand at the first `upto` positions, in ascending
/// order of the states and for each state in the order of its transitions.
pub open spec fn closure_edges(m: AutomatonModel<Seq<char>>, s: u64, upto: int) -> Seq<
    (Seq<char>, u64),
>
    decreases upto,
{
    if upto <= 0 {
        Seq::empty()
    } else if in_closure(m, s, m.states[upto - 1].index) {
        closure_edges(m, s, upto - 1) + non_eps(m.states[upto - 1].edges)
    } else {
        closure_edges(m, s, upto - 1)
    }
}

/// Some state in the closure of `s` accepts.
pub open spec fn closure_accepts(m: AutomatonModel<Seq<char>>, s: u64) -> bool {
    exists|q: u64| #[trigger] in_closure(m, s, q) && m.has_state(q) && m.state(q).terminal
}

/// The state of the compressed automaton that stands for the state `s` of `m`.
pub open spec fn compressed_state(m: AutomatonModel<Seq<char>>, s: u64) -> StateModel<Seq<char>> {
    StateModel {
        index: s,
        terminal: closure_accepts(m, s),
        edges: closure_edges(m, s, m.states.len() as int),
    }
}

/// The compressed automaton of `m`: the states of `m` under their indices,
/// each accepting if a state of its closure does, and each with the
/// transitions of the states of its closure that are no epsilon transitions.
pub open spec fn compressed(m: AutomatonModel<Seq<char>>) -> AutomatonModel<Seq<char>> {
    AutomatonModel {
        start: m.start,
        states: m.states.map_values(|s: StateModel<Seq<char>>| compressed_state(m, s.index)),
    }
}

/// No transition of `m` is an epsilon transition.
pub open spec fn eps_free(m: AutomatonModel<Seq<char>>) -> bool {
    forall|k: int, e: int|
        0 <= k < m.states.len() && 0 <= e < m.states[k].edges.len() ==> (
        #[trigger] m.states[k].edges[e]).0.len() > 0
}

/// One more transition adds itself to those that are no epsilon
/// transitions, or not.
pub proof fn lemma_non_eps_step(edges: Seq<(Seq<char>, u64)>, k: int)
    requires
        0 <= k < edges.len(),
    ensures
        non_eps(edges.take(k + 1)) == if edges[k].0.len() > 0 {
            non_eps(edges.take(k)).push(edges[k])
        } else {
            non_eps(edges.take(k))
        },
{
    reveal(Seq::filter);
    assert(edges.take(k + 1).drop_last() =~= edges.take(k));
    assert(edges.take(k + 1).last() == edges[k]);
}

/// What is left without the epsilon transitions holds none, and is all
/// where there was none.
pub proof fn lemma_non_eps(edges: Seq<(Seq<char>, u64)>)
    ensures
        forall|e: int| 0 <= e < non_eps(edges).len() ==> (#[trigger] non_eps(edges)[e]).0.len() > 0,
        (forall|e: int| 0 <= e < edges.len() ==> (#[trigger] edges[e]).0.len() > 0) ==> non_eps(
            edges,
        ) == edges,
    decreases edges.len(),
{
    reveal(Seq::filter);
    if edges.len() > 0 {
        lemma_non_eps(edges.drop_last());
        if forall|e: int| 0 <= e < edges.len() ==> (#[trigger] edges[e]).0.len() > 0 {
            assert forall|e: int| 0 <= e < edges.drop_last().len() implies (
            #[trigger] edges.drop_last()[e]).0.len() > 0 by {
                assert(edges[e].0.len() > 0);
            }
            assert(edges[edges.len() - 1].0.len() > 0);
            assert(non_eps(edges) =~= edges);
        }
    } else {
        assert(non_eps(edges) =~= edges);
    }
}

/// The transitions of a closure hold no epsilon transition.
pub proof fn lemma_closure_edges(m: AutomatonModel<Seq<char>>, s: u64, upto: int)
    requires
        upto <= m.states.len(),
    ensures
        forall|e: int|
            0 <= e < closure_edges(m, s, upto).len() ==> (#[trigger] closure_edges(
                m,
                s,
                upto,
            )[e]).0.len() > 0,
    decreases upto,
{
    if upto > 0 {
        lemma_closure_edges(m, s, upto - 1);
        lemma_non_eps(m.states[upto - 1].edges);
        let before = closure_edges(m, s, upto - 1);
        let added = non_eps(m.states[upto - 1].edges);
        let all = closure_edges(m, s, upto);
        assert forall|e: int| 0 <= e < all.len() implies (#[trigger] all[e]).0.len() > 0 by {
            if e < before.len() {
                assert(all[e] == before[e]);
            } else {
                assert(all[e] == added[e - before.len()]);
            }
        }
    }
}

/// Where no state has an epsilon transition, the closure of a state holds
/// that state alone.
pub proof fn lemma_closure_alone(m: AutomatonModel<Seq<char>>, steps: nat, s: u64, q: u64)
    requires
        eps_free(m),
        m.sorted(),
        eps_reached_in(m, steps, s, q),
    ensures
        q == s,
    decreases steps,
{
    if steps > 0 {
        let (p, e) = choose|p: u64, e: int|
            eps_reached_in(m, (steps - 1) as nat, s, p) && m.has_state(p) && 0 <= e < m.state(
                p,
            ).edges.len() && (#[trigger] m.state(p).edges[e]).1 == q && m.state(
                p,
            ).edges[e].0.len() == 0;
        let k = m.position(p);
        assert(m.states[k].edges[e].0.len() > 0);
    }
}

/// Where no state has an epsilon transition, a closure offers the
/// transitions of its one state.
proof fn lemma_closure_edges_alone(m: AutomatonModel<Seq<char>>, k: int, upto: int)
    requires
        eps_free(m),
        m.sorted(),
        0 <= k < m.states.len(),
        0 <= upto <= m.states.len(),
    ensures
        closure_edges(m, m.states[k].index, upto) == if k < upto {
            m.states[k].edges
        } else {
            Seq::empty()
        },
    decreases upto,
{
    let s = m.states[k].index;
    if upto > 0 {
        lemma_closure_edges_alone(m, k, upto - 1);
        let q = m.states[upto - 1].index;
        if in_closure(m, s, q) {
            let steps = choose|steps: nat| eps_reached_in(m, steps, s, q);
            lemma_closure_alone(m, steps, s, q);
            m.lemma_position(k);
            m.lemma_position(upto - 1);
            assert(upto - 1 == k);
            lemma_non_eps(m.states[k].edges);
            assert(Seq::<(Seq<char>, u64)>::empty() + m.states[k].edges =~= m.states[k].edges);
        } else {
            if upto - 1 == k {
                assert(eps_reached_in(m, 0, s, s));
            }
        }
    }
}

/// The compressed automaton has no epsilon transition, and compressing it
/// once more changes nothing: neither the automaton nor, with it, what a
/// simulation yields on any input.
pub proof fn lemma_compress_twice(m: AutomatonModel<Seq<char>>, w: Seq<char>)
    requires
        m.sorted(),
    ensures
        compressed(m).sorted(),
        eps_free(compressed(m)),
        compressed(compressed(m)) == compressed(m),
        nfa_outcome(compressed(compressed(m)), w) == nfa_outcome(compressed(m), w),
{
    let c = compressed(m);
    let n = m.states.len() as int;
    assert forall|i: int, j: int| 0 <= i < j < c.states.len() implies (#[trigger] c.states[i]).index
        < (#[trigger] c.states[j]).index by {
        assert(m.states[i].index < m.states[j].index);
    }
    assert forall|k: int, e: int| 0 <= k < c.states.len() && 0 <= e < c.states[k].edges.len() implies (
    #[trigger] c.states[k].edges[e]).0.len() > 0 by {
        lemma_closure_edges(m, m.states[k].index, n);
    }
    let cc = compressed(c);
    assert forall|k: int| 0 <= k < n implies #[trigger] cc.states[k] == c.states[k] by {
        let s = c.states[k].index;
        lemma_closure_edges_alone(c, k, n);
        c.lemma_position(k);
        assert(eps_reached_in(c, 0, s, s));
        if closure_accepts(c, s) {
            let q = choose|q: u64| #[trigger] in_closure(c, s, q) && c.has_state(q) && c.state(
                q,
            ).terminal;
            let steps = choose|steps: nat| eps_reached_in(c, steps, s, q);
            lemma_closure_alone(c, steps, s, q);
        }
        if c.states[k].terminal {
            assert(in_closure(c, s, s));
        }
    }
    assert(cc.states =~= c.states);
}

/// Every epsilon transition of the state at position `p` leads to a state
/// that is marked in `cl`.
pub open spec fn eps_settled(m: AutomatonModel<Seq<char>>, cl: Seq<bool>, p: int) -> bool {
    forall|e: int|
        0 <= e < m.states[p].edges.len() && (#[trigger] m.states[p].edges[e]).0.len() == 0
            ==> m.has_state(m.states[p].edges[e].1) && cl[m.position(m.states[p].edges[e].1)]
}

/// Marks that hold a state and are closed under the epsilon transitions
/// hold the closure of the state.
proof fn lemma_closed_closure(
    m: AutomatonModel<Seq<char>>,
    cl: Seq<bool>,
    steps: nat,
    s: u64,
    q: u64,
)
    requires
        m.sorted(),
        cl.len() == m.states.len(),
        m.has_state(s),
        cl[m.position(s)],
        forall|p: int| 0 <= p < cl.len() && cl[p] ==> eps_settled(m, cl, p),
        eps_reached_in(m, steps, s, q),
    ensures
        m.has_state(q),
        cl[m.position(q)],
    decreases steps,
{
    if steps > 0 {
        let (p, e) = choose|p: u64, e: int|
            eps_reached_in(m, (steps - 1) as nat, s, p) && m.has_state(p) && 0 <= e < m.state(
                p,
            ).edges.len() && (#[trigger] m.state(p).edges[e]).1 == q && m.state(
                p,
            ).edges[e].0.len() == 0;
        lemma_closed_closure(m, cl, (steps - 1) as nat, s, p);
        let k = m.position(p);
        assert(eps_settled(m, cl, k));
        assert(m.states[k].edges[e].1 == q);
    }
}

/// An epsilon transition out of a state of a closure leads into the closure.
proof fn lemma_closure_step(m: AutomatonModel<Seq<char>>, s: u64, p: u64, e: int)
    requires
        in_closure(m, s, p),
        m.has_state(p),
        0 <= e < m.state(p).edges.len(),
        m.state(p).edges[e].0.len() == 0,
    ensures
        in_closure(m, s, m.state(p).edges[e].1),
{
    let steps = choose|steps: nat| eps_reached_in(m, steps, s, p);
    assert(eps_reached_in(m, steps + 1, s, m.state(p).edges[e].1));
}

/// Finds the closure of the state at position `k`: the marks of the
/// positions of its states, or nothing where an epsilon transition leads to
/// an index without a state.
fn eps_closure(nfa: &Nfa<String>, k: usize) -> (r: Option<Vec<bool>>)
    requires
        nfa.ordered(),
        k < nfa@.states.len(),
    ensures
        match r {
            Some(cl) => {
                &&& cl@.len() == nfa@.states.len()
                &&& forall|p: int|
                    0 <= p < cl@.len() ==> (#[trigger] cl@[p] <==> in_closure(
                        nfa@,
                        nfa@.states[k as int].index,
                        nfa@.states[p].index,
                    ))
                &&& forall|q: u64| #[trigger]
                    in_closure(nfa@, nfa@.states[k as int].index, q) ==> nfa@.has_state(q)
            },
            None => eps_dangling(nfa@),
        },
{
    let ghost m = nfa@;
    let ghost s = m.states[k as int].index;
    let states = nfa.states();
    let n = states.len();
    let mut cl = blank_row(n);
    cl[k] = true;
    let mut stack: Vec<usize> = Vec::new();
    stack.push(k);
    assert(eps_reached_in(m, 0, s, s));
    assert(stack@[0] == k);
    proof {
        m.lemma_position(k as int);
    }
    while stack.len() > 0
        invariant
            m == nfa@,
            nfa.ordered(),
            n == states@.len(),
            n == m.states.len(),
            forall|j: int| 0 <= j < n ==> (#[trigger] states@[j])@ == m.states[j],
            k < n,
            s == m.states[k as int].index,
            cl@.len() == n,
            cl@[k as int],
            forall|p: int| 0 <= p < n && cl@[p] ==> in_closure(m, s, (#[trigger] m.states[p]).index),
            forall|i: int| 0 <= i < stack@.len() ==> stack@[i] < n && cl@[stack@[i] as int],
            forall|p: int|
                0 <= p < n && cl@[p] && !stack@.contains(p as usize) ==> eps_settled(m, cl@, p),
        decreases 2 * unmarked(cl@) + stack@.len(),
    {
        let ghost before = stack@;
        let ghost bound = 2 * unmarked(cl@) + stack@.len();
        let p = stack.pop().unwrap();
        assert(before == stack@.push(p));
        assert forall|q: int|
            0 <= q < n && cl@[q] && q != p && !stack@.contains(q as usize) implies eps_settled(
            m,
            cl@,
            q,
        ) by {
            if before.contains(q as usize) {
                let i = choose|i: int| 0 <= i < before.len() && before[i] == q as usize;
                assert(stack@[i] == q as usize);
            }
        }
        let st = &states[p];
        assert(st@ == m.states[p as int]);
        proof {
            m.lemma_position(p as int);
        }
        let mut e: usize = 0;
        while e < st.transitions.len()
            invariant
                m == nfa@,
                nfa.ordered(),
                n == states@.len(),
                n == m.states.len(),
                p < n,
                k < n,
                s == m.states[k as int].index,
                st@ == m.states[p as int],
                m.has_state(m.states[p as int].index),
                m.state(m.states[p as int].index) == m.states[p as int],
                in_closure(m, s, m.states[p as int].index),
                e <= st.transitions@.len(),
                cl@.len() == n,
                cl@[k as int],
                cl@[p as int],
                forall|q: int|
                    0 <= q < n && cl@[q] ==> in_closure(m, s, (#[trigger] m.states[q]).index),
                forall|i: int| 0 <= i < stack@.len() ==> stack@[i] < n && cl@[stack@[i] as int],
                forall|q: int|
                    0 <= q < n && cl@[q] && q != p && !stack@.contains(q as usize)
                        ==> eps_settled(m, cl@, q),
                forall|f: int|
                    0 <= f < e && (#[trigger] m.states[p as int].edges[f]).0.len() == 0
                        ==> m.has_state(m.states[p as int].edges[f].1) && cl@[m.position(
                        m.states[p as int].edges[f].1,
                    )],
                2 * unmarked(cl@) + stack@.len() < bound,
            decreases st.transitions@.len() - e,
        {
            let t = st.transitions[e].1;
            assert(m.states[p as int].edges[e as int] == (st.transitions@[e as int].0@, t));
            if st.transitions[e].0.as_str().is_empty() {
                proof {
                    lemma_closure_step(m, s, m.states[p as int].index, e as int);
                }
                match nfa.find(t) {
                    None => {
                        return None;
                    },
                    Some(tp) => {
                        if !cl[tp] {
                            let ghost old_cl = cl@;
                            let ghost old_stack = stack@;
                            proof {
                                lemma_mark(cl@, tp as int);
                            }
                            cl[tp] = true;
                            stack.push(tp);
                            assert(cl@ == old_cl.update(tp as int, true));
                            assert(stack@[old_stack.len() as int] == tp);
                            assert forall|q: int|
                                0 <= q < n && cl@[q] && q != p && !stack@.contains(
                                    q as usize,
                                ) implies eps_settled(m, cl@, q) by {
                                if q == tp {
                                    assert(stack@.contains(q as usize));
                                } else {
                                    if old_stack.contains(q as usize) {
                                        let i = choose|i: int|
                                            0 <= i < old_stack.len() && old_stack[i] == q as usize;
                                        assert(stack@[i] == q as usize);
                                    }
                                    assert(eps_settled(m, old_cl, q));
                                }
                            }
                        }
                    },
                }
            }
            e += 1;
        }
        assert(eps_settled(m, cl@, p as int));
    }
    proof {
        assert forall|p: int| 0 <= p < cl@.len() && cl@[p] implies eps_settled(m, cl@, p) by {
            assert(!stack@.contains(p as usize));
        }
        assert forall|q: u64| #[trigger] in_closure(m, s, q) implies m.has_state(q) && cl@[m.position(
            q,
        )] by {
            let steps = choose|steps: nat| eps_reached_in(m, steps, s, q);
            lemma_closed_closure(m, cl@, steps, s, q);
        }
        assert forall|p: int| 0 <= p < cl@.len() implies (#[trigger] cl@[p] <==> in_closure(
            m,
            s,
            m.states[p].index,
        )) by {
            m.lemma_position(p);
        }
    }
    Some(cl)
}

/// The state that stands for the state at position `k` in the compressed
/// automaton, given the marks `cl` of its closure.
fn compress_state(nfa: &Nfa<String>, k: usize, cl: &Vec<bool>) -> (r: NfaState<String>)
    requires
        nfa.ordered(),
        k < nfa@.states.len(),
        cl@.len() == nfa@.states.len(),
        forall|p: int|
            0 <= p < cl@.len() ==> (#[trigger] cl@[p] <==> in_closure(
                nfa@,
                nfa@.states[k as int].index,
                nfa@.states[p].index,
            )),
        forall|q: u64| #[trigger]
            in_closure(nfa@, nfa@.states[k as int].index, q) ==> nfa@.has_state(q),
    ensures
        r@ == compressed_state(nfa@, nfa@.states[k as int].index),
{
    let ghost m = nfa@;
    let ghost s = m.states[k as int].index;
    let states = nfa.states();
    let n = states.len();
    let mut accepts = false;
    let mut edges: Vec<(String, u64)> = Vec::new();
    let mut p: usize = 0;
    assert(label_texts(edges@) =~= closure_edges(m, s, 0));
    while p < n
        invariant
            m == nfa@,
            m.sorted(),
            n == states@.len(),
            n == m.states.len(),
            forall|j: int| 0 <= j < n ==> (#[trigger] states@[j])@ == m.states[j],
            cl@.len() == n,
            p <= n,
            accepts <==> exists|j: int| 0 <= j < p && #[trigger] cl@[j] && m.states[j].terminal,
            label_texts(edges@) == closure_edges(m, s, p as int),
            forall|j: int|
                0 <= j < n ==> (#[trigger] cl@[j] <==> in_closure(m, s, m.states[j].index)),
        decreases n - p,
    {
        if cl[p] {
            let st = &states[p];
            assert(st@ == m.states[p as int]);
            if st.is_terminal {
                accepts = true;
            }
            let ghost base = label_texts(edges@);
            let ghost own = m.states[p as int].edges;
            let mut e: usize = 0;
            assert(label_texts(edges@) =~= base + non_eps(own.take(0))) by {
                reveal(Seq::filter);
            }
            while e < st.transitions.len()
                invariant
                    st@ == m.states[p as int],
                    own == m.states[p as int].edges,
                    e <= st.transitions@.len(),
                    label_texts(edges@) == base + non_eps(own.take(e as int)),
                decreases st.transitions@.len() - e,
            {
                proof {
                    lemma_non_eps_step(own, e as int);
                }
                assert(own[e as int] == (st.transitions@[e as int].0@, st.transitions@[e as int].1));
                if !st.transitions[e].0.as_str().is_empty() {
                    let ghost prev = edges@;
                    let word = st.transitions[e].0.clone();
                    edges.push((word, st.transitions[e].1));
                    assert(label_texts(edges@) =~= label_texts(prev).push(own[e as int]));
                    assert(label_texts(edges@) =~= base + non_eps(own.take(e + 1)));
                }
                e += 1;
            }
            assert(own.take(e as int) =~= own);
        }
        p += 1;
    }
    let r = NfaState { index: states[k].index, is_terminal: accepts, transitions: edges };
    proof {
        assert(states@[k as int]@ == m.states[k as int]);
        if accepts {
            let j = choose|j: int| 0 <= j < n && #[trigger] cl@[j] && m.states[j].terminal;
            m.lemma_position(j);
            assert(in_closure(m, s, m.states[j].index));
        }
        if closure_accepts(m, s) {
            let q = choose|q: u64|
                #[trigger] in_closure(m, s, q) && m.has_state(q) && m.state(q).terminal;
            let j = m.position(q);
            assert(cl@[j] && m.states[j].terminal);
        }
    }
    r
}

impl Nfa<String> {
    /// The compressed automaton: every state accepts if a state of its
    /// epsilon closure does, and has the transitions of the states of its
    /// closure that are no epsilon transitions. Fails with a lookup error
    /// where the start index names no state or an epsilon transition leads
    /// to an index without a state.
    pub fn compress_eps(&self) -> (r: Result<Nfa<String>, AutomatonError>)
        requires
            self.ordered(),
        ensures
            !self@.has_state(self@.start) || eps_dangling(self@) ==> (r matches Err(e) && e
                == AutomatonError::LookupError),
            self@.has_state(self@.start) && !eps_dangling(self@) ==> (r matches Ok(c)
                && c.ordered() && c@ == compressed(self@) && eps_free(c@)),
            r matches Ok(c) ==> (self@.closed() ==> forall|w: Seq<char>|
                #[trigger] nfa_outcome(c@, w) == nfa_outcome(self@, w)),
    {
        let ghost m = self@;
        if self.find(self.starting_state()).is_none() {
            return Err(AutomatonError::LookupError);
        }
        let states = self.states();
        let n = states.len();
        let mut out: Vec<NfaState<String>> = Vec::new();
        let mut k: usize = 0;
        while k < n
            invariant
                m == self@,
                self.ordered(),
                n == states@.len(),
                n == m.states.len(),
                k <= n,
                out@.len() == k,
                forall|j: int|
                    0 <= j < k ==> (#[trigger] out@[j])@ == compressed_state(
                        m,
                        m.states[j].index,
                    ),
                forall|j: int, e: int|
                    0 <= j < k && 0 <= e < m.states[j].edges.len() && (
                    #[trigger] m.states[j].edges[e]).0.len() == 0 ==> m.has_state(
                        m.states[j].edges[e].1,
                    ),
            decreases n - k,
        {
            let cl = match eps_closure(self, k) {
                Some(cl) => cl,
                None => {
                    return Err(AutomatonError::LookupError);
                },
            };
            proof {
                let s = m.states[k as int].index;
                m.lemma_position(k as int);
                assert(eps_reached_in(m, 0, s, s));
                assert forall|e: int|
                    0 <= e < m.states[k as int].edges.len() && (
                    #[trigger] m.states[k as int].edges[e]).0.len() == 0 implies m.has_state(
                    m.states[k as int].edges[e].1,
                ) by {
                    assert(eps_reached_in(m, 1, s, m.states[k as int].edges[e].1));
                    assert(in_closure(m, s, m.states[k as int].edges[e].1));
                }
            }
            out.push(compress_state(self, k, &cl));
            k += 1;
        }
        assert forall|i: int, j: int| 0 <= i < j < out@.len() implies (#[trigger] out@[i]).index < (
        #[trigger] out@[j]).index by {
            assert(out@[i]@.index == m.states[i].index);
            assert(out@[j]@.index == m.states[j].index);
        }
        let c = Nfa::from_states(self.starting_state(), out);
        proof {
            assert(c@.states =~= compressed(m).states);
            lemma_compress_twice(m, Seq::empty());
            if m.closed() {
                assert forall|w: Seq<char>| #[trigger]
                    nfa_outcome(c@, w) == nfa_outcome(m, w) by {
                    lemma_compress_keeps_language(m, w);
                }
            }
        }
        Ok(c)
    }
}

} // verus!
