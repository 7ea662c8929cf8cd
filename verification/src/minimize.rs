//! Minimization: the states of a complete deterministic automaton that no
//! input tells apart are merged, and those that the start does not reach are
//! dropped.

use vstd::prelude::*;
use crate::complete::{lemma_completion, lemma_completion_run};
use crate::convert::{completion_of, dfa_model, is_minimal_of};
use crate::dfa::{
    alphabet_of, completed, dfa_has_symbol, dfa_run, first_match, first_target, has_label,
    is_alphabet, lemma_alphabet_exists, lemma_alphabet_unique, lemma_first_target, lemma_no_target,
    lemma_no_target_rev, lemma_target_is_edge, total, Dfa, DfaState, ToCompleteDfa,
    ToMinimalCompleteDfa,
};
use crate::error::AutomatonError;
use crate::marks::{blank_row, blank_table, lemma_mark, lemma_mark_in, unmarked, unmarked_in};
use crate::model::{AutomatonModel, StateModel};
use crate::symbols::ascending;

verus! {

/// The index `q` is reached from the start index of `d` by following `steps`
/// transitions, each out of a state of `d`.
pub open spec fn reached_in(d: AutomatonModel<char>, steps: nat, q: u64) -> bool
    decreases steps,
{
    if steps == 0 {
        q == d.start
    } else {
        exists|p: u64, e: int|
            reached_in(d, (steps - 1) as nat, p) && d.has_state(p) && 0 <= e < d.state(
                p,
            ).edges.len() && (#[trigger] d.state(p).edges[e]).1 == q
    }
}

/// The index `q` is reached from the start index of `d` by following transitions.
pub open spec fn reachable(d: AutomatonModel<char>, q: u64) -> bool {
    exists|steps: nat| reached_in(d, steps, q)
}

/// Some index that is reached from the start index of `d` names no state.
pub open spec fn dangling(d: AutomatonModel<char>) -> bool {
    exists|q: u64| reachable(d, q) && !d.has_state(q)
}

/// No input tells the states `p` and `q` of `d` apart: the walks from both
/// end alike on every input.
pub open spec fn equivalent(d: AutomatonModel<char>, p: u64, q: u64) -> bool {
    forall|w: Seq<char>| #[trigger] dfa_run(d, p, w) == dfa_run(d, q, w)
}

/// The index to which the symbol `x` leads from the state `q` of `d`.
pub open spec fn successor(d: AutomatonModel<char>, q: u64, x: char) -> u64 {
    first_target(d.state(q).edges, x).unwrap()
}

/// The transitions of the class of `q`: on each symbol of `a`, in order, to
/// the class of the state to which the symbol leads from `q`.
pub open spec fn class_edges(
    c: AutomatonModel<char>,
    a: Seq<char>,
    cls: spec_fn(u64) -> u64,
    q: u64,
) -> Seq<(char, u64)> {
    a.map_values(|x: char| (x, cls(successor(c, q, x))))
}

/// `m` is the minimal automaton of the complete automaton `c`, and `cls`
/// gives each reachable state of `c` the index of its state in `m`:
/// - every reachable index names a state of `c`;
/// - the states of `m` are numbered from 0 without gaps, and each is the
///   class of some reachable state;
/// - two reachable states have one class exactly if no input tells them apart;
/// - the class of the start state is 0, where `m` starts; the other classes
///   are numbered in ascending order of their lowest member;
/// - a class accepts as its members do, and each symbol of the alphabet leads
///   it to the class to which the symbol leads its members.
pub open spec fn quotient_of(
    c: AutomatonModel<char>,
    m: AutomatonModel<char>,
    cls: spec_fn(u64) -> u64,
) -> bool {
    let a = alphabet_of(c);
    &&& m.start == 0
    &&& m.states.len() >= 1
    &&& forall|i: int| 0 <= i < m.states.len() ==> (#[trigger] m.states[i]).index == i
    &&& forall|q: u64| #[trigger] reachable(c, q) ==> c.has_state(q) && cls(q) < m.states.len()
    &&& forall|i: int|
        0 <= i < m.states.len() ==> exists|q: u64|
            reachable(c, q) && #[trigger] cls(q) == (#[trigger] m.states[i]).index
    &&& forall|p: u64, q: u64|
        reachable(c, p) && reachable(c, q) ==> (cls(p) == cls(q) <==> #[trigger] equivalent(
            c,
            p,
            q,
        ))
    &&& cls(c.start) == 0
    &&& forall|p: u64, r: u64|
        #![trigger reachable(c, p), reachable(c, r)]
        reachable(c, p) && reachable(c, r) && 1 <= cls(r) < cls(p) ==> exists|q: u64|
            reachable(c, q) && q < p && #[trigger] cls(q) == cls(r)
    &&& forall|q: u64| #[trigger]
        reachable(c, q) ==> m.states[cls(q) as int].terminal == c.state(q).terminal
            && m.states[cls(q) as int].edges == class_edges(c, a, cls, q)
}

/// `m` is the minimal automaton of the complete automaton `c`.
pub open spec fn is_minimal(c: AutomatonModel<char>, m: AutomatonModel<char>) -> bool {
    exists|cls: spec_fn(u64) -> u64| quotient_of(c, m, cls)
}

/// Among transitions made of ascending symbols, each symbol leads where its
/// own transition leads.
pub proof fn lemma_class_edges(
    c: AutomatonModel<char>,
    a: Seq<char>,
    cls: spec_fn(u64) -> u64,
    q: u64,
    x: char,
)
    requires
        ascending(a),
    ensures
        first_target(class_edges(c, a, cls, q), x) == if a.contains(x) {
            Some(cls(successor(c, q, x)))
        } else {
            None
        },
{
    let edges = class_edges(c, a, cls, q);
    if a.contains(x) {
        let i = choose|i: int| 0 <= i < a.len() && a[i] == x;
        assert forall|f: int| 0 <= f < i implies (#[trigger] edges[f]).0 != x by {
            assert(a[f] < a[i]);
        }
        lemma_first_target(edges, x, i);
    } else {
        assert forall|f: int| 0 <= f < edges.len() implies (#[trigger] edges[f]).0 != x by {
            assert(a[f] == edges[f].0);
            assert(a.contains(a[f]));
        }
        lemma_no_target(edges, x);
    }
}

/// A transition out of a reachable state leads to a reachable index.
pub proof fn lemma_reachable_step(d: AutomatonModel<char>, p: u64, e: int)
    requires
        reachable(d, p),
        d.has_state(p),
        0 <= e < d.state(p).edges.len(),
    ensures
        reachable(d, d.state(p).edges[e].1),
{
    let steps = choose|steps: nat| reached_in(d, steps, p);
    assert(reached_in(d, steps + 1, d.state(p).edges[e].1));
}

/// The minimal automaton walks as the complete automaton does: from the
/// class of a reachable state as from the state itself.
pub proof fn lemma_quotient_run(
    c: AutomatonModel<char>,
    m: AutomatonModel<char>,
    cls: spec_fn(u64) -> u64,
    q: u64,
    w: Seq<char>,
)
    requires
        c.sorted(),
        is_alphabet(c, alphabet_of(c)),
        total(c, alphabet_of(c)),
        quotient_of(c, m, cls),
        reachable(c, q),
    ensures
        dfa_run(m, cls(q), w) == dfa_run(c, q, w),
    decreases w.len(),
{
    let a = alphabet_of(c);
    let i = cls(q) as int;
    assert(m.states[i].index == i);
    assert(m.has_state(cls(q)));
    let j = m.position(cls(q));
    assert(m.states[j].index == j);
    assert(m.state(cls(q)) == m.states[i]);
    assert(c.has_state(q));
    if w.len() > 0 {
        let x = w[0];
        lemma_class_edges(c, a, cls, q, x);
        let k = c.position(q);
        if a.contains(x) {
            let s = choose|s: int| 0 <= s < a.len() && a[s] == x;
            assert(has_label(c.states[k].edges, a[s]));
            let e = choose|e: int|
                0 <= e < c.state(q).edges.len() && (#[trigger] c.state(q).edges[e]).0 == x;
            lemma_no_target_rev(c.state(q).edges, x);
            lemma_target_is_edge(c.state(q).edges, x);
            let f = choose|f: int|
                0 <= f < c.state(q).edges.len() && (#[trigger] c.state(q).edges[f]).0 == x
                    && c.state(q).edges[f].1 == first_target(c.state(q).edges, x).unwrap();
            lemma_reachable_step(c, q, f);
            lemma_quotient_run(c, m, cls, successor(c, q, x), w.drop_first());
        } else {
            if has_label(c.state(q).edges, x) {
                let e = choose|e: int|
                    0 <= e < c.state(q).edges.len() && (#[trigger] c.state(q).edges[e]).0 == x;
                assert(c.states[k].edges[e].0 == x);
                assert(dfa_has_symbol(c, x));
            }
            lemma_no_target(c.state(q).edges, x);
        }
    }
}

/// Every transition of the state at position `p` leads to a state that is
/// marked in `reach`.
pub open spec fn settled(c: AutomatonModel<char>, reach: Seq<bool>, p: int) -> bool {
    forall|e: int|
        0 <= e < c.states[p].edges.len() ==> c.has_state((#[trigger] c.states[p].edges[e]).1)
            && reach[c.position(c.states[p].edges[e].1)]
}

/// `reach` marks the positions of the reachable states of `c`, and every
/// reachable index names a state.
pub open spec fn explored(c: AutomatonModel<char>, reach: Seq<bool>) -> bool {
    &&& reach.len() == c.states.len()
    &&& forall|q: u64| #[trigger] reachable(c, q) ==> c.has_state(q) && reach[c.position(q)]
    &&& forall|p: int|
        0 <= p < reach.len() && reach[p] ==> reachable(c, (#[trigger] c.states[p]).index)
}

/// Marks that hold the start and are closed under the transitions hold
/// every reachable state.
proof fn lemma_closed_marks(c: AutomatonModel<char>, reach: Seq<bool>, steps: nat, q: u64)
    requires
        c.sorted(),
        reach.len() == c.states.len(),
        c.has_state(c.start),
        reach[c.position(c.start)],
        forall|p: int| 0 <= p < reach.len() && reach[p] ==> settled(c, reach, p),
        reached_in(c, steps, q),
    ensures
        c.has_state(q),
        reach[c.position(q)],
    decreases steps,
{
    if steps > 0 {
        let (p, e) = choose|p: u64, e: int|
            reached_in(c, (steps - 1) as nat, p) && c.has_state(p) && 0 <= e < c.state(
                p,
            ).edges.len() && (#[trigger] c.state(p).edges[e]).1 == q;
        lemma_closed_marks(c, reach, (steps - 1) as nat, p);
        let k = c.position(p);
        assert(settled(c, reach, k));
        assert(c.states[k].edges[e].1 == q);
    }
}

/// Finds the states that the start reaches: the marks of their positions,
/// or nothing where some reachable index names no state.
fn explore(cd: &Dfa) -> (r: Option<Vec<bool>>)
    requires
        cd.ordered(),
        cd@.has_state(cd@.start),
    ensures
        match r {
            Some(reach) => explored(cd@, reach@),
            None => dangling(cd@),
        },
{
    let ghost c = cd@;
    let states = cd.states();
    let n = states.len();
    let sp = match cd.find(cd.starting_state()) {
        Some(sp) => sp,
        None => {
            return None;
        },
    };
    let mut reach = blank_row(n);
    reach[sp] = true;
    let mut stack: Vec<usize> = Vec::new();
    stack.push(sp);
    assert(reached_in(c, 0, c.start));
    assert(stack@[0] == sp);
    while stack.len() > 0
        invariant
            c == cd@,
            cd.ordered(),
            n == states@.len(),
            n == c.states.len(),
            forall|k: int| 0 <= k < n ==> (#[trigger] states@[k])@ == c.states[k],
            reach@.len() == n,
            sp < n,
            reach@[sp as int],
            c.has_state(c.start),
            c.position(c.start) == sp,
            forall|p: int|
                0 <= p < n && reach@[p] ==> reachable(c, (#[trigger] c.states[p]).index),
            forall|i: int| 0 <= i < stack@.len() ==> stack@[i] < n && reach@[stack@[i] as int],
            forall|p: int|
                0 <= p < n && reach@[p] && !stack@.contains(p as usize) ==> settled(c, reach@, p),
        decreases 2 * unmarked(reach@) + stack@.len(),
    {
        let ghost before = stack@;
        let ghost bound = 2 * unmarked(reach@) + stack@.len();
        let p = stack.pop().unwrap();
        assert(before == stack@.push(p));
        assert forall|q: int|
            0 <= q < n && reach@[q] && q != p && !stack@.contains(q as usize) implies settled(
            c,
            reach@,
            q,
        ) by {
            if before.contains(q as usize) {
                let i = choose|i: int| 0 <= i < before.len() && before[i] == q as usize;
                assert(stack@[i] == q as usize);
            }
        }
        let st = &states[p];
        assert(st@ == c.states[p as int]);
        proof {
            c.lemma_position(p as int);
        }
        let mut e: usize = 0;
        while e < st.transitions.len()
            invariant
                c == cd@,
                cd.ordered(),
                n == states@.len(),
                n == c.states.len(),
                p < n,
                st@ == c.states[p as int],
                c.has_state(c.states[p as int].index),
                c.state(c.states[p as int].index) == c.states[p as int],
                reachable(c, c.states[p as int].index),
                e <= st.transitions@.len(),
                reach@.len() == n,
                sp < n,
                reach@[sp as int],
                reach@[p as int],
                forall|q: int|
                    0 <= q < n && reach@[q] ==> reachable(c, (#[trigger] c.states[q]).index),
                forall|i: int|
                    0 <= i < stack@.len() ==> stack@[i] < n && reach@[stack@[i] as int],
                forall|q: int|
                    0 <= q < n && reach@[q] && q != p && !stack@.contains(q as usize)
                        ==> settled(c, reach@, q),
                forall|f: int|
                    0 <= f < e ==> c.has_state((#[trigger] c.states[p as int].edges[f]).1)
                        && reach@[c.position(c.states[p as int].edges[f].1)],
                2 * unmarked(reach@) + stack@.len() < bound,
            decreases st.transitions@.len() - e,
        {
            let t = st.transitions[e].1;
            proof {
                lemma_reachable_step(c, c.states[p as int].index, e as int);
            }
            match cd.find(t) {
                None => {
                    assert(reachable(c, t) && !c.has_state(t));
                    return None;
                },
                Some(tp) => {
                    if !reach[tp] {
                        let ghost old_reach = reach@;
                        let ghost old_stack = stack@;
                        proof {
                            lemma_mark(reach@, tp as int);
                        }
                        reach[tp] = true;
                        stack.push(tp);
                        assert(reach@ == old_reach.update(tp as int, true));
                        assert(stack@[old_stack.len() as int] == tp);
                        assert forall|q: int|
                            0 <= q < n && reach@[q] && q != p && !stack@.contains(
                                q as usize,
                            ) implies settled(c, reach@, q) by {
                            if q == tp {
                                assert(stack@.contains(q as usize));
                            } else {
                                if old_stack.contains(q as usize) {
                                    let i = choose|i: int|
                                        0 <= i < old_stack.len() && old_stack[i] == q as usize;
                                    assert(stack@[i] == q as usize);
                                }
                                assert(settled(c, old_reach, q));
                            }
                        }
                    }
                },
            }
            e += 1;
        }
        assert(settled(c, reach@, p as int));
    }
    proof {
        assert forall|p: int| 0 <= p < reach@.len() && reach@[p] implies settled(
            c,
            reach@,
            p,
        ) by {
            assert(!stack@.contains(p as usize));
        }
        assert forall|q: u64| #[trigger] reachable(c, q) implies c.has_state(q) && reach@[c.position(
            q,
        )] by {
            let steps = choose|steps: nat| reached_in(c, steps, q);
            lemma_closed_marks(c, reach@, steps, q);
        }
    }
    Some(reach)
}

/// `delta` holds, for the state at each marked position and each symbol of
/// `a`, the position of the state to which the symbol leads.
pub open spec fn is_table(
    c: AutomatonModel<char>,
    a: Seq<char>,
    reach: Seq<bool>,
    delta: Seq<Vec<usize>>,
) -> bool {
    &&& delta.len() == c.states.len()
    &&& reach.len() == c.states.len()
    &&& forall|p: int|
        0 <= p < delta.len() && reach[p] ==> (#[trigger] delta[p])@.len() == a.len()
    &&& forall|p: int, s: int|
        0 <= p < delta.len() && reach[p] && 0 <= s < a.len() ==> {
            let t = #[trigger] delta[p]@[s];
            &&& t < c.states.len()
            &&& reach[t as int]
            &&& first_target(c.states[p].edges, a[s]) == Some(c.states[t as int].index)
        }
}

/// Builds the table of the positions to which the symbols lead.
fn table(cd: &Dfa, a: &Vec<char>, reach: &Vec<bool>) -> (delta: Vec<Vec<usize>>)
    requires
        cd.ordered(),
        is_alphabet(cd@, a@),
        total(cd@, a@),
        explored(cd@, reach@),
    ensures
        is_table(cd@, a@, reach@, delta@),
{
    let ghost c = cd@;
    let states = cd.states();
    let n = states.len();
    let mut delta: Vec<Vec<usize>> = Vec::new();
    let mut p: usize = 0;
    while p < n
        invariant
            c == cd@,
            cd.ordered(),
            is_alphabet(c, a@),
            total(c, a@),
            explored(c, reach@),
            n == states@.len(),
            n == c.states.len(),
            forall|k: int| 0 <= k < n ==> (#[trigger] states@[k])@ == c.states[k],
            p <= n,
            delta@.len() == p,
            forall|k: int|
                0 <= k < p && reach@[k] ==> (#[trigger] delta@[k])@.len() == a@.len(),
            forall|k: int, s: int|
                0 <= k < p && reach@[k] && 0 <= s < a@.len() ==> {
                    let t = #[trigger] delta@[k]@[s];
                    &&& t < n
                    &&& reach@[t as int]
                    &&& first_target(c.states[k].edges, a@[s]) == Some(c.states[t as int].index)
                },
        decreases n - p,
    {
        let mut row: Vec<usize> = Vec::new();
        if reach[p] {
            let st = &states[p];
            assert(st@ == c.states[p as int]);
            proof {
                c.lemma_position(p as int);
            }
            let mut s: usize = 0;
            while s < a.len()
                invariant
                    c == cd@,
                    cd.ordered(),
                    total(c, a@),
                    explored(c, reach@),
                    n == c.states.len(),
                    p < n,
                    reach@[p as int],
                    st@ == c.states[p as int],
                    c.has_state(c.states[p as int].index),
                    c.state(c.states[p as int].index) == c.states[p as int],
                    s <= a@.len(),
                    row@.len() == s,
                    forall|i: int|
                        0 <= i < s ==> {
                            let t = #[trigger] row@[i];
                            &&& t < n
                            &&& reach@[t as int]
                            &&& first_target(c.states[p as int].edges, a@[i]) == Some(
                                c.states[t as int].index,
                            )
                        },
                decreases a@.len() - s,
            {
                proof {
                    assert(has_label(c.states[p as int].edges, a@[s as int]));
                    lemma_no_target_rev(st@.edges, a@[s as int]);
                    lemma_target_is_edge(st@.edges, a@[s as int]);
                    let f = choose|f: int|
                        0 <= f < st@.edges.len() && (#[trigger] st@.edges[f]).0 == a@[s as int]
                            && st@.edges[f].1 == first_target(st@.edges, a@[s as int]).unwrap();
                    lemma_reachable_step(c, c.states[p as int].index, f);
                }
                let t = match first_match(&st.transitions, a[s]) {
                    Some(t) => t,
                    None => {
                        proof {
                            assert(false);
                        }
                        0
                    },
                };
                let tp = match cd.find(t) {
                    Some(tp) => tp,
                    None => {
                        proof {
                            assert(false);
                        }
                        0
                    },
                };
                row.push(tp);
                s += 1;
            }
        }
        delta.push(row);
        p += 1;
    }
    delta
}

/// The marks `marked` are sound: only pairs of reachable states that some
/// input tells apart are marked, and each in both orders.
pub open spec fn marks_sound(
    c: AutomatonModel<char>,
    reach: Seq<bool>,
    marked: Seq<Vec<bool>>,
) -> bool {
    &&& marked.len() == c.states.len()
    &&& reach.len() == c.states.len()
    &&& forall|p: int| 0 <= p < marked.len() ==> (#[trigger] marked[p])@.len() == marked.len()
    &&& forall|p: int, q: int|
        0 <= p < marked.len() && 0 <= q < marked.len() && #[trigger] marked[p]@[q] ==> reach[p]
            && reach[q] && marked[q]@[p] && !equivalent(c, c.states[p].index, c.states[q].index)
}

/// The pairs in `work` are marked pairs.
pub open spec fn work_marked(marked: Seq<Vec<bool>>, work: Seq<(usize, usize)>) -> bool {
    forall|i: int|
        0 <= i < work.len() ==> (#[trigger] work[i]).0 < marked.len() && work[i].1 < marked.len()
            && marked[work[i].0 as int]@[work[i].1 as int]
}

/// Every pair of reachable states that one symbol leads to the pair `(i, j)`
/// is marked.
pub open spec fn pair_done(
    reach: Seq<bool>,
    delta: Seq<Vec<usize>>,
    marked: Seq<Vec<bool>>,
    i: int,
    j: int,
) -> bool {
    forall|p: int, q: int, s: int|
        0 <= p < marked.len() && 0 <= q < marked.len() && reach[p] && reach[q] && 0 <= s
            < delta[p]@.len() && #[trigger] delta[p]@[s] == i && #[trigger] delta[q]@[s] == j
            ==> marked[p]@[q]
}

/// Marks the pair `(p, q)` in both orders and puts it among the work.
fn mark_pair(
    marked: &mut Vec<Vec<bool>>,
    work: &mut Vec<(usize, usize)>,
    p: usize,
    q: usize,
    Ghost(c): Ghost<AutomatonModel<char>>,
    Ghost(reach): Ghost<Seq<bool>>,
)
    requires
        marks_sound(c, reach, old(marked)@),
        work_marked(old(marked)@, old(work)@),
        p < old(marked)@.len(),
        q < old(marked)@.len(),
        reach[p as int],
        reach[q as int],
        !old(marked)@[p as int]@[q as int],
        !equivalent(c, c.states[p as int].index, c.states[q as int].index),
    ensures
        marks_sound(c, reach, final(marked)@),
        work_marked(final(marked)@, final(work)@),
        final(work)@ == old(work)@.push((p, q)),
        forall|i: int, j: int|
            0 <= i < old(marked)@.len() && 0 <= j < old(marked)@.len() ==> (
            #[trigger] final(marked)@[i]@[j]) == (old(marked)@[i]@[j] || (i == p && j == q) || (i
                == q && j == p)),
        unmarked_in(final(marked)@) + 2 == unmarked_in(old(marked)@),
{
    let ghost m0 = marked@;
    assert(p != q) by {
        assert(dfa_run(c, c.states[p as int].index, Seq::<char>::empty()) == dfa_run(
            c,
            c.states[p as int].index,
            Seq::<char>::empty(),
        ));
    }
    assert(!m0[q as int]@[p as int]);
    marked[p][q] = true;
    let ghost m1 = marked@;
    proof {
        lemma_mark_in(m0, m1, p as int, q as int);
    }
    marked[q][p] = true;
    proof {
        lemma_mark_in(m1, marked@, q as int, p as int);
    }
    work.push((p, q));
    assert forall|i: int| 0 <= i < work@.len() implies (#[trigger] work@[i]).0 < marked@.len()
        && work@[i].1 < marked@.len() && marked@[work@[i].0 as int]@[work@[i].1 as int] by {
        if i < work@.len() - 1 {
            assert(work@[i] == old(work)@[i]);
            assert(m0[work@[i].0 as int]@[work@[i].1 as int]);
        }
    }
    assert forall|a: int, b: int|
        0 <= a < marked@.len() && 0 <= b < marked@.len() && #[trigger] marked@[a]@[b] implies reach[a]
        && reach[b] && marked@[b]@[a] && !equivalent(c, c.states[a].index, c.states[b].index) by {
        if a == q && b == p {
            assert forall|w: Seq<char>| #[trigger]
                dfa_run(c, c.states[q as int].index, w) == dfa_run(
                    c,
                    c.states[p as int].index,
                    w,
                ) implies dfa_run(c, c.states[p as int].index, w) == dfa_run(
                c,
                c.states[q as int].index,
                w,
            ) by {}
            if equivalent(c, c.states[q as int].index, c.states[p as int].index) {
                assert forall|w: Seq<char>| #[trigger]
                    dfa_run(c, c.states[p as int].index, w) == dfa_run(
                        c,
                        c.states[q as int].index,
                        w,
                    ) by {
                    assert(dfa_run(c, c.states[q as int].index, w) == dfa_run(
                        c,
                        c.states[p as int].index,
                        w,
                    ));
                }
            }
        } else if a == p && b == q {
        } else {
            assert(m0[a]@[b]);
        }
    }
}

/// The pair `(i, j)` stands among the work, in one order or the other.
pub open spec fn pending(work: Seq<(usize, usize)>, i: int, j: int) -> bool {
    exists|k: int|
        0 <= k < work.len() && ((#[trigger] work[k]) == (i as usize, j as usize) || work[k] == (
            j as usize,
            i as usize,
        ))
}

/// Every marked pair has been followed back, or stands among the work, or is
/// the pair `(u, v)` in one order or the other.
pub open spec fn frontier(
    reach: Seq<bool>,
    delta: Seq<Vec<usize>>,
    marked: Seq<Vec<bool>>,
    work: Seq<(usize, usize)>,
    u: int,
    v: int,
) -> bool {
    forall|i: int, j: int|
        0 <= i < marked.len() && 0 <= j < marked.len() && #[trigger] marked[i]@[j] ==> pair_done(
            reach,
            delta,
            marked,
            i,
            j,
        ) || pending(work, i, j) || (i == u && j == v) || (i == v && j == u)
}

/// States that one symbol leads to states that some input tells apart are
/// told apart by that symbol followed by that input.
proof fn lemma_apart_step(c: AutomatonModel<char>, p: u64, q: u64, x: char, tu: u64, tv: u64)
    requires
        c.has_state(p),
        c.has_state(q),
        first_target(c.state(p).edges, x) == Some(tu),
        first_target(c.state(q).edges, x) == Some(tv),
        !equivalent(c, tu, tv),
    ensures
        !equivalent(c, p, q),
{
    let w = choose|w: Seq<char>| #[trigger] dfa_run(c, tu, w) != dfa_run(c, tv, w);
    let w2 = seq![x] + w;
    assert(w2.drop_first() =~= w);
    assert(w2[0] == x);
    assert(dfa_run(c, p, w2) == dfa_run(c, tu, w));
    assert(dfa_run(c, q, w2) == dfa_run(c, tv, w));
}

/// Telling apart does not depend on the order of the two states.
proof fn lemma_apart_symmetric(c: AutomatonModel<char>, p: u64, q: u64)
    requires
        !equivalent(c, p, q),
    ensures
        !equivalent(c, q, p),
{
    let w = choose|w: Seq<char>| #[trigger] dfa_run(c, p, w) != dfa_run(c, q, w);
    assert(dfa_run(c, q, w) != dfa_run(c, p, w));
}

/// Marking one more pair, and putting it among the work, keeps the frontier.
proof fn lemma_frontier_grows(
    reach: Seq<bool>,
    delta: Seq<Vec<usize>>,
    m0: Seq<Vec<bool>>,
    m1: Seq<Vec<bool>>,
    w0: Seq<(usize, usize)>,
    w1: Seq<(usize, usize)>,
    p: usize,
    q: usize,
    u: int,
    v: int,
)
    requires
        frontier(reach, delta, m0, w0, u, v),
        m1.len() == m0.len(),
        p < m0.len(),
        q < m0.len(),
        w1 == w0.push((p, q)),
        forall|i: int, j: int|
            0 <= i < m0.len() && 0 <= j < m0.len() ==> (#[trigger] m1[i]@[j]) == (m0[i]@[j] || (i
                == p && j == q) || (i == q && j == p)),
    ensures
        frontier(reach, delta, m1, w1, u, v),
{
    assert forall|i: int, j: int|
        0 <= i < m1.len() && 0 <= j < m1.len() && #[trigger] m1[i]@[j] implies pair_done(
        reach,
        delta,
        m1,
        i,
        j,
    ) || pending(w1, i, j) || (i == u && j == v) || (i == v && j == u) by {
        if (i == p && j == q) || (i == q && j == p) {
            assert(w1[w0.len() as int] == (p, q));
        } else {
            assert(m0[i]@[j]);
            if pair_done(reach, delta, m0, i, j) {
                assert forall|a: int, b: int, s: int|
                    0 <= a < m1.len() && 0 <= b < m1.len() && reach[a] && reach[b] && 0 <= s
                        < delta[a]@.len() && #[trigger] delta[a]@[s] == i
                        && #[trigger] delta[b]@[s] == j implies m1[a]@[b] by {
                    assert(m0[a]@[b]);
                }
            } else if pending(w0, i, j) {
                let k = choose|k: int|
                    0 <= k < w0.len() && ((#[trigger] w0[k]) == (i as usize, j as usize) || w0[k]
                        == (j as usize, i as usize));
                assert(w1[k] == w0[k]);
            }
        }
    }
}

/// Marks the pairs of reachable states of which one accepts and the other
/// does not, and puts them among the work.
fn seed(cd: &Dfa, reach: &Vec<bool>, Ghost(delta): Ghost<Seq<Vec<usize>>>) -> (r: (
    Vec<Vec<bool>>,
    Vec<(usize, usize)>,
))
    requires
        cd.ordered(),
        reach@.len() == cd@.states.len(),
    ensures
        marks_sound(cd@, reach@, r.0@),
        work_marked(r.0@, r.1@),
        frontier(reach@, delta, r.0@, r.1@, -1, -1),
        forall|p: int, q: int|
            0 <= p < reach@.len() && 0 <= q < reach@.len() && reach@[p] && reach@[q]
                && cd@.states[p].terminal != cd@.states[q].terminal ==> #[trigger] r.0@[p]@[q],
{
    let ghost c = cd@;
    let states = cd.states();
    let n = states.len();
    let mut marked = blank_table(n, n);
    let mut work: Vec<(usize, usize)> = Vec::new();
    let mut p: usize = 0;
    while p < n
        invariant
            c == cd@,
            c.sorted(),
            n == states@.len(),
            n == c.states.len(),
            reach@.len() == n,
            forall|k: int| 0 <= k < n ==> (#[trigger] states@[k])@ == c.states[k],
            p <= n,
            marks_sound(c, reach@, marked@),
            work_marked(marked@, work@),
            frontier(reach@, delta, marked@, work@, -1, -1),
            forall|i: int, j: int|
                0 <= i < p && 0 <= j < n && reach@[i] && reach@[j] && c.states[i].terminal
                    != c.states[j].terminal ==> #[trigger] marked@[i]@[j],
        decreases n - p,
    {
        let mut q: usize = 0;
        while q < n
            invariant
                c == cd@,
                c.sorted(),
                n == states@.len(),
                n == c.states.len(),
                reach@.len() == n,
                forall|k: int| 0 <= k < n ==> (#[trigger] states@[k])@ == c.states[k],
                p < n,
                q <= n,
                marks_sound(c, reach@, marked@),
                work_marked(marked@, work@),
                frontier(reach@, delta, marked@, work@, -1, -1),
                forall|i: int, j: int|
                    0 <= i < p && 0 <= j < n && reach@[i] && reach@[j] && c.states[i].terminal
                        != c.states[j].terminal ==> #[trigger] marked@[i]@[j],
                forall|j: int|
                    0 <= j < q && reach@[p as int] && reach@[j] && c.states[p as int].terminal
                        != c.states[j].terminal ==> #[trigger] marked@[p as int]@[j],
            decreases n - q,
        {
            if reach[p] && reach[q] && !marked[p][q] && states[p].is_terminal
                != states[q].is_terminal {
                let ghost m0 = marked@;
                let ghost w0 = work@;
                proof {
                    c.lemma_position(p as int);
                    c.lemma_position(q as int);
                    let e = Seq::<char>::empty();
                    assert(dfa_run(c, c.states[p as int].index, e) != dfa_run(
                        c,
                        c.states[q as int].index,
                        e,
                    ));
                }
                mark_pair(&mut marked, &mut work, p, q, Ghost(c), Ghost(reach@));
                proof {
                    lemma_frontier_grows(reach@, delta, m0, marked@, w0, work@, p, q, -1, -1);
                    assert forall|i: int, j: int|
                        0 <= i < p && 0 <= j < n && reach@[i] && reach@[j] && c.states[i].terminal
                            != c.states[j].terminal implies #[trigger] marked@[i]@[j] by {
                        assert(m0[i]@[j]);
                    }
                    assert forall|j: int|
                        0 <= j < q + 1 && reach@[p as int] && reach@[j]
                            && c.states[p as int].terminal
                            != c.states[j].terminal implies #[trigger] marked@[p as int]@[j] by {
                        if j < q {
                            assert(m0[p as int]@[j]);
                        }
                    }
                }
            }
            q += 1;
        }
        p += 1;
    }
    (marked, work)
}

/// Every pair of reachable states, up to the row `p` and the column `q` of
/// that row, that one symbol leads to the pair `(u, v)`, in one order or the
/// other, is marked.
pub open spec fn followed(
    reach: Seq<bool>,
    delta: Seq<Vec<usize>>,
    marked: Seq<Vec<bool>>,
    u: int,
    v: int,
    p: int,
    q: int,
) -> bool {
    forall|a: int, b: int, s: int|
        0 <= a < marked.len() && 0 <= b < marked.len() && (a < p || (a == p && b < q))
            && reach[a] && reach[b] && 0 <= s < delta[a]@.len() && ((#[trigger] delta[a]@[s] == u
            && #[trigger] delta[b]@[s] == v) || (delta[a]@[s] == v && delta[b]@[s] == u))
            ==> marked[a]@[b]
}

/// Follows the marks back to a fixpoint: whenever a pair is marked, every
/// pair that one symbol leads to it is marked too.
fn propagate(
    marked: Vec<Vec<bool>>,
    work: Vec<(usize, usize)>,
    reach: &Vec<bool>,
    delta: &Vec<Vec<usize>>,
    Ghost(c): Ghost<AutomatonModel<char>>,
    Ghost(a): Ghost<Seq<char>>,
) -> (r: Vec<Vec<bool>>)
    requires
        c.sorted(),
        is_table(c, a, reach@, delta@),
        marks_sound(c, reach@, marked@),
        work_marked(marked@, work@),
        frontier(reach@, delta@, marked@, work@, -1, -1),
    ensures
        marks_sound(c, reach@, r@),
        forall|i: int, j: int|
            0 <= i < r@.len() && 0 <= j < r@.len() && marked@[i]@[j] ==> #[trigger] r@[i]@[j],
        forall|i: int, j: int|
            0 <= i < r@.len() && 0 <= j < r@.len() && #[trigger] r@[i]@[j] ==> pair_done(
                reach@,
                delta@,
                r@,
                i,
                j,
            ),
{
    let ghost first = marked@;
    let mut marked = marked;
    let mut work = work;
    let n = marked.len();
    while work.len() > 0
        invariant
            c.sorted(),
            n == c.states.len(),
            n == marked@.len(),
            is_table(c, a, reach@, delta@),
            marks_sound(c, reach@, marked@),
            work_marked(marked@, work@),
            frontier(reach@, delta@, marked@, work@, -1, -1),
            forall|i: int, j: int|
                0 <= i < n && 0 <= j < n && first[i]@[j] ==> #[trigger] marked@[i]@[j],
        decreases 2 * unmarked_in(marked@) + work@.len(),
    {
        let ghost bound = 2 * unmarked_in(marked@) + work@.len();
        let ghost w_before = work@;
        let (u, v) = work.pop().unwrap();
        assert(w_before == work@.push((u, v)));
        assert(w_before[work@.len() as int] == (u, v));
        assert(marked@[u as int]@[v as int]);
        proof {
            assert forall|i: int, j: int|
                0 <= i < n && 0 <= j < n && #[trigger] marked@[i]@[j] implies pair_done(
                reach@,
                delta@,
                marked@,
                i,
                j,
            ) || pending(work@, i, j) || (i == u && j == v) || (i == v && j == u) by {
                if pending(w_before, i, j) {
                    let k = choose|k: int|
                        0 <= k < w_before.len() && ((#[trigger] w_before[k]) == (
                            i as usize,
                            j as usize,
                        ) || w_before[k] == (j as usize, i as usize));
                    if k < work@.len() {
                        assert(work@[k] == w_before[k]);
                    }
                }
            }
        }
        let mut p: usize = 0;
        while p < n
            invariant
                c.sorted(),
                n == c.states.len(),
                n == marked@.len(),
                u < n,
                v < n,
                p <= n,
                is_table(c, a, reach@, delta@),
                marks_sound(c, reach@, marked@),
                work_marked(marked@, work@),
                marked@[u as int]@[v as int],
                frontier(reach@, delta@, marked@, work@, u as int, v as int),
                followed(reach@, delta@, marked@, u as int, v as int, p as int, 0),
                forall|i: int, j: int|
                    0 <= i < n && 0 <= j < n && first[i]@[j] ==> #[trigger] marked@[i]@[j],
                2 * unmarked_in(marked@) + work@.len() < bound,
            decreases n - p,
        {
            if reach[p] {
                let mut q: usize = 0;
                while q < n
                    invariant
                        c.sorted(),
                        n == c.states.len(),
                        n == marked@.len(),
                        u < n,
                        v < n,
                        p < n,
                        q <= n,
                        reach@[p as int],
                        is_table(c, a, reach@, delta@),
                        marks_sound(c, reach@, marked@),
                        work_marked(marked@, work@),
                        marked@[u as int]@[v as int],
                        frontier(reach@, delta@, marked@, work@, u as int, v as int),
                        followed(reach@, delta@, marked@, u as int, v as int, p as int, q as int),
                        forall|i: int, j: int|
                            0 <= i < n && 0 <= j < n && first[i]@[j] ==> #[trigger] marked@[i]@[j],
                        2 * unmarked_in(marked@) + work@.len() < bound,
                    decreases n - q,
                {
                    if reach[q] {
                        let row_p = &delta[p];
                        let row_q = &delta[q];
                        let m = row_p.len();
                        assert(row_q@.len() == m);
                        let mut s: usize = 0;
                        while s < m
                            invariant
                                c.sorted(),
                                n == c.states.len(),
                                n == marked@.len(),
                                u < n,
                                v < n,
                                p < n,
                                q < n,
                                s <= m,
                                m == a.len(),
                                reach@[p as int],
                                reach@[q as int],
                                row_p@ == delta@[p as int]@,
                                row_q@ == delta@[q as int]@,
                                row_p@.len() == m,
                                row_q@.len() == m,
                                is_table(c, a, reach@, delta@),
                                marks_sound(c, reach@, marked@),
                                work_marked(marked@, work@),
                                marked@[u as int]@[v as int],
                                frontier(reach@, delta@, marked@, work@, u as int, v as int),
                                followed(
                                    reach@,
                                    delta@,
                                    marked@,
                                    u as int,
                                    v as int,
                                    p as int,
                                    q as int,
                                ),
                                forall|x: int|
                                    0 <= x < s && ((row_p@[x] == u && row_q@[x] == v) || (row_p@[x]
                                        == v && row_q@[x] == u)) ==> marked@[p as int]@[q as int],
                                forall|i: int, j: int|
                                    0 <= i < n && 0 <= j < n && first[i]@[j]
                                        ==> #[trigger] marked@[i]@[j],
                                2 * unmarked_in(marked@) + work@.len() < bound,
                            decreases m - s,
                        {
                            let dp = row_p[s];
                            let dq = row_q[s];
                            if !marked[p][q] && ((dp == u && dq == v) || (dp == v && dq == u)) {
                                let ghost m0 = marked@;
                                let ghost w0 = work@;
                                proof {
                                    c.lemma_position(p as int);
                                    c.lemma_position(q as int);
                                    assert(delta@[p as int]@[s as int] == dp);
                                    assert(delta@[q as int]@[s as int] == dq);
                                    let ip = c.states[p as int].index;
                                    let iq = c.states[q as int].index;
                                    let iu = c.states[u as int].index;
                                    let iv = c.states[v as int].index;
                                    assert(!equivalent(c, iu, iv));
                                    lemma_apart_symmetric(c, iu, iv);
                                    if dp == u && dq == v {
                                        lemma_apart_step(c, ip, iq, a[s as int], iu, iv);
                                    } else {
                                        lemma_apart_step(c, ip, iq, a[s as int], iv, iu);
                                    }
                                }
                                mark_pair(&mut marked, &mut work, p, q, Ghost(c), Ghost(reach@));
                                proof {
                                    lemma_frontier_grows(
                                        reach@,
                                        delta@,
                                        m0,
                                        marked@,
                                        w0,
                                        work@,
                                        p,
                                        q,
                                        u as int,
                                        v as int,
                                    );
                                    assert forall|i: int, j: int|
                                        0 <= i < n && 0 <= j < n
                                            && first[i]@[j] implies #[trigger] marked@[i]@[j] by {
                                        assert(m0[i]@[j]);
                                    }
                                    assert forall|x: int, y: int, z: int|
                                        0 <= x < marked@.len() && 0 <= y < marked@.len() && (x < p
                                            || (x == p && y < q)) && reach@[x] && reach@[y] && 0
                                            <= z < delta@[x]@.len() && ((
                                        #[trigger] delta@[x]@[z] == u && #[trigger] delta@[y]@[z]
                                            == v) || (delta@[x]@[z] == v && delta@[y]@[z]
                                            == u)) implies marked@[x]@[y] by {
                                        assert(m0[x]@[y]);
                                    }
                                    assert(marked@[u as int]@[v as int]) by {
                                        assert(m0[u as int]@[v as int]);
                                    }
                                }
                            }
                            s += 1;
                        }
                        assert forall|x: int, y: int, z: int|
                            0 <= x < marked@.len() && 0 <= y < marked@.len() && (x < p || (x == p
                                && y < q + 1)) && reach@[x] && reach@[y] && 0 <= z
                                < delta@[x]@.len() && ((#[trigger] delta@[x]@[z] == u
                                && #[trigger] delta@[y]@[z] == v) || (delta@[x]@[z] == v
                                && delta@[y]@[z] == u)) implies marked@[x]@[y] by {
                            if x == p && y == q {
                                assert(row_p@[z] == delta@[x]@[z]);
                                assert(row_q@[z] == delta@[y]@[z]);
                            }
                        }
                    }
                    q += 1;
                }
            }
            assert(followed(reach@, delta@, marked@, u as int, v as int, p + 1, 0));
            p += 1;
        }
        proof {
            assert(pair_done(reach@, delta@, marked@, u as int, v as int));
            assert(pair_done(reach@, delta@, marked@, v as int, u as int));
        }
    }
    proof {
        assert forall|i: int, j: int|
            0 <= i < marked@.len() && 0 <= j < marked@.len()
                && #[trigger] marked@[i]@[j] implies pair_done(reach@, delta@, marked@, i, j) by {
            if pending(work@, i, j) {
            }
        }
    }
    marked
}

/// Being told apart by no input is an equivalence.
pub proof fn lemma_equivalence(c: AutomatonModel<char>, x: u64, y: u64, z: u64)
    ensures
        equivalent(c, x, x),
        equivalent(c, x, y) ==> equivalent(c, y, x),
        equivalent(c, x, y) && equivalent(c, y, z) ==> equivalent(c, x, z),
{
    if equivalent(c, x, y) {
        assert forall|w: Seq<char>| #[trigger] dfa_run(c, y, w) == dfa_run(c, x, w) by {
            assert(dfa_run(c, x, w) == dfa_run(c, y, w));
        }
        if equivalent(c, y, z) {
            assert forall|w: Seq<char>| #[trigger] dfa_run(c, x, w) == dfa_run(c, z, w) by {
                assert(dfa_run(c, y, w) == dfa_run(c, z, w));
            }
        }
    }
}

/// One symbol leads states that no input tells apart to states that no
/// input tells apart.
pub proof fn lemma_equivalent_step(
    c: AutomatonModel<char>,
    p: u64,
    q: u64,
    x: char,
    tp: u64,
    tq: u64,
)
    requires
        c.has_state(p),
        c.has_state(q),
        first_target(c.state(p).edges, x) == Some(tp),
        first_target(c.state(q).edges, x) == Some(tq),
        equivalent(c, p, q),
    ensures
        equivalent(c, tp, tq),
{
    assert forall|w: Seq<char>| #[trigger] dfa_run(c, tp, w) == dfa_run(c, tq, w) by {
        let w2 = seq![x] + w;
        assert(w2.drop_first() =~= w);
        assert(w2[0] == x);
        assert(dfa_run(c, p, w2) == dfa_run(c, tp, w));
        assert(dfa_run(c, q, w2) == dfa_run(c, tq, w));
    }
}

/// At the fixpoint, states that are not marked end alike on every input.
proof fn lemma_unmarked_alike(
    c: AutomatonModel<char>,
    a: Seq<char>,
    reach: Seq<bool>,
    delta: Seq<Vec<usize>>,
    marked: Seq<Vec<bool>>,
    p: int,
    q: int,
    w: Seq<char>,
)
    requires
        c.sorted(),
        is_alphabet(c, a),
        is_table(c, a, reach, delta),
        marked.len() == c.states.len(),
        forall|i: int, j: int|
            0 <= i < reach.len() && 0 <= j < reach.len() && reach[i] && reach[j]
                && c.states[i].terminal != c.states[j].terminal ==> #[trigger] marked[i]@[j],
        forall|i: int, j: int|
            0 <= i < marked.len() && 0 <= j < marked.len() && #[trigger] marked[i]@[j]
                ==> pair_done(reach, delta, marked, i, j),
        0 <= p < marked.len(),
        0 <= q < marked.len(),
        reach[p],
        reach[q],
        !marked[p]@[q],
    ensures
        dfa_run(c, c.states[p].index, w) == dfa_run(c, c.states[q].index, w),
    decreases w.len(),
{
    c.lemma_position(p);
    c.lemma_position(q);
    if w.len() > 0 {
        let x = w[0];
        if a.contains(x) {
            let s = choose|s: int| 0 <= s < a.len() && a[s] == x;
            let tp = delta[p]@[s] as int;
            let tq = delta[q]@[s] as int;
            if marked[tp]@[tq] {
                assert(pair_done(reach, delta, marked, tp, tq));
            }
            lemma_unmarked_alike(c, a, reach, delta, marked, tp, tq, w.drop_first());
        } else {
            assert forall|k: int| 0 <= k < c.states.len() implies !has_label(
                (#[trigger] c.states[k]).edges,
                x,
            ) by {
                if has_label(c.states[k].edges, x) {
                    let e = choose|e: int|
                        0 <= e < c.states[k].edges.len() && (#[trigger] c.states[k].edges[e]).0
                            == x;
                    assert(dfa_has_symbol(c, x));
                }
            }
            lemma_no_target(c.states[p].edges, x);
            lemma_no_target(c.states[q].edges, x);
        }
    }
}

/// `comp` numbers the classes of the reachable states, and `reps` holds the
/// position of the lowest member of each class but that of the start, of
/// which it holds the start.
pub open spec fn is_partition(
    c: AutomatonModel<char>,
    reach: Seq<bool>,
    comp: Seq<usize>,
    reps: Seq<usize>,
    sp: int,
) -> bool {
    &&& comp.len() == c.states.len()
    &&& reach.len() == c.states.len()
    &&& reps.len() >= 1
    &&& reps[0] == sp
    &&& comp[sp] == 0
    &&& forall|p: int| 0 <= p < comp.len() && reach[p] ==> (#[trigger] comp[p]) < reps.len()
    &&& forall|i: int|
        0 <= i < reps.len() ==> (#[trigger] reps[i]) < comp.len() && reach[reps[i] as int]
            && comp[reps[i] as int] == i
    &&& forall|p: int, q: int|
        0 <= p < comp.len() && 0 <= q < comp.len() && reach[p] && reach[q] ==> ((
        #[trigger] comp[p]) == (#[trigger] comp[q]) <==> equivalent(
            c,
            c.states[p].index,
            c.states[q].index,
        ))
    &&& forall|p: int|
        0 <= p < comp.len() && reach[p] && (#[trigger] comp[p]) >= 1 ==> reps[comp[p] as int]
            <= p
    &&& forall|i: int, j: int|
        1 <= i < j < reps.len() ==> (#[trigger] reps[i]) < (#[trigger] reps[j])
}

/// Numbers the classes: 0 for the class of the start, then the others in
/// ascending order of their lowest member.
fn classes(marked: &Vec<Vec<bool>>, reach: &Vec<bool>, sp: usize, Ghost(c): Ghost<
    AutomatonModel<char>,
>) -> (r: (Vec<usize>, Vec<usize>))
    requires
        marked@.len() == c.states.len(),
        reach@.len() == c.states.len(),
        forall|p: int| 0 <= p < marked@.len() ==> (#[trigger] marked@[p])@.len() == marked@.len(),
        sp < reach@.len(),
        reach@[sp as int],
        forall|p: int, q: int|
            0 <= p < reach@.len() && 0 <= q < reach@.len() && reach@[p] && reach@[q] ==> (
            #[trigger] marked@[p]@[q] <==> !equivalent(c, c.states[p].index, c.states[q].index)),
    ensures
        is_partition(c, reach@, r.0@, r.1@, sp as int),
{
    let n = reach.len();
    let mut comp: Vec<usize> = Vec::new();
    let mut seen: Vec<bool> = Vec::new();
    let mut j: usize = 0;
    while j < n
        invariant
            n == reach@.len(),
            n == marked@.len(),
            n == c.states.len(),
            forall|p: int| 0 <= p < n ==> (#[trigger] marked@[p])@.len() == n,
            sp < n,
            reach@[sp as int],
            forall|p: int, q: int|
                0 <= p < n && 0 <= q < n && reach@[p] && reach@[q] ==> (
                #[trigger] marked@[p]@[q] <==> !equivalent(
                    c,
                    c.states[p].index,
                    c.states[q].index,
                )),
            j <= n,
            comp@.len() == j,
            seen@.len() == j,
            forall|q: int| 0 <= q < j ==> (#[trigger] comp@[q]) == 0,
            forall|q: int|
                0 <= q < j ==> ((#[trigger] seen@[q]) <==> reach@[q] && equivalent(
                    c,
                    c.states[sp as int].index,
                    c.states[q].index,
                )),
        decreases n - j,
    {
        comp.push(0);
        seen.push(reach[j] && !marked[sp][j]);
        j += 1;
    }
    let mut reps: Vec<usize> = Vec::new();
    reps.push(sp);
    proof {
        lemma_equivalence(c, c.states[sp as int].index, 0, 0);
        assert forall|p: int, q: int|
            0 <= p < n && 0 <= q < n && reach@[p] && reach@[q]
                && #[trigger] seen@[p] implies ((#[trigger] seen@[q]) && comp@[q] == comp@[p]
            <==> equivalent(c, c.states[p].index, c.states[q].index)) by {
            let s = c.states[sp as int].index;
            lemma_equivalence(c, s, c.states[p].index, c.states[q].index);
            lemma_equivalence(c, c.states[p].index, s, c.states[q].index);
        }
    }
    let mut i: usize = 0;
    while i < n
        invariant
            n == reach@.len(),
            n == marked@.len(),
            n == c.states.len(),
            forall|p: int| 0 <= p < n ==> (#[trigger] marked@[p])@.len() == n,
            sp < n,
            reach@[sp as int],
            forall|p: int, q: int|
                0 <= p < n && 0 <= q < n && reach@[p] && reach@[q] ==> (
                #[trigger] marked@[p]@[q] <==> !equivalent(
                    c,
                    c.states[p].index,
                    c.states[q].index,
                )),
            i <= n,
            comp@.len() == n,
            seen@.len() == n,
            1 <= reps@.len(),
            reps@[0] == sp,
            comp@[sp as int] == 0,
            forall|p: int|
                0 <= p < n && #[trigger] seen@[p] ==> reach@[p] && comp@[p] < reps@.len(),
            forall|p: int| 0 <= p < i && reach@[p] ==> #[trigger] seen@[p],
            forall|k: int|
                0 <= k < reps@.len() ==> (#[trigger] reps@[k]) < n && seen@[reps@[k] as int]
                    && comp@[reps@[k] as int] == k,
            forall|p: int, q: int|
                0 <= p < n && 0 <= q < n && reach@[p] && reach@[q] && #[trigger] seen@[p] ==> ((
                #[trigger] seen@[q]) && comp@[q] == comp@[p] <==> equivalent(
                    c,
                    c.states[p].index,
                    c.states[q].index,
                )),
            forall|p: int|
                0 <= p < n && #[trigger] seen@[p] && 1 <= comp@[p] ==> reps@[comp@[p] as int]
                    <= p,
            forall|k: int| 1 <= k < reps@.len() ==> (#[trigger] reps@[k]) < i,
            forall|k: int, l: int|
                1 <= k < l < reps@.len() ==> (#[trigger] reps@[k]) < (#[trigger] reps@[l]),
        decreases n - i,
    {
        if reach[i] && !seen[i] {
            let id = reps.len();
            let ghost comp0 = comp@;
            let ghost seen0 = seen@;
            let ghost ii = c.states[i as int].index;
            let mut j: usize = i;
            while j < n
                invariant
                    n == reach@.len(),
                    n == marked@.len(),
                    n == c.states.len(),
                    forall|p: int| 0 <= p < n ==> (#[trigger] marked@[p])@.len() == n,
                    forall|p: int, q: int|
                        0 <= p < n && 0 <= q < n && reach@[p] && reach@[q] ==> (
                        #[trigger] marked@[p]@[q] <==> !equivalent(
                            c,
                            c.states[p].index,
                            c.states[q].index,
                        )),
                    i < n,
                    i <= j <= n,
                    reach@[i as int],
                    ii == c.states[i as int].index,
                    comp0.len() == n,
                    seen0.len() == n,
                    comp@.len() == n,
                    seen@.len() == n,
                    forall|q: int|
                        0 <= q < n ==> (#[trigger] comp@[q]) == if i <= q < j && reach@[q]
                            && equivalent(c, ii, c.states[q].index) {
                            id
                        } else {
                            comp0[q]
                        },
                    forall|q: int|
                        0 <= q < n ==> (#[trigger] seen@[q]) == (seen0[q] || (i <= q < j
                            && reach@[q] && equivalent(c, ii, c.states[q].index))),
                decreases n - j,
            {
                if reach[j] && !marked[i][j] {
                    comp[j] = id;
                    seen[j] = true;
                }
                j += 1;
            }
            reps.push(i);
            proof {
                lemma_equivalence(c, ii, 0, 0);
                assert(comp@[i as int] == id && seen@[i as int]);
                // The states that were numbered before keep their numbers,
                // and none of them is in the new class.
                assert forall|q: int| 0 <= q < n && seen0[q] implies !equivalent(
                    c,
                    ii,
                    #[trigger] c.states[q].index,
                ) by {
                    if equivalent(c, ii, c.states[q].index) {
                        lemma_equivalence(c, ii, c.states[q].index, 0);
                        assert(seen0[i as int] && comp0[i as int] == comp0[q]);
                    }
                }
                assert forall|q: int| 0 <= q < n && reach@[q] implies ((#[trigger] seen@[q])
                    && comp@[q] == id <==> equivalent(c, ii, c.states[q].index)) by {
                    if seen0[q] {
                        assert(!equivalent(c, ii, c.states[q].index));
                        assert(comp0[q] < id);
                    }
                    if q < i {
                        assert(seen0[q]);
                    }
                }
                assert forall|p: int, q: int|
                    0 <= p < n && 0 <= q < n && reach@[p] && reach@[q]
                        && #[trigger] seen@[p] implies ((#[trigger] seen@[q]) && comp@[q]
                    == comp@[p] <==> equivalent(c, c.states[p].index, c.states[q].index)) by {
                    let xp = c.states[p].index;
                    let xq = c.states[q].index;
                    lemma_equivalence(c, ii, xp, xq);
                    lemma_equivalence(c, xp, ii, xq);
                    lemma_equivalence(c, xq, xp, ii);
                    lemma_equivalence(c, xp, xq, ii);
                    assert(seen@[q] && comp@[q] == id <==> equivalent(c, ii, xq));
                    assert(seen@[p] && comp@[p] == id <==> equivalent(c, ii, xp));
                    if seen0[p] {
                        assert(!equivalent(c, ii, c.states[p].index));
                        assert(comp0[p] < id);
                        if seen0[q] {
                            assert(!equivalent(c, ii, c.states[q].index));
                        }
                    }
                }
                assert forall|k: int| 0 <= k < reps@.len() implies (#[trigger] reps@[k]) < n
                    && seen@[reps@[k] as int] && comp@[reps@[k] as int] == k by {
                    if k < id {
                        let r = reps@[k] as int;
                        assert(seen0[r]);
                        assert(!equivalent(c, ii, c.states[r].index));
                    }
                }
                assert forall|p: int|
                    0 <= p < n && #[trigger] seen@[p] && 1
                        <= comp@[p] implies reps@[comp@[p] as int] <= p by {
                    if seen0[p] {
                        assert(!equivalent(c, ii, c.states[p].index));
                        assert(comp0[p] < id);
                    }
                }
                assert forall|p: int| 0 <= p < n && #[trigger] seen@[p] implies reach@[p]
                    && comp@[p] < reps@.len() by {
                    if seen0[p] {
                        assert(comp0[p] < id);
                        assert(!equivalent(c, ii, c.states[p].index));
                    }
                }
                assert(comp@[sp as int] == 0) by {
                    assert(seen0[sp as int]);
                    assert(!equivalent(c, ii, c.states[sp as int].index));
                }
            }
        }
        i += 1;
    }
    proof {
        assert forall|p: int, q: int|
            0 <= p < n && 0 <= q < n && reach@[p] && reach@[q] implies ((#[trigger] comp@[p]) == (
            #[trigger] comp@[q]) <==> equivalent(c, c.states[p].index, c.states[q].index)) by {
            assert(seen@[p] && seen@[q]);
        }
        assert forall|p: int| 0 <= p < n && reach@[p] implies (#[trigger] comp@[p])
            < reps@.len() by {
            assert(seen@[p]);
        }
        assert forall|p: int|
            0 <= p < n && reach@[p] && (#[trigger] comp@[p]) >= 1 implies reps@[comp@[p] as int]
            <= p by {
            assert(seen@[p]);
        }
        assert forall|k: int| 0 <= k < reps@.len() implies (#[trigger] reps@[k]) < n
            && reach@[reps@[k] as int] && comp@[reps@[k] as int] == k by {
            assert(seen@[reps@[k] as int]);
        }
    }
    (comp, reps)
}

/// The transitions of a class: on each symbol of `a`, in order, to the
/// class of the state at the position that `row` holds for the symbol.
pub open spec fn class_row(a: Seq<char>, row: Seq<usize>, comp: Seq<usize>) -> Seq<(char, u64)> {
    Seq::new(a.len(), |s: int| (a[s], comp[row[s] as int] as u64))
}

/// Builds one state for each class.
fn build(
    cd: &Dfa,
    a: &Vec<char>,
    delta: &Vec<Vec<usize>>,
    comp: &Vec<usize>,
    reps: &Vec<usize>,
    Ghost(reach): Ghost<Seq<bool>>,
    Ghost(sp): Ghost<int>,
) -> (out: Vec<DfaState>)
    requires
        cd.ordered(),
        is_table(cd@, a@, reach, delta@),
        is_partition(cd@, reach, comp@, reps@, sp),
    ensures
        out@.len() == reps@.len(),
        forall|i: int|
            0 <= i < out@.len() ==> (#[trigger] out@[i])@ == (StateModel::<char> {
                index: i as u64,
                terminal: cd@.states[reps@[i] as int].terminal,
                edges: class_row(a@, delta@[reps@[i] as int]@, comp@),
            }),
{
    let ghost c = cd@;
    let states = cd.states();
    let mut out: Vec<DfaState> = Vec::new();
    let mut i: usize = 0;
    while i < reps.len()
        invariant
            c == cd@,
            states@.len() == c.states.len(),
            forall|k: int| 0 <= k < states@.len() ==> (#[trigger] states@[k])@ == c.states[k],
            is_table(c, a@, reach, delta@),
            is_partition(c, reach, comp@, reps@, sp),
            i <= reps@.len(),
            out@.len() == i,
            forall|k: int|
                0 <= k < i ==> (#[trigger] out@[k])@ == (StateModel::<char> {
                    index: k as u64,
                    terminal: c.states[reps@[k] as int].terminal,
                    edges: class_row(a@, delta@[reps@[k] as int]@, comp@),
                }),
        decreases reps@.len() - i,
    {
        let r = reps[i];
        assert(states@[r as int]@ == c.states[r as int]);
        let mut st = DfaState::new(i as u64, states[r].is_terminal);
        let row = &delta[r];
        let mut s: usize = 0;
        while s < a.len()
            invariant
                is_table(c, a@, reach, delta@),
                comp@.len() == c.states.len(),
                r < c.states.len(),
                reach[r as int],
                row@ == delta@[r as int]@,
                s <= a@.len(),
                st.index == i as u64,
                st.is_terminal == c.states[r as int].terminal,
                st.transitions@ == class_row(a@, row@, comp@).take(s as int),
            decreases a@.len() - s,
        {
            let t = row[s];
            assert(delta@[r as int]@[s as int] == t);
            st.add_transition(a[s], comp[t] as u64);
            assert(class_row(a@, row@, comp@).take(s + 1) =~= class_row(a@, row@, comp@).take(
                s as int,
            ).push((a@[s as int], comp@[t as int] as u64)));
            s += 1;
        }
        assert(class_row(a@, row@, comp@).take(s as int) =~= class_row(a@, row@, comp@));
        out.push(st);
        i += 1;
    }
    out
}

/// At the fixpoint the marks are exact: a pair of reachable states is marked
/// exactly if some input tells the two apart.
proof fn lemma_marks_exact(
    c: AutomatonModel<char>,
    a: Seq<char>,
    reach: Seq<bool>,
    delta: Seq<Vec<usize>>,
    marked: Seq<Vec<bool>>,
)
    requires
        c.sorted(),
        is_alphabet(c, a),
        is_table(c, a, reach, delta),
        marks_sound(c, reach, marked),
        forall|i: int, j: int|
            0 <= i < reach.len() && 0 <= j < reach.len() && reach[i] && reach[j]
                && c.states[i].terminal != c.states[j].terminal ==> #[trigger] marked[i]@[j],
        forall|i: int, j: int|
            0 <= i < marked.len() && 0 <= j < marked.len() && #[trigger] marked[i]@[j]
                ==> pair_done(reach, delta, marked, i, j),
    ensures
        forall|p: int, q: int|
            0 <= p < reach.len() && 0 <= q < reach.len() && reach[p] && reach[q] ==> (
            #[trigger] marked[p]@[q] <==> !equivalent(c, c.states[p].index, c.states[q].index)),
{
    assert forall|p: int, q: int|
        0 <= p < reach.len() && 0 <= q < reach.len() && reach[p] && reach[q] implies (
    #[trigger] marked[p]@[q] <==> !equivalent(c, c.states[p].index, c.states[q].index)) by {
        if !marked[p]@[q] {
            assert forall|w: Seq<char>| #[trigger]
                dfa_run(c, c.states[p].index, w) == dfa_run(c, c.states[q].index, w) by {
                lemma_unmarked_alike(c, a, reach, delta, marked, p, q, w);
            }
        }
    }
}

/// Marks the pairs of reachable states that some input tells apart.
fn distinguish(cd: &Dfa, a: &Vec<char>, reach: &Vec<bool>, delta: &Vec<Vec<usize>>) -> (marked:
    Vec<Vec<bool>>)
    requires
        cd.ordered(),
        is_alphabet(cd@, a@),
        is_table(cd@, a@, reach@, delta@),
    ensures
        marked@.len() == reach@.len(),
        forall|p: int| 0 <= p < marked@.len() ==> (#[trigger] marked@[p])@.len() == marked@.len(),
        forall|p: int, q: int|
            0 <= p < reach@.len() && 0 <= q < reach@.len() && reach@[p] && reach@[q] ==> (
            #[trigger] marked@[p]@[q] <==> !equivalent(
                cd@,
                cd@.states[p].index,
                cd@.states[q].index,
            )),
{
    let (seeded, work) = seed(cd, reach, Ghost(delta@));
    let marked = propagate(seeded, work, reach, delta, Ghost(cd@), Ghost(a@));
    proof {
        lemma_marks_exact(cd@, a@, reach@, delta@, marked@);
    }
    marked
}

/// The minimal automaton of the complete automaton `cd`, or nothing where a
/// transition of a reachable state leads to an index without a state.
pub fn minimize(cd: &Dfa) -> (r: Option<Dfa>)
    requires
        cd.ordered(),
        cd@.has_state(cd@.start),
        total(cd@, alphabet_of(cd@)),
    ensures
        dangling(cd@) <==> r is None,
        r matches Some(m) ==> m.ordered() && total(m@, alphabet_of(m@)) && is_minimal(cd@, m@),
{
    let ghost c = cd@;
    let a = cd.get_alphabet();
    proof {
        lemma_alphabet_unique(c, a@);
    }
    let reach = match explore(cd) {
        Some(reach) => reach,
        None => {
            return None;
        },
    };
    let delta = table(cd, &a, &reach);
    let marked = distinguish(cd, &a, &reach, &delta);
    let sp = match cd.find(cd.starting_state()) {
        Some(sp) => sp,
        None => {
            proof {
                assert(false);
            }
            0
        },
    };
    assert(reach@[sp as int]) by {
        assert(reached_in(c, 0, c.start));
        assert(reachable(c, c.start));
    }
    let (comp, reps) = classes(&marked, &reach, sp, Ghost(c));
    let out = build(cd, &a, &delta, &comp, &reps, Ghost(reach@), Ghost(sp as int));
    let m = Dfa::from_states(0, out);
    proof {
        let cls = |q: u64|
            if c.has_state(q) {
                comp@[c.position(q)] as u64
            } else {
                0u64
            };
        lemma_quotient(c, a@, reach@, delta@, comp@, reps@, sp as int, m@, cls);
        lemma_minimal_alphabet(c, a@, m@, cls);
        lemma_not_dangling(c, reach@);
        assert(is_minimal(c, m@));
    }
    Some(m)
}

/// Where the reachable states have been explored, no reachable index is
/// without a state.
proof fn lemma_not_dangling(c: AutomatonModel<char>, reach: Seq<bool>)
    requires
        explored(c, reach),
    ensures
        !dangling(c),
{
}

/// The minimal automaton of a complete automaton and the automaton that was
/// completed accept the same inputs, where all transitions of that automaton
/// lead to states.
pub proof fn lemma_minimal_language(
    d: AutomatonModel<char>,
    m: AutomatonModel<char>,
    cls: spec_fn(u64) -> u64,
    w: Seq<char>,
)
    requires
        d.sorted(),
        d.closed(),
        total(d, alphabet_of(d)) || d.states.last().index < u64::MAX,
        quotient_of(completed(d), m, cls),
    ensures
        dfa_run(m, m.start, w) == dfa_run(d, d.start, w),
{
    let c = completed(d);
    lemma_alphabet_exists(d);
    lemma_alphabet_exists(c);
    lemma_completion(d);
    assert(reached_in(c, 0, c.start));
    lemma_quotient_run(c, m, cls, c.start, w);
    lemma_completion_run(d, d.start, w);
}

impl ToMinimalCompleteDfa for Dfa {
    /// Completes the automaton and minimizes the completion. Fails as the
    /// completion fails, and with a lookup error where a transition of a
    /// reachable state leads to an index without a state.
    fn to_mcdfa(&self) -> (r: Result<Dfa, AutomatonError>)
        ensures
            is_minimal_of(self@, dfa_model(r)),
            !self@.has_state(self@.start) ==> r == Err::<Dfa, AutomatonError>(
                AutomatonError::LookupError,
            ),
            self@.has_state(self@.start) && !total(self@, alphabet_of(self@))
                && self@.states.last().index == u64::MAX ==> r == Err::<Dfa, AutomatonError>(
                AutomatonError::CapacityError,
            ),
            self@.has_state(self@.start) && (total(self@, alphabet_of(self@))
                || self@.states.last().index < u64::MAX) && dangling(completed(self@)) ==> r
                == Err::<Dfa, AutomatonError>(AutomatonError::LookupError),
            self@.has_state(self@.start) && (total(self@, alphabet_of(self@))
                || self@.states.last().index < u64::MAX) && !dangling(completed(self@)) ==> (
            r matches Ok(m) && is_minimal(completed(self@), m@)),
            r matches Ok(m) ==> (self@.closed() ==> forall|w: Seq<char>|
                dfa_run(m@, m@.start, w) == #[trigger] dfa_run(self@, self@.start, w)),
    {
        let cd = match self.to_cdfa() {
            Ok(cd) => cd,
            Err(e) => {
                assert(completion_of(self@) == Err::<AutomatonModel<char>, AutomatonError>(e));
                return Err(e);
            },
        };
        assert(completion_of(self@) == Ok::<AutomatonModel<char>, AutomatonError>(cd@));
        proof {
            lemma_completion(self@);
        }
        match minimize(&cd) {
            None => {
                assert(dangling(cd@));
                assert(is_minimal_of(
                    self@,
                    Err::<AutomatonModel<char>, AutomatonError>(AutomatonError::LookupError),
                ));
                Err(AutomatonError::LookupError)
            },
            Some(m) => {
                proof {
                    let cls = choose|cls: spec_fn(u64) -> u64| quotient_of(cd@, m@, cls);
                    assert(quotient_of(cd@, m@, cls));
                    assert(!dangling(cd@));
                    assert(is_minimal(cd@, m@));
                    if self@.closed() {
                        assert forall|w: Seq<char>|
                            dfa_run(m@, m@.start, w) == #[trigger] dfa_run(
                                self@,
                                self@.start,
                                w,
                            ) by {
                            lemma_minimal_language(self@, m@, cls, w);
                        }
                    }
                }
                Ok(m)
            },
        }
    }
}

/// The states built from the classes make the minimal automaton.
proof fn lemma_quotient(
    c: AutomatonModel<char>,
    a: Seq<char>,
    reach: Seq<bool>,
    delta: Seq<Vec<usize>>,
    comp: Seq<usize>,
    reps: Seq<usize>,
    sp: int,
    m: AutomatonModel<char>,
    cls: spec_fn(u64) -> u64,
)
    requires
        c.sorted(),
        is_alphabet(c, a),
        c.has_state(c.start),
        c.position(c.start) == sp,
        explored(c, reach),
        is_table(c, a, reach, delta),
        is_partition(c, reach, comp, reps, sp),
        m.start == 0,
        m.states.len() == reps.len(),
        forall|i: int|
            0 <= i < m.states.len() ==> (#[trigger] m.states[i]) == (StateModel::<char> {
                index: i as u64,
                terminal: c.states[reps[i] as int].terminal,
                edges: class_row(a, delta[reps[i] as int]@, comp),
            }),
        forall|q: u64|
            #[trigger] cls(q) == if c.has_state(q) {
                comp[c.position(q)] as u64
            } else {
                0u64
            },
    ensures
        a == alphabet_of(c),
        quotient_of(c, m, cls),
{
    lemma_alphabet_unique(c, a);
    let n = c.states.len() as int;
    assert forall|p: int| 0 <= p < n implies c.has_state((#[trigger] c.states[p]).index)
        && c.position(c.states[p].index) == p by {
        c.lemma_position(p);
    }
    assert forall|i: int| 0 <= i < m.states.len() implies exists|q: u64|
        reachable(c, q) && #[trigger] cls(q) == (#[trigger] m.states[i]).index by {
        let r = reps[i] as int;
        let q = c.states[r].index;
        assert(reachable(c, q) && cls(q) == i);
    }
    assert forall|p: u64, q: u64| reachable(c, p) && reachable(c, q) implies (cls(p) == cls(q)
        <==> #[trigger] equivalent(c, p, q)) by {
        let kp = c.position(p);
        let kq = c.position(q);
        assert(comp[kp] < reps.len() && comp[kq] < reps.len());
        assert(c.states[kp].index == p && c.states[kq].index == q);
    }
    assert forall|p: u64, r: u64|
        #![trigger reachable(c, p), reachable(c, r)]
        reachable(c, p) && reachable(c, r) && 1 <= cls(r) < cls(p) implies exists|q: u64|
        reachable(c, q) && q < p && #[trigger] cls(q) == cls(r) by {
        let kp = c.position(p);
        let kr = c.position(r);
        assert(c.states[kp].index == p && c.states[kr].index == r);
        let j = comp[kr] as int;
        let i = comp[kp] as int;
        let kq = reps[j] as int;
        let q = c.states[kq].index;
        assert(reps[j] < reps[i]);
        assert(reps[i] <= kp);
        assert(c.states[kq].index < c.states[kp].index);
        assert(reachable(c, q) && q < p && cls(q) == cls(r));
    }
    assert forall|q: u64| #[trigger] reachable(c, q) implies m.states[cls(q) as int].terminal
        == c.state(q).terminal && m.states[cls(q) as int].edges == class_edges(c, a, cls, q) by {
        let k = c.position(q);
        assert(c.states[k].index == q);
        let i = comp[k] as int;
        let r = reps[i] as int;
        let qr = c.states[r].index;
        assert(comp[r] == comp[k]);
        assert(equivalent(c, qr, q));
        let e = Seq::<char>::empty();
        assert(dfa_run(c, qr, e) == dfa_run(c, q, e));
        assert(m.states[i].terminal == c.states[k].terminal);
        assert forall|s: int| 0 <= s < a.len() implies class_row(a, delta[r]@, comp)[s]
            == #[trigger] class_edges(c, a, cls, q)[s] by {
            let tr = delta[r]@[s] as int;
            let tk = delta[k]@[s] as int;
            lemma_equivalent_step(
                c,
                qr,
                q,
                a[s],
                c.states[tr].index,
                c.states[tk].index,
            );
            assert(comp[tr] == comp[tk]);
            assert(successor(c, q, a[s]) == c.states[tk].index);
            assert(cls(c.states[tk].index) == comp[tk] as u64);
        }
        assert(m.states[i].edges =~= class_edges(c, a, cls, q));
    }
    assert forall|q: u64| #[trigger] reachable(c, q) implies c.has_state(q) && cls(q)
        < m.states.len() by {
        let k = c.position(q);
        assert(comp[k] < reps.len());
    }
    assert(reached_in(c, 0, c.start));
    assert(cls(c.start) == 0);
}

/// The minimal automaton has the alphabet of the complete automaton, and a
/// transition on each of its symbols in every state.
proof fn lemma_minimal_alphabet(
    c: AutomatonModel<char>,
    a: Seq<char>,
    m: AutomatonModel<char>,
    cls: spec_fn(u64) -> u64,
)
    requires
        is_alphabet(c, a),
        a == alphabet_of(c),
        quotient_of(c, m, cls),
    ensures
        m.sorted(),
        is_alphabet(m, a),
        alphabet_of(m) == a,
        total(m, a),
{
    assert forall|k: int| 0 <= k < m.states.len() implies (#[trigger] m.states[k]).edges.len()
        == a.len() && forall|s: int|
        0 <= s < a.len() ==> (#[trigger] m.states[k].edges[s]).0 == a[s] by {
        let q = choose|q: u64| reachable(c, q) && #[trigger] cls(q) == m.states[k].index;
        assert(m.states[k].edges == class_edges(c, a, cls, q));
    }
    assert forall|x: char|
        #![trigger a.contains(x)]
        #![trigger dfa_has_symbol(m, x)]
        a.contains(x) <==> dfa_has_symbol(m, x) by {
        if a.contains(x) {
            let s = choose|s: int| 0 <= s < a.len() && a[s] == x;
            assert(m.states[0].edges[s].0 == x);
        }
        if dfa_has_symbol(m, x) {
            let (k, e) = choose|k: int, e: int|
                0 <= k < m.states.len() && 0 <= e < m.states[k].edges.len() && (
                #[trigger] m.states[k].edges[e]).0 == x;
            assert(a[e] == x);
        }
    }
    lemma_alphabet_unique(m, a);
    assert forall|k: int, i: int| 0 <= k < m.states.len() && 0 <= i < a.len() implies has_label(
        (#[trigger] m.states[k]).edges,
        #[trigger] a[i],
    ) by {
        assert(m.states[k].edges[i].0 == a[i]);
    }
}

} // verus!
