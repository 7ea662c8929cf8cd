//! What the conversions of nondeterministic automata keep: compressing and
//! splitting change the automaton and not what it accepts.

use vstd::prelude::*;
use crate::compress::{
    closure_accepts, closure_edges, compressed, compressed_state, eps_free, eps_reached_in,
    in_closure, lemma_closure_edges, lemma_non_eps, non_eps,
};
use crate::error::AutomatonError;
use crate::model::AutomatonModel;
use crate::nfa::{nfa_accepts, nfa_lookup_fails, nfa_outcome, nfa_reached_in, nfa_reaches};
use crate::split::{
    chain, chains_before, chains_in, extra, fresh_base, fresh_before, fresh_in,
    lemma_chains_before, split, split_overflows, split_state,
};

verus! {

/// In an automaton whose transitions all lead to states, a simulation
/// reaches states only.
pub proof fn lemma_reached_state(
    m: AutomatonModel<Seq<char>>,
    w: Seq<char>,
    steps: nat,
    q: u64,
    i: int,
)
    requires
        m.closed(),
        nfa_reached_in(m, w, steps, q, i),
    ensures
        m.has_state(q),
        0 <= i <= w.len(),
{
    if steps > 0 {
        let (p, e) = choose|p: u64, e: int|
            m.has_state(p) && 0 <= e < m.state(p).edges.len() && (#[trigger] m.state(
                p,
            ).edges[e]).1 == q && {
                let l = m.state(p).edges[e].0;
                let j = i - l.len();
                &&& 0 <= j
                &&& i <= w.len()
                &&& w.subrange(j, i) == l
                &&& nfa_reached_in(m, w, (steps - 1) as nat, p, j)
            };
        let k = m.position(p);
        assert(m.has_state(m.states[k].edges[e].1));
    }
}

/// In an automaton whose transitions all lead to states, no simulation
/// fails.
pub proof fn lemma_closed_never_fails(m: AutomatonModel<Seq<char>>, w: Seq<char>)
    requires
        m.closed(),
    ensures
        !nfa_lookup_fails(m, w),
        nfa_outcome(m, w) == Ok::<bool, AutomatonError>(nfa_accepts(m, w)),
{
    assert forall|q: u64, i: int| #[trigger] nfa_reaches(m, w, q, i) implies m.has_state(q) by {
        let steps = choose|steps: nat| nfa_reached_in(m, w, steps, q, i);
        lemma_reached_state(m, w, steps, q, i);
    }
}

/// A transition that is kept without the epsilon transitions was there before.
proof fn lemma_non_eps_from(edges: Seq<(Seq<char>, u64)>, i: int) -> (f: int)
    requires
        0 <= i < non_eps(edges).len(),
    ensures
        0 <= f < edges.len(),
        edges[f] == non_eps(edges)[i],
        edges[f].0.len() > 0,
    decreases edges.len(),
{
    reveal(Seq::filter);
    lemma_non_eps(edges);
    if edges.len() == 0 {
        0
    } else {
        let rest = edges.drop_last();
        if i < non_eps(rest).len() {
            let f = lemma_non_eps_from(rest, i);
            assert(rest[f] == edges[f]);
            f
        } else {
            edges.len() - 1
        }
    }
}

/// A transition that is no epsilon transition is kept.
proof fn lemma_non_eps_has(edges: Seq<(Seq<char>, u64)>, f: int) -> (i: int)
    requires
        0 <= f < edges.len(),
        edges[f].0.len() > 0,
    ensures
        0 <= i < non_eps(edges).len(),
        non_eps(edges)[i] == edges[f],
    decreases edges.len(),
{
    reveal(Seq::filter);
    let rest = edges.drop_last();
    if f < edges.len() - 1 {
        let i = lemma_non_eps_has(rest, f);
        assert(rest[f] == edges[f]);
        i
    } else {
        non_eps(rest).len() as int
    }
}

/// A transition of a closure is a transition, no epsilon transition, of a
/// state of the closure.
proof fn lemma_closure_edge_from(m: AutomatonModel<Seq<char>>, s: u64, upto: int, e: int) -> (r: (
    int,
    int,
))
    requires
        0 <= upto <= m.states.len(),
        0 <= e < closure_edges(m, s, upto).len(),
    ensures
        0 <= r.0 < upto,
        in_closure(m, s, m.states[r.0].index),
        0 <= r.1 < m.states[r.0].edges.len(),
        m.states[r.0].edges[r.1] == closure_edges(m, s, upto)[e],
        m.states[r.0].edges[r.1].0.len() > 0,
    decreases upto,
{
    let before = closure_edges(m, s, upto - 1);
    if e < before.len() {
        let r = lemma_closure_edge_from(m, s, upto - 1, e);
        r
    } else {
        let own = m.states[upto - 1].edges;
        let f = lemma_non_eps_from(own, e - before.len());
        (upto - 1, f)
    }
}

/// A transition, no epsilon transition, of a state of a closure is a
/// transition of the closure.
proof fn lemma_closure_edge_has(
    m: AutomatonModel<Seq<char>>,
    s: u64,
    upto: int,
    k: int,
    f: int,
) -> (e: int)
    requires
        0 <= k < upto <= m.states.len(),
        in_closure(m, s, m.states[k].index),
        0 <= f < m.states[k].edges.len(),
        m.states[k].edges[f].0.len() > 0,
    ensures
        0 <= e < closure_edges(m, s, upto).len(),
        closure_edges(m, s, upto)[e] == m.states[k].edges[f],
    decreases upto,
{
    let before = closure_edges(m, s, upto - 1);
    if k < upto - 1 {
        let e = lemma_closure_edge_has(m, s, upto - 1, k, f);
        e
    } else {
        let i = lemma_non_eps_has(m.states[k].edges, f);
        before.len() + i
    }
}

/// The compressed automaton is sorted, has the states of the automaton
/// under their indices, and is closed where the automaton is.
pub proof fn lemma_compressed_closed(m: AutomatonModel<Seq<char>>)
    requires
        m.sorted(),
    ensures
        compressed(m).sorted(),
        compressed(m).start == m.start,
        forall|idx: u64| #[trigger] compressed(m).has_state(idx) <==> m.has_state(idx),
        forall|k: int|
            0 <= k < m.states.len() ==> #[trigger] compressed(m).states[k] == compressed_state(
                m,
                m.states[k].index,
            ),
        m.closed() ==> compressed(m).closed(),
        eps_free(compressed(m)),
{
    let c = compressed(m);
    let n = m.states.len() as int;
    assert forall|i: int, j: int| 0 <= i < j < c.states.len() implies (#[trigger] c.states[i]).index
        < (#[trigger] c.states[j]).index by {
        assert(m.states[i].index < m.states[j].index);
    }
    assert forall|idx: u64| #[trigger] c.has_state(idx) <==> m.has_state(idx) by {
        if m.has_state(idx) {
            let k = m.position(idx);
            assert(c.states[k].index == idx);
        }
        if c.has_state(idx) {
            let k = c.position(idx);
            assert(m.states[k].index == idx);
        }
    }
    assert forall|k: int, e: int|
        0 <= k < c.states.len() && 0 <= e < c.states[k].edges.len() implies (
    #[trigger] c.states[k].edges[e]).0.len() > 0 by {
        lemma_closure_edges(m, m.states[k].index, n);
    }
    if m.closed() {
        assert forall|k: int, e: int|
            0 <= k < c.states.len() && 0 <= e < c.states[k].edges.len() implies c.has_state(
            (#[trigger] c.states[k].edges[e]).1,
        ) by {
            let r = lemma_closure_edge_from(m, m.states[k].index, n, e);
            assert(m.has_state(m.states[r.0].edges[r.1].1));
        }
    }
}

/// What is reached through epsilon transitions alone is reached at the
/// same input position.
proof fn lemma_eps_walk(
    m: AutomatonModel<Seq<char>>,
    w: Seq<char>,
    steps: nat,
    p: u64,
    q: u64,
    i: int,
)
    requires
        nfa_reaches(m, w, p, i),
        0 <= i <= w.len(),
        eps_reached_in(m, steps, p, q),
    ensures
        nfa_reaches(m, w, q, i),
    decreases steps,
{
    if steps > 0 {
        let (r, e) = choose|r: u64, e: int|
            eps_reached_in(m, (steps - 1) as nat, p, r) && m.has_state(r) && 0 <= e < m.state(
                r,
            ).edges.len() && (#[trigger] m.state(r).edges[e]).1 == q && m.state(
                r,
            ).edges[e].0.len() == 0;
        lemma_eps_walk(m, w, (steps - 1) as nat, p, r, i);
        let k = choose|k: nat| nfa_reached_in(m, w, k, r, i);
        assert(w.subrange(i, i) =~= m.state(r).edges[e].0);
        assert(nfa_reached_in(m, w, k + 1, q, i));
    }
}

/// Closures are closed under epsilon transitions.
proof fn lemma_closure_grows(m: AutomatonModel<Seq<char>>, s: u64, p: u64, e: int)
    requires
        in_closure(m, s, p),
        m.has_state(p),
        0 <= e < m.state(p).edges.len(),
        m.state(p).edges[e].0.len() == 0,
    ensures
        in_closure(m, s, m.state(p).edges[e].1),
{
    let steps = choose|steps: nat| eps_reached_in(m, steps, s, p);
    assert(eps_reached_in(m, steps + 1, s, m.state(p).edges[e].1));
}

/// What the automaton reaches, the compressed automaton reaches up to a
/// closure: it reaches a state whose closure holds the state.
proof fn lemma_compressed_follows(
    m: AutomatonModel<Seq<char>>,
    w: Seq<char>,
    steps: nat,
    q: u64,
    i: int,
) -> (p: u64)
    requires
        m.sorted(),
        m.closed(),
        nfa_reached_in(m, w, steps, q, i),
    ensures
        nfa_reaches(compressed(m), w, p, i),
        in_closure(m, p, q),
        m.has_state(p),
    decreases steps,
{
    let c = compressed(m);
    lemma_compressed_closed(m);
    if steps == 0 {
        assert(nfa_reached_in(c, w, 0, q, 0));
        assert(eps_reached_in(m, 0, q, q));
        q
    } else {
        let (r, e) = choose|r: u64, e: int|
            m.has_state(r) && 0 <= e < m.state(r).edges.len() && (#[trigger] m.state(
                r,
            ).edges[e]).1 == q && {
                let l = m.state(r).edges[e].0;
                let j = i - l.len();
                &&& 0 <= j
                &&& i <= w.len()
                &&& w.subrange(j, i) == l
                &&& nfa_reached_in(m, w, (steps - 1) as nat, r, j)
            };
        let l = m.state(r).edges[e].0;
        let j = i - l.len();
        let p = lemma_compressed_follows(m, w, (steps - 1) as nat, r, j);
        if l.len() == 0 {
            lemma_closure_grows(m, p, r, e);
            p
        } else {
            let kp = m.position(p);
            let kr = m.position(r);
            let x = lemma_closure_edge_has(m, p, m.states.len() as int, kr, e);
            c.lemma_position(kp);
            assert(c.state(p).edges[x] == (l, q));
            let before = choose|before: nat| nfa_reached_in(c, w, before, p, j);
            assert(nfa_reached_in(c, w, before + 1, q, i));
            assert(eps_reached_in(m, 0, q, q));
            q
        }
    }
}

/// What the compressed automaton reaches, the automaton reaches.
proof fn lemma_compressed_leads(
    m: AutomatonModel<Seq<char>>,
    w: Seq<char>,
    steps: nat,
    q: u64,
    i: int,
)
    requires
        m.sorted(),
        m.closed(),
        nfa_reached_in(compressed(m), w, steps, q, i),
    ensures
        nfa_reaches(m, w, q, i),
    decreases steps,
{
    let c = compressed(m);
    lemma_compressed_closed(m);
    if steps == 0 {
        assert(nfa_reached_in(m, w, 0, q, 0));
    } else {
        let (p, e) = choose|p: u64, e: int|
            c.has_state(p) && 0 <= e < c.state(p).edges.len() && (#[trigger] c.state(
                p,
            ).edges[e]).1 == q && {
                let l = c.state(p).edges[e].0;
                let j = i - l.len();
                &&& 0 <= j
                &&& i <= w.len()
                &&& w.subrange(j, i) == l
                &&& nfa_reached_in(c, w, (steps - 1) as nat, p, j)
            };
        let l = c.state(p).edges[e].0;
        let j = i - l.len();
        lemma_compressed_leads(m, w, (steps - 1) as nat, p, j);
        let kp = c.position(p);
        assert(c.states[kp] == compressed_state(m, m.states[kp].index));
        let r = lemma_closure_edge_from(m, p, m.states.len() as int, e);
        let via = m.states[r.0].index;
        m.lemma_position(r.0);
        let k = choose|k: nat| eps_reached_in(m, k, p, via);
        lemma_eps_walk(m, w, k, p, via, j);
        let before = choose|before: nat| nfa_reached_in(m, w, before, via, j);
        assert(m.state(via).edges[r.1] == (l, q));
        assert(nfa_reached_in(m, w, before + 1, q, i));
    }
}

/// Compressing keeps what is accepted: on every input a simulation of the
/// compressed automaton yields what a simulation of the automaton yields,
/// where all transitions of the automaton lead to states.
pub proof fn lemma_compress_keeps_language(m: AutomatonModel<Seq<char>>, w: Seq<char>)
    requires
        m.sorted(),
        m.closed(),
    ensures
        nfa_outcome(compressed(m), w) == nfa_outcome(m, w),
{
    let c = compressed(m);
    lemma_compressed_closed(m);
    lemma_closed_never_fails(m, w);
    lemma_closed_never_fails(c, w);
    if nfa_accepts(m, w) {
        let q = choose|q: u64|
            #[trigger] nfa_reaches(m, w, q, w.len() as int) && m.has_state(q) && m.state(
                q,
            ).terminal;
        let steps = choose|steps: nat| nfa_reached_in(m, w, steps, q, w.len() as int);
        let p = lemma_compressed_follows(m, w, steps, q, w.len() as int);
        let kp = m.position(p);
        c.lemma_position(kp);
        assert(closure_accepts(m, p));
        assert(c.state(p).terminal);
    }
    if nfa_accepts(c, w) {
        let p = choose|p: u64|
            #[trigger] nfa_reaches(c, w, p, w.len() as int) && c.has_state(p) && c.state(
                p,
            ).terminal;
        let steps = choose|steps: nat| nfa_reached_in(c, w, steps, p, w.len() as int);
        lemma_compressed_leads(m, w, steps, p, w.len() as int);
        let kp = c.position(p);
        assert(c.states[kp] == compressed_state(m, m.states[kp].index));
        assert(closure_accepts(m, p));
        let q = choose|q: u64| #[trigger] in_closure(m, p, q) && m.has_state(q) && m.state(
            q,
        ).terminal;
        let k = choose|k: nat| eps_reached_in(m, k, p, q);
        lemma_eps_walk(m, w, k, p, q, w.len() as int);
    }
}

/// The index of the first fresh state of the transition `e` of the state
/// at position `k`.
pub open spec fn first_of(c: AutomatonModel<Seq<char>>, k: int, e: int) -> int {
    fresh_base(c) + fresh_before(c, k) + fresh_in(c.states[k].edges, e)
}

/// The fresh states of some transitions are as many as these take.
proof fn lemma_chains_in_len(edges: Seq<(Seq<char>, u64)>, first: int, upto: int)
    requires
        0 <= upto <= edges.len(),
    ensures
        chains_in(edges, first, upto).len() == fresh_in(edges, upto),
        fresh_in(edges, upto) >= 0,
    decreases upto,
{
    if upto > 0 {
        lemma_chains_in_len(edges, first, upto - 1);
    }
}

/// The fresh states of some states are as many as their transitions take.
proof fn lemma_chains_before_len(c: AutomatonModel<Seq<char>>, base: int, upto: int)
    requires
        0 <= upto <= c.states.len(),
    ensures
        chains_before(c, base, upto).len() == fresh_before(c, upto),
        fresh_before(c, upto) >= 0,
    decreases upto,
{
    if upto > 0 {
        lemma_chains_before_len(c, base, upto - 1);
        lemma_chains_in_len(
            c.states[upto - 1].edges,
            base + fresh_before(c, upto - 1),
            c.states[upto - 1].edges.len() as int,
        );
    }
}

/// Where the fresh state `x` of the transition `e` stands among the fresh
/// states of some transitions.
proof fn lemma_chains_in_at(edges: Seq<(Seq<char>, u64)>, first: int, upto: int, e: int, x: int)
    requires
        0 <= e < upto <= edges.len(),
        0 <= x < extra(edges[e].0),
    ensures
        0 <= fresh_in(edges, e) + x < fresh_in(edges, upto),
        fresh_in(edges, upto) == chains_in(edges, first, upto).len(),
        chains_in(edges, first, upto)[fresh_in(edges, e) + x] == chain(
            edges[e],
            first + fresh_in(edges, e),
        )[x],
    decreases upto,
{
    lemma_chains_in_len(edges, first, upto);
    lemma_chains_in_len(edges, first, upto - 1);
    lemma_chains_in_len(edges, first, e);
    if e < upto - 1 {
        lemma_chains_in_at(edges, first, upto - 1, e, x);
    }
}

/// Where the fresh states of the state at position `k` stand among the
/// fresh states of some states.
proof fn lemma_chains_before_at(c: AutomatonModel<Seq<char>>, base: int, upto: int, k: int, y: int)
    requires
        0 <= k < upto <= c.states.len(),
        0 <= y < fresh_in(c.states[k].edges, c.states[k].edges.len() as int),
    ensures
        0 <= fresh_before(c, k) + y < fresh_before(c, upto),
        fresh_before(c, upto) == chains_before(c, base, upto).len(),
        chains_before(c, base, upto)[fresh_before(c, k) + y] == chains_in(
            c.states[k].edges,
            base + fresh_before(c, k),
            c.states[k].edges.len() as int,
        )[y],
    decreases upto,
{
    lemma_chains_before_len(c, base, upto);
    lemma_chains_before_len(c, base, upto - 1);
    lemma_chains_before_len(c, base, k);
    lemma_chains_in_len(
        c.states[upto - 1].edges,
        base + fresh_before(c, upto - 1),
        c.states[upto - 1].edges.len() as int,
    );
    if k < upto - 1 {
        lemma_chains_before_at(c, base, upto - 1, k, y);
    } else {
        lemma_chains_in_len(
            c.states[k].edges,
            base + fresh_before(c, k),
            c.states[k].edges.len() as int,
        );
    }
}

/// The automaton can be split: it has a state, it is sorted, and its fresh
/// states all have an index.
pub open spec fn splits(c: AutomatonModel<Seq<char>>) -> bool {
    &&& c.sorted()
    &&& c.states.len() > 0
    &&& !split_overflows(c)
}

/// The split automaton is sorted and holds the states of the automaton at
/// their positions.
pub proof fn lemma_split_sorted(c: AutomatonModel<Seq<char>>)
    requires
        splits(c),
    ensures
        split(c).sorted(),
        split(c).start == c.start,
        split(c).states.len() == c.states.len() + fresh_before(c, c.states.len() as int),
        forall|k: int|
            0 <= k < c.states.len() ==> #[trigger] split(c).states[k] == split_state(c, k),
        forall|idx: u64| c.has_state(idx) ==> #[trigger] split(c).has_state(idx),
{
    let s = split(c);
    let n = c.states.len() as int;
    let base = fresh_base(c);
    lemma_chains_before_len(c, base, n);
    if fresh_before(c, n) > 0 {
        lemma_chains_before(c, base, n);
    }
    assert forall|i: int, j: int| 0 <= i < j < s.states.len() implies (#[trigger] s.states[i]).index
        < (#[trigger] s.states[j]).index by {
        if j < n {
            assert(c.states[i].index < c.states[j].index);
        } else if i < n {
            if i < n - 1 {
                assert(c.states[i].index < c.states[n - 1].index);
            }
            assert(s.states[j] == chains_before(c, base, n)[j - n]);
        } else {
            assert(s.states[j] == chains_before(c, base, n)[j - n]);
            assert(s.states[i] == chains_before(c, base, n)[i - n]);
        }
    }
    assert forall|idx: u64| c.has_state(idx) implies #[trigger] s.has_state(idx) by {
        let k = c.position(idx);
        assert(s.states[k].index == idx);
    }
}

/// The fresh state `x` of the transition `e` of the state at position `k`
/// is a state of the split automaton, under the index that follows the
/// index of the first one by `x`.
proof fn lemma_chain_state(c: AutomatonModel<Seq<char>>, k: int, e: int, x: int)
    requires
        splits(c),
        0 <= k < c.states.len(),
        0 <= e < c.states[k].edges.len(),
        0 <= x < extra(c.states[k].edges[e].0),
    ensures
        fresh_base(c) <= first_of(c, k, e) + x <= u64::MAX,
        split(c).has_state((first_of(c, k, e) + x) as u64),
        split(c).state((first_of(c, k, e) + x) as u64) == chain(
            c.states[k].edges[e],
            first_of(c, k, e),
        )[x],
        !c.has_state((first_of(c, k, e) + x) as u64),
{
    let s = split(c);
    let n = c.states.len() as int;
    let base = fresh_base(c);
    let edges = c.states[k].edges;
    lemma_split_sorted(c);
    lemma_chains_in_at(edges, base + fresh_before(c, k), edges.len() as int, e, x);
    let y = fresh_in(edges, e) + x;
    lemma_chains_before_at(c, base, n, k, y);
    let pos = n + fresh_before(c, k) + y;
    lemma_chains_before(c, base, n);
    assert(s.states[pos] == chains_before(c, base, n)[pos - n]);
    assert(s.states[pos] == chain(edges[e], first_of(c, k, e))[x]);
    s.lemma_position(pos);
    if c.has_state((first_of(c, k, e) + x) as u64) {
        let j = c.position((first_of(c, k, e) + x) as u64);
        if j < n - 1 {
            assert(c.states[j].index < c.states[n - 1].index);
        }
    }
}

/// The split automaton walks through the chain of a transition whose label
/// stands in the input: it reaches every fresh state of the chain, each one
/// character further.
proof fn lemma_chain_walk(
    c: AutomatonModel<Seq<char>>,
    w: Seq<char>,
    k: int,
    e: int,
    j: int,
    x: int,
)
    requires
        splits(c),
        0 <= k < c.states.len(),
        0 <= e < c.states[k].edges.len(),
        0 <= x < extra(c.states[k].edges[e].0),
        0 <= j,
        j + c.states[k].edges[e].0.len() <= w.len(),
        w.subrange(j, j + c.states[k].edges[e].0.len()) == c.states[k].edges[e].0,
        nfa_reaches(split(c), w, c.states[k].index, j),
    ensures
        nfa_reaches(split(c), w, (first_of(c, k, e) + x) as u64, j + 1 + x),
    decreases x,
{
    let s = split(c);
    let l = c.states[k].edges[e].0;
    let f = first_of(c, k, e);
    lemma_split_sorted(c);
    lemma_chain_state(c, k, e, x);
    if x == 0 {
        let p = c.states[k].index;
        s.lemma_position(k);
        assert(s.state(p) == split_state(c, k));
        assert(s.state(p).edges[e] == (seq![l[0]], f as u64));
        let steps = choose|steps: nat| nfa_reached_in(s, w, steps, p, j);
        assert(w.subrange(j, j + 1) =~= seq![l[0]]) by {
            assert(w.subrange(j, j + l.len())[0] == l[0]);
        }
        assert(nfa_reached_in(s, w, steps + 1, f as u64, j + 1));
    } else {
        lemma_chain_walk(c, w, k, e, j, x - 1);
        lemma_chain_state(c, k, e, x - 1);
        let p = (f + x - 1) as u64;
        assert(s.state(p).edges[0] == (seq![l[x]], (f + x) as u64));
        let jx = j + x;
        let steps = choose|steps: nat| nfa_reached_in(s, w, steps, p, jx);
        assert(w.subrange(j + x, j + x + 1) =~= seq![l[x]]) by {
            assert(w.subrange(j, j + l.len())[x] == l[x]);
        }
        assert(nfa_reached_in(s, w, steps + 1, (f + x) as u64, j + 1 + x));
    }
}

/// What the automaton reaches, the split automaton reaches.
proof fn lemma_split_follows(
    c: AutomatonModel<Seq<char>>,
    w: Seq<char>,
    steps: nat,
    q: u64,
    i: int,
)
    requires
        splits(c),
        c.closed(),
        eps_free(c),
        nfa_reached_in(c, w, steps, q, i),
    ensures
        nfa_reaches(split(c), w, q, i),
    decreases steps,
{
    let s = split(c);
    lemma_split_sorted(c);
    if steps == 0 {
        assert(nfa_reached_in(s, w, 0, q, 0));
    } else {
        let (p, e) = choose|p: u64, e: int|
            c.has_state(p) && 0 <= e < c.state(p).edges.len() && (#[trigger] c.state(
                p,
            ).edges[e]).1 == q && {
                let l = c.state(p).edges[e].0;
                let j = i - l.len();
                &&& 0 <= j
                &&& i <= w.len()
                &&& w.subrange(j, i) == l
                &&& nfa_reached_in(c, w, (steps - 1) as nat, p, j)
            };
        let l = c.state(p).edges[e].0;
        let j = i - l.len();
        lemma_split_follows(c, w, (steps - 1) as nat, p, j);
        let k = c.position(p);
        c.lemma_position(k);
        s.lemma_position(k);
        assert(s.state(p) == split_state(c, k));
        assert(c.states[k].edges[e].0.len() > 0);
        if l.len() == 1 {
            assert(s.state(p).edges[e] == (l, q));
            let before = choose|before: nat| nfa_reached_in(s, w, before, p, j);
            assert(nfa_reached_in(s, w, before + 1, q, i));
        } else {
            let x = l.len() - 2;
            lemma_chain_walk(c, w, k, e, j, x);
            lemma_chain_state(c, k, e, x);
            let f = first_of(c, k, e);
            let r = (f + x) as u64;
            assert(s.state(r).edges[0] == (seq![l[x + 1]], q));
            let jx = j + 1 + x;
            let before = choose|before: nat| nfa_reached_in(s, w, before, r, jx);
            assert(w.subrange(i - 1, i) =~= seq![l[x + 1]]) by {
                assert(w.subrange(j, i)[x + 1] == l[x + 1]);
            }
            assert(nfa_reached_in(s, w, before + 1, q, i));
        }
    }
}

/// The input position `i` in the fresh state `x` of the transition `e` of
/// the state at position `k`: the automaton reaches that state where the
/// label begins, and the input holds the label up to its character `x`.
pub open spec fn in_chain(
    c: AutomatonModel<Seq<char>>,
    w: Seq<char>,
    u: u64,
    i: int,
    k: int,
    e: int,
    x: int,
) -> bool {
    &&& 0 <= k < c.states.len()
    &&& 0 <= e < c.states[k].edges.len()
    &&& 0 <= x < extra(c.states[k].edges[e].0)
    &&& u == first_of(c, k, e) + x
    &&& 0 <= i - (x + 1)
    &&& i <= w.len()
    &&& nfa_reaches(c, w, c.states[k].index, i - (x + 1))
    &&& w.subrange(i - (x + 1), i) == c.states[k].edges[e].0.take(x + 1)
}

/// The split automaton is in a state that the automaton reaches, or in a
/// fresh state of a transition that the automaton is about to take.
pub open spec fn tracked_by(
    c: AutomatonModel<Seq<char>>,
    w: Seq<char>,
    u: u64,
    i: int,
    r: Option<(int, int, int)>,
) -> bool {
    match r {
        None => c.has_state(u) && nfa_reaches(c, w, u, i),
        Some(t) => in_chain(c, w, u, i, t.0, t.1, t.2),
    }
}

/// A move of the split automaton out of a state of the automaton.
proof fn lemma_leave_state(
    c: AutomatonModel<Seq<char>>,
    w: Seq<char>,
    k: int,
    e: int,
    j: int,
    i: int,
    u: u64,
) -> (r: Option<(int, int, int)>)
    requires
        splits(c),
        c.closed(),
        eps_free(c),
        0 <= k < c.states.len(),
        0 <= e < c.states[k].edges.len(),
        nfa_reaches(c, w, c.states[k].index, j),
        0 <= j,
        i <= w.len(),
        split_state(c, k).edges[e].1 == u,
        i == j + split_state(c, k).edges[e].0.len(),
        w.subrange(j, i) == split_state(c, k).edges[e].0,
    ensures
        tracked_by(c, w, u, i, r),
{
    let p = c.states[k].index;
    c.lemma_position(k);
    let l = c.states[k].edges[e].0;
    let t = c.states[k].edges[e].1;
    assert(l.len() > 0);
    let at = choose|at: nat| nfa_reached_in(c, w, at, p, j);
    if l.len() > 1 {
        assert(split_state(c, k).edges[e] == (seq![l[0]], first_of(c, k, e) as u64));
        lemma_chain_state(c, k, e, 0);
        assert(l.take(1) =~= seq![l[0]]);
        Some((k, e, 0))
    } else {
        assert(split_state(c, k).edges[e] == (l, t));
        assert(c.state(p).edges[e] == (l, u));
        assert(nfa_reached_in(c, w, at + 1, u, i));
        assert(c.has_state(c.states[k].edges[e].1));
        None
    }
}

/// A move of the split automaton out of a fresh state.
proof fn lemma_leave_chain(
    c: AutomatonModel<Seq<char>>,
    w: Seq<char>,
    p: u64,
    k: int,
    f: int,
    x: int,
    j: int,
    i: int,
    u: u64,
) -> (r: Option<(int, int, int)>)
    requires
        splits(c),
        c.closed(),
        eps_free(c),
        in_chain(c, w, p, j, k, f, x),
        i == j + 1,
        i <= w.len(),
        chain(c.states[k].edges[f], first_of(c, k, f))[x].edges[0].1 == u,
        w.subrange(j, i) == chain(c.states[k].edges[f], first_of(c, k, f))[x].edges[0].0,
    ensures
        tracked_by(c, w, u, i, r),
{
    let l = c.states[k].edges[f].0;
    let t = c.states[k].edges[f].1;
    let first = first_of(c, k, f);
    let src = c.states[k].index;
    c.lemma_position(k);
    let head = w.subrange(j - (x + 1), j);
    let tail = w.subrange(j, i);
    assert(head == l.take(x + 1));
    assert(tail == seq![l[x + 1]]);
    if x + 2 == l.len() {
        assert(u == t);
        let whole = w.subrange(j - (x + 1), i);
        assert(whole =~= l) by {
            assert forall|y: int| 0 <= y < l.len() implies #[trigger] whole[y] == l[y] by {
                if y <= x {
                    assert(head[y] == l.take(x + 1)[y]);
                } else {
                    assert(tail[0] == l[x + 1]);
                }
            }
        }
        let jx = j - (x + 1);
        let at = choose|at: nat| nfa_reached_in(c, w, at, src, jx);
        assert(c.state(src).edges[f] == (l, u));
        assert(nfa_reached_in(c, w, at + 1, u, i));
        assert(c.has_state(c.states[k].edges[f].1));
        None
    } else {
        lemma_chain_state(c, k, f, x + 1);
        assert(u == first + x + 1);
        let whole = w.subrange(i - (x + 2), i);
        let want = l.take(x + 2);
        assert(whole =~= want) by {
            assert forall|y: int| 0 <= y < want.len() implies #[trigger] whole[y] == want[y] by {
                if y <= x {
                    assert(head[y] == l.take(x + 1)[y]);
                } else {
                    assert(tail[0] == l[x + 1]);
                }
            }
        }
        Some((k, f, x + 1))
    }
}

/// What the split automaton reaches is a state that the automaton
/// reaches, or a fresh state of a transition that the automaton is about to
/// take.
proof fn lemma_split_leads(
    c: AutomatonModel<Seq<char>>,
    w: Seq<char>,
    steps: nat,
    u: u64,
    i: int,
) -> (r: Option<(int, int, int)>)
    requires
        splits(c),
        c.closed(),
        eps_free(c),
        nfa_reached_in(split(c), w, steps, u, i),
    ensures
        tracked_by(c, w, u, i, r),
    decreases steps,
{
    let s = split(c);
    lemma_split_sorted(c);
    if steps == 0 {
        assert(nfa_reached_in(c, w, 0, u, 0));
        None
    } else {
        let (p, e) = choose|p: u64, e: int|
            s.has_state(p) && 0 <= e < s.state(p).edges.len() && (#[trigger] s.state(
                p,
            ).edges[e]).1 == u && {
                let l = s.state(p).edges[e].0;
                let j = i - l.len();
                &&& 0 <= j
                &&& i <= w.len()
                &&& w.subrange(j, i) == l
                &&& nfa_reached_in(s, w, (steps - 1) as nat, p, j)
            };
        let ls = s.state(p).edges[e].0;
        let j = i - ls.len();
        let before = lemma_split_leads(c, w, (steps - 1) as nat, p, j);
        match before {
            None => {
                let k = c.position(p);
                c.lemma_position(k);
                s.lemma_position(k);
                assert(s.state(p) == split_state(c, k));
                lemma_leave_state(c, w, k, e, j, i, u)
            },
            Some(tr) => {
                let (k, f, x) = tr;
                lemma_chain_state(c, k, f, x);
                assert(s.state(p) == chain(c.states[k].edges[f], first_of(c, k, f))[x]);
                assert(e == 0);
                lemma_leave_chain(c, w, p, k, f, x, j, i, u)
            },
        }
    }
}

/// Splitting keeps what is accepted: on every input a simulation of the
/// split automaton yields what a simulation of the automaton yields, where
/// the automaton has no epsilon transition and all its transitions lead to
/// states.
pub proof fn lemma_split_keeps_language(c: AutomatonModel<Seq<char>>, w: Seq<char>)
    requires
        splits(c),
        c.closed(),
        eps_free(c),
    ensures
        nfa_outcome(split(c), w) == nfa_outcome(c, w),
{
    let s = split(c);
    lemma_split_sorted(c);
    lemma_closed_never_fails(c, w);
    assert forall|q: u64, i: int| #[trigger] nfa_reaches(s, w, q, i) implies s.has_state(q) by {
        let steps = choose|steps: nat| nfa_reached_in(s, w, steps, q, i);
        let r = lemma_split_leads(c, w, steps, q, i);
        match r {
            None => {},
            Some(t) => {
                lemma_chain_state(c, t.0, t.1, t.2);
            },
        }
    }
    if nfa_accepts(c, w) {
        let q = choose|q: u64|
            #[trigger] nfa_reaches(c, w, q, w.len() as int) && c.has_state(q) && c.state(
                q,
            ).terminal;
        let steps = choose|steps: nat| nfa_reached_in(c, w, steps, q, w.len() as int);
        lemma_split_follows(c, w, steps, q, w.len() as int);
        let k = c.position(q);
        c.lemma_position(k);
        s.lemma_position(k);
        assert(s.state(q) == split_state(c, k));
    }
    if nfa_accepts(s, w) {
        let q = choose|q: u64|
            #[trigger] nfa_reaches(s, w, q, w.len() as int) && s.has_state(q) && s.state(
                q,
            ).terminal;
        let steps = choose|steps: nat| nfa_reached_in(s, w, steps, q, w.len() as int);
        let r = lemma_split_leads(c, w, steps, q, w.len() as int);
        match r {
            None => {
                let k = c.position(q);
                c.lemma_position(k);
                s.lemma_position(k);
                assert(s.state(q) == split_state(c, k));
            },
            Some(t) => {
                lemma_chain_state(c, t.0, t.1, t.2);
            },
        }
    }
}

/// Compressing and then splitting keeps what is accepted: for every input
/// the automaton with single-character transitions yields what the
/// automaton yields, where all transitions of the automaton lead to states.
pub proof fn lemma_split_words_keeps_language(m: AutomatonModel<Seq<char>>, w: Seq<char>)
    requires
        m.sorted(),
        m.closed(),
        !split_overflows(compressed(m)),
    ensures
        nfa_outcome(split(compressed(m)), w) == nfa_outcome(m, w),
{
    let c = compressed(m);
    lemma_compressed_closed(m);
    lemma_compress_keeps_language(m, w);
    assert(0 <= m.position(m.start) < m.states.len());
    assert(c.states.len() == m.states.len());
    lemma_split_keeps_language(c, w);
}

/// No label of `m` holds a parenthesis.
pub open spec fn plain(m: AutomatonModel<Seq<char>>) -> bool {
    forall|k: int, e: int, i: int|
        0 <= k < m.states.len() && 0 <= e < m.states[k].edges.len() && 0 <= i
            < m.states[k].edges[e].0.len() ==> (#[trigger] m.states[k].edges[e].0[i]) != '('
            && m.states[k].edges[e].0[i] != ')'
}

/// Compressing brings no parenthesis into the labels.
pub proof fn lemma_compressed_plain(m: AutomatonModel<Seq<char>>)
    requires
        plain(m),
    ensures
        plain(compressed(m)),
{
    let c = compressed(m);
    assert forall|k: int, e: int, i: int|
        0 <= k < c.states.len() && 0 <= e < c.states[k].edges.len() && 0 <= i
            < c.states[k].edges[e].0.len() implies (#[trigger] c.states[k].edges[e].0[i]) != '('
        && c.states[k].edges[e].0[i] != ')' by {
        let r = lemma_closure_edge_from(m, m.states[k].index, m.states.len() as int, e);
        assert(m.states[r.0].edges[r.1].0[i] != '(' && m.states[r.0].edges[r.1].0[i] != ')');
    }
}

/// A fresh state among those of some transitions is a state of the chain
/// of one of them.
proof fn lemma_chains_in_from(edges: Seq<(Seq<char>, u64)>, first: int, upto: int, y: int) -> (r:
    (int, int))
    requires
        0 <= upto <= edges.len(),
        0 <= y < chains_in(edges, first, upto).len(),
    ensures
        0 <= r.0 < upto,
        0 <= r.1 < extra(edges[r.0].0),
        chains_in(edges, first, upto)[y] == chain(edges[r.0], first + fresh_in(edges, r.0))[r.1],
    decreases upto,
{
    let before = chains_in(edges, first, upto - 1);
    if y < before.len() {
        lemma_chains_in_from(edges, first, upto - 1, y)
    } else {
        (upto - 1, y - before.len())
    }
}

/// A fresh state among those of some states is a state of the chain of one
/// of their transitions.
proof fn lemma_chains_before_from(c: AutomatonModel<Seq<char>>, base: int, upto: int, y: int) -> (r:
    (int, int, int))
    requires
        0 <= upto <= c.states.len(),
        0 <= y < chains_before(c, base, upto).len(),
    ensures
        0 <= r.0 < upto,
        0 <= r.1 < c.states[r.0].edges.len(),
        0 <= r.2 < extra(c.states[r.0].edges[r.1].0),
        chains_before(c, base, upto)[y] == chain(
            c.states[r.0].edges[r.1],
            base + fresh_before(c, r.0) + fresh_in(c.states[r.0].edges, r.1),
        )[r.2],
    decreases upto,
{
    let before = chains_before(c, base, upto - 1);
    if y < before.len() {
        lemma_chains_before_from(c, base, upto - 1, y)
    } else {
        let edges = c.states[upto - 1].edges;
        let t = lemma_chains_in_from(
            edges,
            base + fresh_before(c, upto - 1),
            edges.len() as int,
            y - before.len(),
        );
        (upto - 1, t.0, t.1)
    }
}

/// Splitting brings no parenthesis into the labels, and leaves labels of
/// one character only where the automaton has no epsilon transition.
pub proof fn lemma_split_plain(c: AutomatonModel<Seq<char>>)
    requires
        plain(c),
        eps_free(c),
    ensures
        plain(split(c)),
        forall|k: int, e: int|
            0 <= k < split(c).states.len() && 0 <= e < split(c).states[k].edges.len() ==> (
            #[trigger] split(c).states[k].edges[e]).0.len() == 1,
{
    let s = split(c);
    let n = c.states.len() as int;
    assert forall|k: int, e: int|
        0 <= k < s.states.len() && 0 <= e < s.states[k].edges.len() implies (
    #[trigger] s.states[k].edges[e]).0.len() == 1 && forall|i: int|
        0 <= i < s.states[k].edges[e].0.len() ==> s.states[k].edges[e].0[i] != '('
            && s.states[k].edges[e].0[i] != ')' by {
        if k < n {
            let l = c.states[k].edges[e].0;
            assert(l.len() > 0);
            assert(l[0] != '(' && l[0] != ')');
        } else {
            let r = lemma_chains_before_from(c, fresh_base(c), n, k - n);
            let l = c.states[r.0].edges[r.1].0;
            assert(l[r.2 + 1] != '(' && l[r.2 + 1] != ')');
        }
    }
    assert forall|k: int, e: int, i: int|
        0 <= k < s.states.len() && 0 <= e < s.states[k].edges.len() && 0 <= i
            < s.states[k].edges[e].0.len() implies (#[trigger] s.states[k].edges[e].0[i]) != '('
        && s.states[k].edges[e].0[i] != ')' by {
        assert(s.states[k].edges[e].0.len() == 1);
    }
}

} // verus!
