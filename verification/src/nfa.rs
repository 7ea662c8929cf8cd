//! Nondeterministic automata: states joined by transitions whose labels
//! consume a prefix of the remaining input, the empty prefix too.

use vstd::prelude::*;
use vstd::string::*;
use crate::automaton::Automaton;
use crate::error::AutomatonError;
use crate::marks::{blank_row, lemma_mark_in, unmarked_in};
use crate::model::{AutomatonModel, StateModel};
use crate::state::{lemma_moves_step, moves_on, State, Traversable};

verus! {

/// The transitions `t` with the text of each label in place of the label.
pub open spec fn label_texts<T: Traversable>(t: Seq<(T, u64)>) -> Seq<(Seq<char>, u64)> {
    t.map_values(|e: (T, u64)| (e.0.text(), e.1))
}

/// A state of a nondeterministic automaton.
#[derive(Clone, Debug)]
pub struct NfaState<T: Traversable> {
    pub index: u64,
    pub is_terminal: bool,
    pub transitions: Vec<(T, u64)>,
}

impl<T: Traversable> View for NfaState<T> {
    type V = StateModel<Seq<char>>;

    open spec fn view(&self) -> StateModel<Seq<char>> {
        StateModel {
            index: self.index,
            terminal: self.is_terminal,
            edges: label_texts(self.transitions@),
        }
    }
}

impl<T: Traversable> NfaState<T> {
    /// A state without transitions.
    pub fn new(index: u64, is_terminal: bool) -> (s: Self)
        ensures
            s@ == (StateModel::<Seq<char>> { index, terminal: is_terminal, edges: Seq::empty() }),
    {
        let s = NfaState { index, is_terminal, transitions: Vec::new() };
        assert(s@.edges =~= Seq::empty());
        s
    }

    /// Adds a transition with the label `word` to the state with index
    /// `next_state`, after the transitions that are there.
    pub fn add_transition(&mut self, word: T, next_state: u64)
        ensures
            final(self)@ == (StateModel::<Seq<char>> {
                edges: old(self)@.edges.push((word.text(), next_state)),
                ..old(self)@
            }),
    {
        self.transitions.push((word, next_state));
        assert(self@.edges =~= old(self)@.edges.push((word.text(), next_state)));
    }
}

impl<T: Traversable> State for NfaState<T> {
    open spec fn offers(&self) -> Seq<(Seq<char>, u64)> {
        self@.edges
    }

    fn next(&self, input: &str) -> (r: Vec<(u64, String)>) {
        let mut r: Vec<(u64, String)> = Vec::new();
        let ghost edges = self@.edges;
        let mut k: usize = 0;
        assert(moves_on(edges.take(0), input@) =~= Seq::empty()) by {
            reveal(Seq::filter);
        }
        while k < self.transitions.len()
            invariant
                edges == self@.edges,
                k <= self.transitions@.len(),
                r@.len() == moves_on(edges.take(k as int), input@).len(),
                forall|j: int|
                    0 <= j < r@.len() ==> (#[trigger] r@[j]).0 == moves_on(
                        edges.take(k as int),
                        input@,
                    )[j].0 && r@[j].1@ == moves_on(edges.take(k as int), input@)[j].1,
            decreases self.transitions@.len() - k,
        {
            proof {
                lemma_moves_step(edges, input@, k as int);
            }
            let ghost l = self.transitions@[k as int].0.text();
            assert(edges[k as int] == (l, self.transitions@[k as int].1));
            match self.transitions[k].0.go(input) {
                Some(rest) => {
                    assert(l.is_prefix_of(input@)) by {
                        assert(input@.subrange(0, l.len() as int) =~= l);
                    }
                    assert(input@.skip(l.len() as int) =~= rest@);
                    r.push((self.transitions[k].1, String::from_str(rest)));
                },
                None => {},
            }
            k += 1;
        }
        assert(edges.take(k as int) =~= edges);
        r
    }
}

/// The state with index `q` and the input position `i` are reached from the
/// start of `m` at position 0 in `steps` moves over the input `w`; each move
/// follows a transition out of a state of `m` whose label stands in `w` at
/// the position where the move begins.
pub open spec fn nfa_reached_in(
    m: AutomatonModel<Seq<char>>,
    w: Seq<char>,
    steps: nat,
    q: u64,
    i: int,
) -> bool
    decreases steps,
{
    if steps == 0 {
        q == m.start && i == 0
    } else {
        exists|p: u64, e: int|
            m.has_state(p) && 0 <= e < m.state(p).edges.len() && (#[trigger] m.state(
                p,
            ).edges[e]).1 == q && {
                let l = m.state(p).edges[e].0;
                let j = i - l.len();
                &&& 0 <= j
                &&& i <= w.len()
                &&& w.subrange(j, i) == l
                &&& nfa_reached_in(m, w, (steps - 1) as nat, p, j)
            }
    }
}

/// The state with index `q` and the input position `i` are reached over `w`.
pub open spec fn nfa_reaches(m: AutomatonModel<Seq<char>>, w: Seq<char>, q: u64, i: int) -> bool {
    exists|steps: nat| nfa_reached_in(m, w, steps, q, i)
}

/// A simulation over `w` reaches an index that names no state.
pub open spec fn nfa_lookup_fails(m: AutomatonModel<Seq<char>>, w: Seq<char>) -> bool {
    exists|q: u64, i: int| #[trigger] nfa_reaches(m, w, q, i) && !m.has_state(q)
}

/// A simulation over `w` reaches an accepting state at the end of `w`.
pub open spec fn nfa_accepts(m: AutomatonModel<Seq<char>>, w: Seq<char>) -> bool {
    exists|q: u64|
        #[trigger] nfa_reaches(m, w, q, w.len() as int) && m.has_state(q) && m.state(q).terminal
}

/// What a simulation over `w` yields.
pub open spec fn nfa_outcome(m: AutomatonModel<Seq<char>>, w: Seq<char>) -> Result<
    bool,
    AutomatonError,
> {
    if nfa_lookup_fails(m, w) {
        Err(AutomatonError::LookupError)
    } else {
        Ok(nfa_accepts(m, w))
    }
}

/// A nondeterministic automaton: a start index and states with distinct indices.
#[derive(Clone, Debug)]
pub struct Nfa<T: Traversable> {
    starting_state: u64,
    states: Vec<NfaState<T>>,
}

impl<T: Traversable> View for Nfa<T> {
    type V = AutomatonModel<Seq<char>>;

    closed spec fn view(&self) -> AutomatonModel<Seq<char>> {
        AutomatonModel {
            start: self.starting_state,
            states: self.states@.map_values(|s: NfaState<T>| s@),
        }
    }
}

impl<T: Traversable> Nfa<T> {
    /// The states are held in strictly ascending order of index.
    pub open spec fn ordered(&self) -> bool {
        self@.sorted()
    }

    /// An automaton without states that starts at `starting_state`.
    pub fn new(starting_state: u64) -> (d: Self)
        ensures
            d.ordered(),
            d@ == (AutomatonModel::<Seq<char>> { start: starting_state, states: Seq::empty() }),
    {
        let d = Nfa { starting_state, states: Vec::new() };
        assert(d@.states =~= Seq::empty());
        d
    }

    /// The automaton with the start index `starting_state` and the states
    /// `states`, which stand in ascending order of index.
    pub fn from_states(starting_state: u64, states: Vec<NfaState<T>>) -> (d: Self)
        requires
            forall|i: int, j: int|
                0 <= i < j < states@.len() ==> (#[trigger] states@[i]).index < (
                #[trigger] states@[j]).index,
        ensures
            d.ordered(),
            d@ == (AutomatonModel::<Seq<char>> {
                start: starting_state,
                states: states@.map_values(|s: NfaState<T>| s@),
            }),
    {
        Nfa { starting_state, states }
    }

    /// The index of the state in which a simulation starts.
    pub fn starting_state(&self) -> (q: u64)
        ensures
            q == self@.start,
    {
        self.starting_state
    }

    /// The states, in ascending order of index.
    pub fn states(&self) -> (s: &Vec<NfaState<T>>)
        ensures
            s@.len() == self@.states.len(),
            forall|k: int| 0 <= k < s@.len() ==> (#[trigger] s@[k])@ == self@.states[k],
    {
        &self.states
    }

    /// The number of states with an index below `index`.
    fn lower_bound(&self, index: u64) -> (p: usize)
        requires
            self.ordered(),
        ensures
            p <= self@.states.len(),
            forall|k: int| 0 <= k < p ==> (#[trigger] self@.states[k]).index < index,
            forall|k: int| p <= k < self@.states.len() ==> (#[trigger] self@.states[k]).index >= index,
    {
        let mut lo: usize = 0;
        let mut hi: usize = self.states.len();
        while lo < hi
            invariant
                self.ordered(),
                lo <= hi <= self.states@.len(),
                forall|k: int| 0 <= k < lo ==> (#[trigger] self@.states[k]).index < index,
                forall|k: int| hi <= k < self@.states.len() ==> (#[trigger] self@.states[k]).index >= index,
            decreases hi - lo,
        {
            let mid = lo + (hi - lo) / 2;
            assert(self@.states[mid as int].index == self.states@[mid as int].index);
            if self.states[mid].index < index {
                assert forall|k: int| 0 <= k < mid + 1 implies (#[trigger] self@.states[k]).index < index by {
                    if k < mid {
                        assert(self@.states[k].index < self@.states[mid as int].index);
                    }
                }
                lo = mid + 1;
            } else {
                assert forall|k: int| mid <= k < self@.states.len() implies (#[trigger] self@.states[k]).index >= index by {
                    if k > mid {
                        assert(self@.states[mid as int].index < self@.states[k].index);
                    }
                }
                hi = mid;
            }
        }
        lo
    }

    /// Where the state with index `index` stands among the states, if there is one.
    pub fn find(&self, index: u64) -> (r: Option<usize>)
        requires
            self.ordered(),
        ensures
            match r {
                Some(k) => k < self@.states.len() && self@.states[k as int].index == index
                    && self@.has_state(index) && self@.position(index) == k,
                None => !self@.has_state(index),
            },
    {
        let p = self.lower_bound(index);
        if p < self.states.len() && self.states[p].index == index {
            assert(self@.states[p as int].index == index);
            proof {
                self@.lemma_position(p as int);
            }
            Some(p)
        } else {
            assert forall|k: int| 0 <= k < self@.states.len() implies (#[trigger] self@.states[k]).index != index by {
                if k >= p && k != p {
                    assert(self@.states[p as int].index < self@.states[k].index);
                }
            }
            None
        }
    }

    /// Adds `state` to the automaton, unless a state with its index is there
    /// already: that is a structural error, and the automaton stays as it was.
    pub fn add_state(&mut self, state: NfaState<T>) -> (r: Result<(), AutomatonError>)
        requires
            old(self).ordered(),
        ensures
            final(self).ordered(),
            final(self)@.start == old(self)@.start,
            old(self)@.has_state(state.index) ==> r == Err::<(), AutomatonError>(
                AutomatonError::StructuralError,
            ) && final(self)@ == old(self)@,
            !old(self)@.has_state(state.index) ==> r == Ok::<(), AutomatonError>(())
                && final(self)@.has_state(state.index) && exists|p: int|
                0 <= p <= old(self)@.states.len() && final(self)@.states == old(
                    self,
                )@.states.insert(p, state@),
    {
        let p = self.lower_bound(state.index);
        if p < self.states.len() && self.states[p].index == state.index {
            assert(self@.states[p as int].index == state.index);
            return Err(AutomatonError::StructuralError);
        }
        assert forall|k: int| 0 <= k < self@.states.len() implies (#[trigger] self@.states[k]).index != state.index by {
            if k >= p && k != p {
                assert(self@.states[p as int].index < self@.states[k].index);
            }
        }
        let ghost before = self@;
        let ghost sv = state@;
        self.states.insert(p, state);
        proof {
            assert(self@.states =~= before.states.insert(p as int, sv));
            assert(self@.states[p as int].index == sv.index);
            assert forall|i: int, j: int| 0 <= i < j < self@.states.len() implies (
            #[trigger] self@.states[i]).index < (#[trigger] self@.states[j]).index by {
                let bi = if i < p { i } else { i - 1 };
                let bj = if j < p { j } else { j - 1 };
                if i != p {
                    assert(self@.states[i] == before.states[bi]);
                }
                if j != p {
                    assert(self@.states[j] == before.states[bj]);
                }
                if i != p && j != p {
                    assert(before.states[bi].index < before.states[bj].index);
                }
            }
        }
        Ok(())
    }
}

/// Every move out of the state at position `p` from the input position `i`
/// leads to a state, and to an entry that is marked in `seen`.
pub open spec fn moves_seen(
    m: AutomatonModel<Seq<char>>,
    w: Seq<char>,
    seen: Seq<Vec<bool>>,
    p: int,
    i: int,
) -> bool {
    forall|e: int|
        0 <= e < m.states[p].edges.len() && i + (#[trigger] m.states[p].edges[e]).0.len()
            <= w.len() && w.subrange(i, i + m.states[p].edges[e].0.len()) == m.states[p].edges[e].0
            ==> m.has_state(m.states[p].edges[e].1) && seen[m.position(
            m.states[p].edges[e].1,
        )]@[i + m.states[p].edges[e].0.len()]
}

/// Marks that hold the start at position 0 and are closed under the moves
/// hold everything that a simulation reaches.
proof fn lemma_closed_seen(
    m: AutomatonModel<Seq<char>>,
    w: Seq<char>,
    seen: Seq<Vec<bool>>,
    steps: nat,
    q: u64,
    i: int,
)
    requires
        m.sorted(),
        seen.len() == m.states.len(),
        forall|p: int| 0 <= p < seen.len() ==> (#[trigger] seen[p])@.len() == w.len() + 1,
        m.has_state(m.start),
        seen[m.position(m.start)]@[0],
        forall|p: int, j: int|
            0 <= p < seen.len() && 0 <= j <= w.len() && #[trigger] seen[p]@[j] ==> moves_seen(
                m,
                w,
                seen,
                p,
                j,
            ),
        nfa_reached_in(m, w, steps, q, i),
    ensures
        m.has_state(q),
        0 <= i <= w.len(),
        seen[m.position(q)]@[i],
    decreases steps,
{
    if steps > 0 {
        let (p, e) = choose|p: u64, e: int|
            m.has_state(p) && 0 <= e < m.state(p).edges.len() && (#[trigger] m.state(
                p,
            ).edges[e]).1 == q && {
                let l = m.state(p).edges[e].0;
                let j = i - l.len();
                &&& 0 <= j
                &&& i <= w.len()
                &&& w.subrange(j, i) == l
                &&& nfa_reached_in(m, w, (steps - 1) as nat, p, j)
            };
        let l = m.state(p).edges[e].0;
        let j = i - l.len();
        lemma_closed_seen(m, w, seen, (steps - 1) as nat, p, j);
        let k = m.position(p);
        assert(seen[k]@[j]);
        assert(moves_seen(m, w, seen, k, j));
        assert(m.states[k].edges[e].1 == q);
    }
}

/// A move out of a reached state reaches its target.
proof fn lemma_nfa_step(m: AutomatonModel<Seq<char>>, w: Seq<char>, p: u64, j: int, e: int)
    requires
        nfa_reaches(m, w, p, j),
        m.has_state(p),
        0 <= e < m.state(p).edges.len(),
        0 <= j,
        j + m.state(p).edges[e].0.len() <= w.len(),
        w.subrange(j, j + m.state(p).edges[e].0.len()) == m.state(p).edges[e].0,
    ensures
        nfa_reaches(m, w, m.state(p).edges[e].1, j + m.state(p).edges[e].0.len()),
{
    let steps = choose|steps: nat| nfa_reached_in(m, w, steps, p, j);
    let q = m.state(p).edges[e].1;
    let i = j + m.state(p).edges[e].0.len();
    assert(nfa_reached_in(m, w, steps + 1, q, i));
}

impl<T: Traversable> Automaton for Nfa<T> {
    open spec fn wf(&self) -> bool {
        self.ordered()
    }

    open spec fn outcome(&self, input: Seq<char>) -> Result<bool, AutomatonError> {
        nfa_outcome(self@, input)
    }

    /// Explores every state and input position that a simulation reaches,
    /// each once.
    fn accept(&self, input: &str) -> (r: Result<bool, AutomatonError>) {
        let ghost m = self@;
        let ghost w = input@;
        let n = self.states.len();
        let len = input.unicode_len();
        assert(nfa_reached_in(m, w, 0, m.start, 0));
        let sp = match self.find(self.starting_state) {
            Some(sp) => sp,
            None => {
                assert(nfa_reaches(m, w, m.start, 0));
                return Err(AutomatonError::LookupError);
            },
        };
        let mut seen: Vec<Vec<bool>> = Vec::new();
        let mut k: usize = 0;
        while k < n
            invariant
                k <= n,
                seen@.len() == k,
                forall|p: int| 0 <= p < k ==> (#[trigger] seen@[p])@.len() == len + 1,
                forall|p: int, j: int| 0 <= p < k && 0 <= j <= len ==> !(#[trigger] seen@[p]@[j]),
            decreases n - k,
        {
            let mut row = blank_row(len);
            row.push(false);
            seen.push(row);
            k += 1;
        }
        let width = seen[sp].len();
        assert(width == len + 1);
        seen[sp][0] = true;
        let mut stack: Vec<(usize, usize)> = Vec::new();
        stack.push((sp, 0));
        assert(stack@[0] == (sp, 0usize));
        while stack.len() > 0
            invariant
                m == self@,
                w == input@,
                self.ordered(),
                n == self.states@.len(),
                n == m.states.len(),
                len == w.len(),
                len + 1 <= usize::MAX,
                seen@.len() == n,
                forall|p: int| 0 <= p < n ==> (#[trigger] seen@[p])@.len() == len + 1,
                m.has_state(m.start),
                m.position(m.start) == sp,
                sp < n,
                seen@[sp as int]@[0],
                forall|p: int, j: int|
                    0 <= p < n && 0 <= j <= len && #[trigger] seen@[p]@[j] ==> nfa_reaches(
                        m,
                        w,
                        m.states[p].index,
                        j,
                    ),
                forall|x: int|
                    0 <= x < stack@.len() ==> (#[trigger] stack@[x]).0 < n && stack@[x].1 <= len
                        && seen@[stack@[x].0 as int]@[stack@[x].1 as int],
                forall|p: int, j: int|
                    0 <= p < n && 0 <= j <= len && #[trigger] seen@[p]@[j] && !stack@.contains(
                        (p as usize, j as usize),
                    ) ==> moves_seen(m, w, seen@, p, j),
            decreases 2 * unmarked_in(seen@) + stack@.len(),
        {
            let ghost before = stack@;
            let ghost bound = 2 * unmarked_in(seen@) + stack@.len();
            let (p, i) = stack.pop().unwrap();
            assert(before == stack@.push((p, i)));
            assert(before[stack@.len() as int] == (p, i));
            assert forall|a: int, b: int|
                0 <= a < n && 0 <= b <= len && #[trigger] seen@[a]@[b] && !(a == p && b == i)
                    && !stack@.contains((a as usize, b as usize)) implies moves_seen(
                m,
                w,
                seen@,
                a,
                b,
            ) by {
                if before.contains((a as usize, b as usize)) {
                    let x = choose|x: int|
                        0 <= x < before.len() && before[x] == (a as usize, b as usize);
                    assert(stack@[x] == (a as usize, b as usize));
                }
            }
            let st = &self.states[p];
            assert(st@ == m.states[p as int]);
            proof {
                m.lemma_position(p as int);
            }
            let rest = input.substring_char(i, len);
            let mut e: usize = 0;
            while e < st.transitions.len()
                invariant
                    m == self@,
                    w == input@,
                    self.ordered(),
                    n == self.states@.len(),
                    n == m.states.len(),
                    len == w.len(),
                    len + 1 <= usize::MAX,
                    p < n,
                    i <= len,
                    rest@ == w.subrange(i as int, len as int),
                    st@ == m.states[p as int],
                    m.has_state(m.states[p as int].index),
                    m.state(m.states[p as int].index) == m.states[p as int],
                    e <= st.transitions@.len(),
                    seen@.len() == n,
                    forall|a: int| 0 <= a < n ==> (#[trigger] seen@[a])@.len() == len + 1,
                    sp < n,
                    seen@[sp as int]@[0],
                    seen@[p as int]@[i as int],
                    forall|a: int, b: int|
                        0 <= a < n && 0 <= b <= len && #[trigger] seen@[a]@[b] ==> nfa_reaches(
                            m,
                            w,
                            m.states[a].index,
                            b,
                        ),
                    forall|x: int|
                        0 <= x < stack@.len() ==> (#[trigger] stack@[x]).0 < n && stack@[x].1
                            <= len && seen@[stack@[x].0 as int]@[stack@[x].1 as int],
                    forall|a: int, b: int|
                        0 <= a < n && 0 <= b <= len && #[trigger] seen@[a]@[b] && !(a == p && b
                            == i) && !stack@.contains((a as usize, b as usize)) ==> moves_seen(
                            m,
                            w,
                            seen@,
                            a,
                            b,
                        ),
                    forall|f: int|
                        0 <= f < e && i + (#[trigger] m.states[p as int].edges[f]).0.len() <= len
                            && w.subrange(i as int, i + m.states[p as int].edges[f].0.len())
                            == m.states[p as int].edges[f].0 ==> m.has_state(
                            m.states[p as int].edges[f].1,
                        ) && seen@[m.position(m.states[p as int].edges[f].1)]@[i
                            + m.states[p as int].edges[f].0.len()],
                    2 * unmarked_in(seen@) + stack@.len() < bound,
                decreases st.transitions@.len() - e,
            {
                let ghost l = st.transitions@[e as int].0.text();
                let t = st.transitions[e].1;
                assert(m.states[p as int].edges[e as int] == (l, t));
                match st.transitions[e].0.go(rest) {
                    None => {
                        proof {
                            if i + l.len() <= len && w.subrange(i as int, i + l.len()) == l {
                                assert(rest@.subrange(0, l.len() as int) =~= l);
                                assert(l.is_prefix_of(rest@));
                            }
                        }
                    },
                    Some(after) => {
                        let tail = after.unicode_len();
                        assert(rest@.len() == len - i);
                        assert(rest@.len() == l.len() + after@.len());
                        let j = len - tail;
                        proof {
                            assert(j == i + l.len());
                            assert(w.subrange(i as int, j as int) =~= l) by {
                                assert(rest@.subrange(0, l.len() as int) =~= l);
                            }
                            lemma_nfa_step(m, w, m.states[p as int].index, i as int, e as int);
                        }
                        match self.find(t) {
                            None => {
                                assert(nfa_reaches(m, w, t, j as int) && !m.has_state(t));
                                return Err(AutomatonError::LookupError);
                            },
                            Some(tp) => {
                                if !seen[tp][j] {
                                    let ghost s0 = seen@;
                                    let ghost k0 = stack@;
                                    seen[tp][j] = true;
                                    stack.push((tp, j));
                                    proof {
                                        lemma_mark_in(s0, seen@, tp as int, j as int);
                                        assert(stack@[k0.len() as int] == (tp, j));
                                        assert forall|a: int, b: int|
                                            0 <= a < n && 0 <= b <= len
                                                && #[trigger] seen@[a]@[b] && !(a == p && b == i)
                                                && !stack@.contains(
                                                (a as usize, b as usize),
                                            ) implies moves_seen(m, w, seen@, a, b) by {
                                            if a == tp && b == j {
                                                assert(stack@.contains((a as usize, b as usize)));
                                            } else {
                                                assert(s0[a]@[b]);
                                                if k0.contains((a as usize, b as usize)) {
                                                    let x = choose|x: int|
                                                        0 <= x < k0.len() && k0[x] == (
                                                            a as usize,
                                                            b as usize,
                                                        );
                                                    assert(stack@[x] == (a as usize, b as usize));
                                                }
                                                assert(moves_seen(m, w, s0, a, b));
                                                assert forall|f: int|
                                                    0 <= f < m.states[a].edges.len() && b + (
                                                    #[trigger] m.states[a].edges[f]).0.len()
                                                        <= w.len() && w.subrange(
                                                        b,
                                                        b + m.states[a].edges[f].0.len(),
                                                    ) == m.states[a].edges[f].0 implies m.has_state(
                                                    m.states[a].edges[f].1,
                                                ) && seen@[m.position(
                                                    m.states[a].edges[f].1,
                                                )]@[b + m.states[a].edges[f].0.len()] by {
                                                    let x = m.position(m.states[a].edges[f].1);
                                                    let y = b + m.states[a].edges[f].0.len();
                                                    assert(s0[x]@[y]);
                                                }
                                            }
                                        }
                                        assert forall|a: int, b: int|
                                            0 <= a < n && 0 <= b <= len
                                                && #[trigger] seen@[a]@[b] implies nfa_reaches(
                                            m,
                                            w,
                                            m.states[a].index,
                                            b,
                                        ) by {
                                            if !(a == tp && b == j) {
                                                assert(s0[a]@[b]);
                                            }
                                        }
                                        assert forall|f: int|
                                            0 <= f < e && i + (
                                            #[trigger] m.states[p as int].edges[f]).0.len() <= len
                                                && w.subrange(
                                                i as int,
                                                i + m.states[p as int].edges[f].0.len(),
                                            ) == m.states[p as int].edges[f].0 implies m.has_state(
                                            m.states[p as int].edges[f].1,
                                        ) && seen@[m.position(m.states[p as int].edges[f].1)]@[i
                                            + m.states[p as int].edges[f].0.len()] by {
                                            let x = m.position(m.states[p as int].edges[f].1);
                                            let y = i + m.states[p as int].edges[f].0.len();
                                            assert(s0[x]@[y]);
                                        }
                                        assert forall|x: int| 0 <= x < stack@.len() implies (
                                        #[trigger] stack@[x]).0 < n && stack@[x].1 <= len
                                            && seen@[stack@[x].0 as int]@[stack@[x].1 as int] by {
                                            if x < k0.len() {
                                                assert(stack@[x] == k0[x]);
                                                assert(s0[k0[x].0 as int]@[k0[x].1 as int]);
                                            }
                                        }
                                    }
                                }
                            },
                        }
                    },
                }
                e += 1;
            }
            assert(moves_seen(m, w, seen@, p as int, i as int));
        }
        proof {
            assert forall|p: int, j: int|
                0 <= p < seen@.len() && 0 <= j <= w.len() && #[trigger] seen@[p]@[j] implies moves_seen(
                m,
                w,
                seen@,
                p,
                j,
            ) by {
                assert(!stack@.contains((p as usize, j as usize)));
            }
            assert forall|q: u64, i: int| #[trigger] nfa_reaches(m, w, q, i) implies m.has_state(
                q,
            ) && 0 <= i <= len && seen@[m.position(q)]@[i] by {
                let steps = choose|steps: nat| nfa_reached_in(m, w, steps, q, i);
                lemma_closed_seen(m, w, seen@, steps, q, i);
            }
        }
        let mut found = false;
        let mut p: usize = 0;
        while p < n
            invariant
                m == self@,
                m.sorted(),
                n == self.states@.len(),
                n == m.states.len(),
                len == w.len(),
                p <= n,
                seen@.len() == n,
                forall|a: int| 0 <= a < n ==> (#[trigger] seen@[a])@.len() == len + 1,
                found <==> exists|a: int|
                    0 <= a < p && #[trigger] seen@[a]@[len as int] && m.states[a].terminal,
            decreases n - p,
        {
            assert(self.states@[p as int]@ == m.states[p as int]);
            if seen[p][len] && self.states[p].is_terminal {
                found = true;
            }
            p += 1;
        }
        proof {
            if found {
                let a = choose|a: int|
                    0 <= a < n && #[trigger] seen@[a]@[len as int] && m.states[a].terminal;
                m.lemma_position(a);
                assert(nfa_reaches(m, w, m.states[a].index, len as int));
            }
            if nfa_accepts(m, w) {
                let q = choose|q: u64|
                    #[trigger] nfa_reaches(m, w, q, w.len() as int) && m.has_state(q) && m.state(
                        q,
                    ).terminal;
                let a = m.position(q);
                assert(seen@[a]@[len as int] && m.states[a].terminal);
            }
        }
        Ok(found)
    }
}

} // verus!
