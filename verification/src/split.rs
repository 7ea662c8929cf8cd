//! Transition splitting: every transition with a label of several characters
//! becomes a chain of single-character transitions through fresh states.

use vstd::prelude::*;
use vstd::string::*;
use crate::compress::{compressed, eps_dangling, eps_free};
use crate::convert::chars_of_words;
use crate::error::AutomatonError;
use crate::model::{AutomatonModel, StateModel};
use crate::language::lemma_split_words_keeps_language;
use crate::nfa::{nfa_outcome, Nfa, NfaState};
use crate::text::chars_of;

verus! {

/// The number of fresh states that a transition with the label `l` takes.
pub open spec fn extra(l: Seq<char>) -> int {
    if l.len() > 1 {
        l.len() - 1
    } else {
        0
    }
}

/// The number of fresh states that the first `e` of the transitions `edges` take.
pub open spec fn fresh_in(edges: Seq<(Seq<char>, u64)>, e: int) -> int
    decreases e,
{
    if e <= 0 {
        0
    } else {
        fresh_in(edges, e - 1) + extra(edges[e - 1].0)
    }
}

/// The number of fresh states that the transitions of the states at the
/// first `k` positions of `m` take.
pub open spec fn fresh_before(m: AutomatonModel<Seq<char>>, k: int) -> int
    decreases k,
{
    if k <= 0 {
        0
    } else {
        fresh_before(m, k - 1) + fresh_in(
            m.states[k - 1].edges,
            m.states[k - 1].edges.len() as int,
        )
    }
}

/// The transition `edge` after splitting, where `first` is the index of the
/// first fresh state that it may take: a label of several characters leaves
/// its first character, which leads to the fresh state; any other transition
/// stays as it is.
pub open spec fn split_edge(edge: (Seq<char>, u64), first: int) -> (Seq<char>, u64) {
    if edge.0.len() > 1 {
        (seq![edge.0[0]], first as u64)
    } else {
        edge
    }
}

/// The transitions `edges` after splitting, where `first` is the index of
/// the first fresh state that they may take.
pub open spec fn split_edges(edges: Seq<(Seq<char>, u64)>, first: int) -> Seq<(Seq<char>, u64)> {
    Seq::new(edges.len(), |e: int| split_edge(edges[e], first + fresh_in(edges, e)))
}

/// The fresh states of the transition `edge`, numbered from `first`: one
/// for each character of the label but the first, which does not accept and
/// has one transition, on the character that follows its own, to the next
/// fresh state, or from the last one to the target of `edge`.
pub open spec fn chain(edge: (Seq<char>, u64), first: int) -> Seq<StateModel<Seq<char>>> {
    Seq::new(
        extra(edge.0) as nat,
        |i: int|
            StateModel {
                index: (first + i) as u64,
                terminal: false,
                edges: seq![
                    (
                        seq![edge.0[i + 1]],
                        if i + 2 == edge.0.len() {
                            edge.1
                        } else {
                            (first + i + 1) as u64
                        },
                    ),
                ],
            },
    )
}

/// The fresh states of the first `e` of the transitions `edges`, numbered
/// from `first`.
pub open spec fn chains_in(edges: Seq<(Seq<char>, u64)>, first: int, e: int) -> Seq<
    StateModel<Seq<char>>,
>
    decreases e,
{
    if e <= 0 {
        Seq::empty()
    } else {
        chains_in(edges, first, e - 1) + chain(edges[e - 1], first + fresh_in(edges, e - 1))
    }
}

/// The fresh states of the transitions of the states at the first `k`
/// positions of `m`, numbered from `base`.
pub open spec fn chains_before(m: AutomatonModel<Seq<char>>, base: int, k: int) -> Seq<
    StateModel<Seq<char>>,
>
    decreases k,
{
    if k <= 0 {
        Seq::empty()
    } else {
        chains_before(m, base, k - 1) + chains_in(
            m.states[k - 1].edges,
            base + fresh_before(m, k - 1),
            m.states[k - 1].edges.len() as int,
        )
    }
}

/// The index of the first fresh state: one above the highest index of `m`.
pub open spec fn fresh_base(m: AutomatonModel<Seq<char>>) -> int {
    m.states.last().index + 1
}

/// The state at position `k` of `m` after splitting.
pub open spec fn split_state(m: AutomatonModel<Seq<char>>, k: int) -> StateModel<Seq<char>> {
    StateModel {
        edges: split_edges(m.states[k].edges, fresh_base(m) + fresh_before(m, k)),
        ..m.states[k]
    }
}

/// The automaton `m` after splitting: its states, each with its transitions
/// split, and after them the fresh states, in the order of the states and
/// transitions that take them.
pub open spec fn split(m: AutomatonModel<Seq<char>>) -> AutomatonModel<Seq<char>> {
    AutomatonModel {
        start: m.start,
        states: Seq::new(m.states.len(), |k: int| split_state(m, k)) + chains_before(
            m,
            fresh_base(m),
            m.states.len() as int,
        ),
    }
}

/// The fresh states that `m` takes do not all have an index.
pub open spec fn split_overflows(m: AutomatonModel<Seq<char>>) -> bool {
    fresh_before(m, m.states.len() as int) > 0 && m.states.last().index + fresh_before(
        m,
        m.states.len() as int,
    ) > u64::MAX
}

/// The numbers of fresh states grow with the transitions and the states.
pub proof fn lemma_fresh_grows(m: AutomatonModel<Seq<char>>, k: int, e: int)
    requires
        0 <= k < m.states.len(),
        0 <= e <= m.states[k].edges.len(),
    ensures
        0 <= fresh_in(m.states[k].edges, e) <= fresh_in(
            m.states[k].edges,
            m.states[k].edges.len() as int,
        ),
        0 <= fresh_before(m, k),
        fresh_before(m, k) + fresh_in(m.states[k].edges, m.states[k].edges.len() as int)
            <= fresh_before(m, m.states.len() as int),
{
    lemma_fresh_in_grows(m.states[k].edges, e, m.states[k].edges.len() as int);
    lemma_fresh_before_grows(m, k + 1, m.states.len() as int);
    lemma_fresh_before_grows(m, 0, k);
}

/// The number of fresh states grows with the transitions.
pub proof fn lemma_fresh_in_grows(edges: Seq<(Seq<char>, u64)>, e: int, f: int)
    requires
        0 <= e <= f,
    ensures
        0 <= fresh_in(edges, e) <= fresh_in(edges, f),
    decreases f,
{
    if e < f {
        lemma_fresh_in_grows(edges, e, f - 1);
    } else if e > 0 {
        lemma_fresh_in_grows(edges, e - 1, e - 1);
    }
}

/// The number of fresh states grows with the states.
pub proof fn lemma_fresh_before_grows(m: AutomatonModel<Seq<char>>, j: int, k: int)
    requires
        0 <= j <= k <= m.states.len(),
    ensures
        0 <= fresh_before(m, j) <= fresh_before(m, k),
    decreases k,
{
    if j < k {
        lemma_fresh_before_grows(m, j, k - 1);
        lemma_fresh_in_grows(m.states[k - 1].edges, 0, m.states[k - 1].edges.len() as int);
    } else if j > 0 {
        lemma_fresh_before_grows(m, j - 1, j - 1);
        lemma_fresh_in_grows(m.states[j - 1].edges, 0, m.states[j - 1].edges.len() as int);
    }
}

/// The fresh states of some transitions are as many as these take, and are
/// numbered from `first` without gaps.
pub proof fn lemma_chains_in(edges: Seq<(Seq<char>, u64)>, first: int, e: int)
    requires
        0 <= e <= edges.len(),
        0 <= first,
        first + fresh_in(edges, e) <= u64::MAX + 1,
    ensures
        chains_in(edges, first, e).len() == fresh_in(edges, e),
        forall|j: int|
            0 <= j < fresh_in(edges, e) ==> (#[trigger] chains_in(edges, first, e)[j]).index
                == first + j,
    decreases e,
{
    if e > 0 {
        lemma_fresh_in_grows(edges, e - 1, e);
        lemma_chains_in(edges, first, e - 1);
    }
}

/// The fresh states of some states are as many as their transitions take,
/// and are numbered from `base` without gaps.
pub proof fn lemma_chains_before(m: AutomatonModel<Seq<char>>, base: int, k: int)
    requires
        0 <= k <= m.states.len(),
        0 <= base,
        base + fresh_before(m, k) <= u64::MAX + 1,
    ensures
        chains_before(m, base, k).len() == fresh_before(m, k),
        forall|j: int|
            0 <= j < fresh_before(m, k) ==> (#[trigger] chains_before(m, base, k)[j]).index
                == base + j,
    decreases k,
{
    if k > 0 {
        lemma_fresh_before_grows(m, k - 1, k);
        lemma_fresh_before_grows(m, 0, k - 1);
        lemma_chains_before(m, base, k - 1);
        lemma_chains_in(
            m.states[k - 1].edges,
            base + fresh_before(m, k - 1),
            m.states[k - 1].edges.len() as int,
        );
    }
}

/// The states `v` as values.
pub open spec fn views(v: Seq<NfaState<char>>) -> Seq<StateModel<Seq<char>>> {
    v.map_values(|s: NfaState<char>| s@)
}

/// Splits the transitions of an automaton without epsilon transitions.
fn split_compressed(c: &Nfa<String>) -> (r: Option<Nfa<char>>)
    requires
        c.ordered(),
        eps_free(c@),
        c@.states.len() > 0,
    ensures
        split_overflows(c@) <==> r is None,
        r matches Some(s) ==> s.ordered() && s@ == split(c@),
{
    let ghost m = c@;
    let states = c.states();
    let n = states.len();
    let top = states[n - 1].index;
    let ghost base = top + 1;
    assert(base == fresh_base(m));
    let mut used: u64 = top;
    let mut out: Vec<NfaState<char>> = Vec::new();
    let mut fresh: Vec<NfaState<char>> = Vec::new();
    let mut k: usize = 0;
    assert(views(fresh@) =~= chains_before(m, base, 0));
    while k < n
        invariant
            m == c@,
            m.sorted(),
            eps_free(m),
            n == states@.len(),
            n == m.states.len(),
            n > 0,
            forall|j: int| 0 <= j < n ==> (#[trigger] states@[j])@ == m.states[j],
            base == top + 1,
            base == fresh_base(m),
            k <= n,
            used == top + fresh_before(m, k as int),
            out@.len() == k,
            forall|j: int| 0 <= j < k ==> (#[trigger] out@[j])@ == split_state(m, j),
            views(fresh@) == chains_before(m, base, k as int),
        decreases n - k,
    {
        let st = &states[k];
        assert(st@ == m.states[k as int]);
        let ghost edges = m.states[k as int].edges;
        let ghost first = base + fresh_before(m, k as int);
        let ghost chains0 = views(fresh@);
        let mut ns: NfaState<char> = NfaState::new(st.index, st.is_terminal);
        let mut e: usize = 0;
        assert(ns@.edges =~= split_edges(edges, first).take(0));
        assert(views(fresh@) =~= chains0 + chains_in(edges, first, 0));
        while e < st.transitions.len()
            invariant
                m == c@,
                eps_free(m),
                n == m.states.len(),
                k < n,
                st@ == m.states[k as int],
                edges == m.states[k as int].edges,
                base == top + 1,
                base == fresh_base(m),
                first == base + fresh_before(m, k as int),
                e <= st.transitions@.len(),
                used == top + fresh_before(m, k as int) + fresh_in(edges, e as int),
                ns.index == st.index,
                ns.is_terminal == st.is_terminal,
                ns@.edges == split_edges(edges, first).take(e as int),
                views(fresh@) == chains0 + chains_in(edges, first, e as int),
            decreases st.transitions@.len() - e,
        {
            let t = st.transitions[e].1;
            let word = chars_of(st.transitions[e].0.as_str());
            let ghost l = word@;
            let ghost edge = edges[e as int];
            assert(edge == (l, t));
            assert(l.len() > 0);
            let len = word.len();
            proof {
                lemma_fresh_grows(m, k as int, e as int);
                lemma_fresh_grows(m, k as int, e + 1);
            }
            let ghost here = first + fresh_in(edges, e as int);
            assert(here == used + 1);
            if len == 1 {
                ns.add_transition(word[0], t);
                proof {
                    assert(l =~= seq![l[0]]);
                    assert(split_edge(edge, here) == edge);
                    assert(ns@.edges =~= split_edges(edges, first).take(e + 1));
                    assert(chain(edge, here) =~= Seq::empty());
                    assert(views(fresh@) =~= chains0 + chains_in(edges, first, e + 1));
                }
            } else {
                let need = (len - 1) as u64;
                if need > u64::MAX - used {
                    proof {
                        assert(extra(l) == len - 1);
                        assert(fresh_in(edges, e + 1) == fresh_in(edges, e as int) + extra(l));
                        assert(fresh_before(m, n as int) > 0);
                        assert(top + fresh_before(m, n as int) > u64::MAX);
                        assert(top == m.states.last().index);
                    }
                    return None;
                }
                let head = used + 1;
                ns.add_transition(word[0], head);
                proof {
                    assert(split_edge(edge, here) == (seq![l[0]], head));
                    assert(ns@.edges =~= split_edges(edges, first).take(e + 1));
                }
                let ghost before = views(fresh@);
                let mut i: usize = 0;
                assert(views(fresh@) =~= before + chain(edge, here).take(0));
                while i < len - 1
                    invariant
                        len == word@.len(),
                        len >= 2,
                        l == word@,
                        edge == (l, t),
                        head == used + 1,
                        here == head,
                        used + (len - 1) <= u64::MAX,
                        i <= len - 1,
                        views(fresh@) == before + chain(edge, here).take(i as int),
                    decreases len - 1 - i,
                {
                    let mut fs: NfaState<char> = NfaState::new(head + i as u64, false);
                    let target = if i + 2 == len {
                        t
                    } else {
                        head + i as u64 + 1
                    };
                    fs.add_transition(word[i + 1], target);
                    let ghost prev = fresh@;
                    fresh.push(fs);
                    proof {
                        assert(fs@.edges =~= seq![(seq![l[i + 1]], target)]);
                        assert(fs@ == chain(edge, here)[i as int]);
                        assert(views(fresh@) =~= views(prev).push(fs@));
                        assert(chain(edge, here).take(i + 1) =~= chain(edge, here).take(
                            i as int,
                        ).push(fs@));
                        assert(views(fresh@) =~= before + chain(edge, here).take(i + 1));
                    }
                    i += 1;
                }
                proof {
                    assert(chain(edge, here).take(i as int) =~= chain(edge, here));
                    assert(views(fresh@) =~= chains0 + chains_in(edges, first, e + 1));
                }
                used = used + need;
            }
            e += 1;
        }
        proof {
            assert(split_edges(edges, first).take(e as int) =~= split_edges(edges, first));
            assert(ns@ == split_state(m, k as int));
        }
        out.push(ns);
        k += 1;
    }
    proof {
        lemma_chains_before(m, base, n as int);
        assert forall|j: int| 0 <= j < fresh@.len() implies (#[trigger] fresh@[j]).index == base
            + j by {
            assert(views(fresh@)[j].index == base + j);
        }
    }
    let ghost kept = out@;
    let ghost added = fresh@;
    out.append(&mut fresh);
    assert(out@ == kept + added);
    assert forall|i: int, j: int| 0 <= i < j < out@.len() implies (#[trigger] out@[i]).index < (
    #[trigger] out@[j]).index by {
        if j < n {
            assert(kept[i]@.index == m.states[i].index);
            assert(kept[j]@.index == m.states[j].index);
        } else if i < n {
            assert(kept[i]@.index == m.states[i].index);
            if i < n - 1 {
                assert(m.states[i].index < m.states[n - 1].index);
            }
            assert(added[j - n].index == base + (j - n));
        } else {
            assert(added[i - n].index == base + (i - n));
            assert(added[j - n].index == base + (j - n));
        }
    }
    let s = Nfa::from_states(c.starting_state(), out);
    proof {
        assert(s@.states =~= split(m).states) by {
            assert forall|j: int| 0 <= j < s@.states.len() implies s@.states[j] == split(
                m,
            ).states[j] by {
                if j < n {
                    assert(kept[j]@ == split_state(m, j));
                } else {
                    assert(views(added)[j - n] == added[j - n]@);
                }
            }
        }
    }
    Some(s)
}

impl Nfa<String> {
    /// The automaton with single-character transitions that accepts what
    /// this automaton accepts: the compressed automaton with every
    /// transition of several characters split into a chain through fresh
    /// states, which are numbered upwards from one above the highest index.
    /// Fails with a lookup error as the compression does, and with a
    /// capacity error where the fresh states do not all have an index.
    pub fn split_words(&self) -> (r: Result<Nfa<char>, AutomatonError>)
        requires
            self.ordered(),
        ensures
            match chars_of_words(self@) {
                Ok(m) => r matches Ok(s) && s@ == m,
                Err(e) => r matches Err(f) && f == e,
            },
            r matches Ok(s) ==> (self@.closed() ==> forall|w: Seq<char>|
                #[trigger] nfa_outcome(s@, w) == nfa_outcome(self@, w)),
            !self@.has_state(self@.start) || eps_dangling(self@) ==> (r matches Err(e) && e
                == AutomatonError::LookupError),
            self@.has_state(self@.start) && !eps_dangling(self@) && split_overflows(
                compressed(self@),
            ) ==> (r matches Err(e) && e == AutomatonError::CapacityError),
            self@.has_state(self@.start) && !eps_dangling(self@) && !split_overflows(
                compressed(self@),
            ) ==> (r matches Ok(s) && s.ordered() && s@ == split(compressed(self@))),
    {
        let c = match self.compress_eps() {
            Ok(c) => c,
            Err(e) => {
                return Err(e);
            },
        };
        assert(c@.states.len() > 0) by {
            assert(0 <= self@.position(self@.start) < self@.states.len());
            assert(c@.states.len() == self@.states.len());
        }
        match split_compressed(&c) {
            Some(s) => {
                proof {
                    if self@.closed() {
                        assert forall|w: Seq<char>| #[trigger]
                            nfa_outcome(s@, w) == nfa_outcome(self@, w) by {
                            lemma_split_words_keeps_language(self@, w);
                        }
                    }
                }
                Ok(s)
            },
            None => Err(AutomatonError::CapacityError),
        }
    }
}

} // verus!
