//! The mathematical model of an automaton: a start index and the states in
//! ascending order of their indices, each with its ordered transitions.

use vstd::prelude::*;

verus! {

/// A state as a value: its index, whether it accepts, and its transitions in
/// the order in which they were added, each a label and a target index.
pub struct StateModel<L> {
    pub index: u64,
    pub terminal: bool,
    pub edges: Seq<(L, u64)>,
}

/// An automaton as a value.
pub struct AutomatonModel<L> {
    pub start: u64,
    pub states: Seq<StateModel<L>>,
}

impl<L> AutomatonModel<L> {
    /// The states stand in strictly ascending order of index, so no index
    /// occurs twice.
    pub open spec fn sorted(self) -> bool {
        forall|i: int, j: int|
            0 <= i < j < self.states.len() ==> (#[trigger] self.states[i]).index < (
            #[trigger] self.states[j]).index
    }

    /// Some state has the index `idx`.
    pub open spec fn has_state(self, idx: u64) -> bool {
        exists|k: int| 0 <= k < self.states.len() && (#[trigger] self.states[k]).index == idx
    }

    /// Where the state with index `idx` stands among the states.
    pub open spec fn position(self, idx: u64) -> int {
        choose|k: int| 0 <= k < self.states.len() && (#[trigger] self.states[k]).index == idx
    }

    /// The state with index `idx`.
    pub open spec fn state(self, idx: u64) -> StateModel<L> {
        self.states[self.position(idx)]
    }

    /// The start index and every transition target name a state.
    pub open spec fn closed(self) -> bool {
        &&& self.has_state(self.start)
        &&& forall|k: int, e: int|
            0 <= k < self.states.len() && 0 <= e < self.states[k].edges.len() ==> self.has_state(
                (#[trigger] self.states[k].edges[e]).1,
            )
    }

    /// In a sorted automaton a state is found at one position only.
    pub proof fn lemma_position(self, k: int)
        requires
            self.sorted(),
            0 <= k < self.states.len(),
        ensures
            self.has_state(self.states[k].index),
            self.position(self.states[k].index) == k,
            self.state(self.states[k].index) == self.states[k],
    {
        let idx = self.states[k].index;
        let p = self.position(idx);
        assert(self.states[p].index == idx);
        if p < k {
            assert(self.states[p].index < self.states[k].index);
        } else if k < p {
            assert(self.states[k].index < self.states[p].index);
        }
    }

    /// A state put in at its place joins the states, and the others stay.
    pub proof fn lemma_insert(self, after: Self, p: int, state: StateModel<L>)
        requires
            self.sorted(),
            after.sorted(),
            0 <= p <= self.states.len(),
            after.states == self.states.insert(p, state),
        ensures
            forall|idx: u64|
                #![trigger after.has_state(idx)]
                #![trigger self.has_state(idx)]
                after.has_state(idx) <==> (self.has_state(idx) || idx == state.index),
            after.has_state(state.index),
            after.state(state.index) == state,
            forall|idx: u64|
                self.has_state(idx) && idx != state.index ==> #[trigger] after.state(idx)
                    == self.state(idx),
    {
        assert(after.states[p] == state);
        after.lemma_position(p);
        assert forall|idx: u64|
            #![trigger after.has_state(idx)]
            #![trigger self.has_state(idx)]
            after.has_state(idx) <==> (self.has_state(idx) || idx == state.index) by {
            if after.has_state(idx) {
                let k = after.position(idx);
                if k < p {
                    assert(self.states[k].index == idx);
                } else if k > p {
                    assert(self.states[k - 1].index == idx);
                }
            }
            if self.has_state(idx) {
                let k = self.position(idx);
                if k < p {
                    assert(after.states[k].index == idx);
                } else {
                    assert(after.states[k + 1].index == idx);
                }
            }
        }
        assert forall|idx: u64| self.has_state(idx) && idx != state.index implies #[trigger] after.state(
            idx,
        ) == self.state(idx) by {
            let k = self.position(idx);
            self.lemma_position(k);
            if k < p {
                assert(after.states[k] == self.states[k]);
                after.lemma_position(k);
            } else {
                assert(after.states[k + 1] == self.states[k]);
                after.lemma_position(k + 1);
            }
        }
    }
}

/// Sorted automata that hold the same states under the same indices hold
/// them in the same order.
pub proof fn lemma_same_states<L>(a: AutomatonModel<L>, b: AutomatonModel<L>)
    requires
        a.sorted(),
        b.sorted(),
        forall|idx: u64| a.has_state(idx) <==> b.has_state(idx),
        forall|idx: u64| a.has_state(idx) ==> a.state(idx) == b.state(idx),
    ensures
        a.states == b.states,
    decreases a.states.len(),
{
    if a.states.len() == 0 {
        if b.states.len() > 0 {
            assert(b.has_state(b.states[0].index));
        }
        assert(a.states =~= b.states);
    } else {
        let na = a.states.len() - 1;
        let x = a.states[na].index;
        a.lemma_position(na);
        assert(b.has_state(x));
        let nb = b.states.len() - 1;
        let y = b.states[nb].index;
        b.lemma_position(nb);
        assert(a.has_state(y));
        let kb = b.position(x);
        let ka = a.position(y);
        assert(a.states[ka].index == y && b.states[kb].index == x);
        if ka < na {
            assert(a.states[ka].index < a.states[na].index);
        }
        if kb < nb {
            assert(b.states[kb].index < b.states[nb].index);
        }
        assert(x == y);
        assert(a.states[na] == b.states[nb]);
        let a1 = AutomatonModel { start: a.start, states: a.states.drop_last() };
        let b1 = AutomatonModel { start: b.start, states: b.states.drop_last() };
        assert forall|idx: u64| a1.has_state(idx) <==> b1.has_state(idx) by {
            if a1.has_state(idx) {
                let k = a1.position(idx);
                assert(a.states[k].index == idx);
                assert(a.states[k].index < a.states[na].index);
                assert(b.has_state(idx));
                let j = b.position(idx);
                assert(b.states[j].index == idx);
                assert(j < nb);
                assert(b1.states[j].index == idx);
            }
            if b1.has_state(idx) {
                let k = b1.position(idx);
                assert(b.states[k].index == idx);
                assert(b.states[k].index < b.states[nb].index);
                assert(a.has_state(idx));
                let j = a.position(idx);
                assert(a.states[j].index == idx);
                assert(j < na);
                assert(a1.states[j].index == idx);
            }
        }
        assert forall|idx: u64| a1.has_state(idx) implies a1.state(idx) == b1.state(idx) by {
            let k = a1.position(idx);
            assert(a.states[k].index == idx);
            a.lemma_position(k);
            let j = b1.position(idx);
            assert(b1.states[j].index == idx);
            assert(b.states[j].index == idx);
            b.lemma_position(j);
        }
        assert forall|i: int, j: int| 0 <= i < j < a1.states.len() implies (
        #[trigger] a1.states[i]).index < (#[trigger] a1.states[j]).index by {
            assert(a.states[i].index < a.states[j].index);
        }
        assert forall|i: int, j: int| 0 <= i < j < b1.states.len() implies (
        #[trigger] b1.states[i]).index < (#[trigger] b1.states[j]).index by {
            assert(b.states[i].index < b.states[j].index);
        }
        lemma_same_states(a1, b1);
        assert(a.states =~= a1.states.push(a.states[na]));
        assert(b.states =~= b1.states.push(b.states[nb]));
    }
}

} // verus!
