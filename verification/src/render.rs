//! The rendering of an automaton as text, for inspection.

use vstd::prelude::*;
use vstd::string::*;
use crate::convert::as_words;
use crate::dfa::Dfa;
use crate::model::AutomatonModel;
use crate::nfa::Nfa;
use crate::state::Traversable;

verus! {

/// The character of the digit `d`.
pub open spec fn digit(d: int) -> char {
    (48 + d) as char
}

/// The number `n` in decimal digits.
pub open spec fn decimal_text(n: nat) -> Seq<char>
    decreases n,
{
    if n < 10 {
        seq![digit(n as int)]
    } else {
        decimal_text(n / 10).push(digit((n % 10) as int))
    }
}

/// The line of one transition: `<from> -> <to> by "<label>"`.
pub open spec fn edge_line(from: u64, edge: (Seq<char>, u64)) -> Seq<char> {
    decimal_text(from as nat) + " -> "@ + decimal_text(edge.1 as nat) + " by \""@ + edge.0
        + "\"\n"@
}

/// The lines of the first `e` of the transitions `edges` of the state `from`.
pub open spec fn edge_lines(from: u64, edges: Seq<(Seq<char>, u64)>, e: int) -> Seq<char>
    decreases e,
{
    if e <= 0 {
        Seq::empty()
    } else {
        edge_lines(from, edges, e - 1) + edge_line(from, edges[e - 1])
    }
}

/// The lines of the transitions of the states at the first `k` positions.
pub open spec fn transition_lines(m: AutomatonModel<Seq<char>>, k: int) -> Seq<char>
    decreases k,
{
    if k <= 0 {
        Seq::empty()
    } else {
        transition_lines(m, k - 1) + edge_lines(
            m.states[k - 1].index,
            m.states[k - 1].edges,
            m.states[k - 1].edges.len() as int,
        )
    }
}

/// One line with its index for each accepting state at the first `k` positions.
pub open spec fn terminal_lines(m: AutomatonModel<Seq<char>>, k: int) -> Seq<char>
    decreases k,
{
    if k <= 0 {
        Seq::empty()
    } else if m.states[k - 1].terminal {
        terminal_lines(m, k - 1) + decimal_text(m.states[k - 1].index as nat) + "\n"@
    } else {
        terminal_lines(m, k - 1)
    }
}

/// The rendering of `m`: the line `Starting state: <index>`, one line for
/// each transition, in ascending order of the states and for each state in
/// the order of its transitions, the line `Terminal states:`, and one line
/// for each accepting state, in ascending order.
pub open spec fn rendering(m: AutomatonModel<Seq<char>>) -> Seq<char> {
    "Starting state: "@ + decimal_text(m.start as nat) + "\n"@ + transition_lines(
        m,
        m.states.len() as int,
    ) + "Terminal states:\n"@ + terminal_lines(m, m.states.len() as int)
}

/// Appends the number `n` in decimal digits to `s`.
pub fn push_decimal(s: &mut String, n: u64)
    ensures
        final(s)@ == old(s)@ + decimal_text(n as nat),
    decreases n,
{
    if n < 10 {
        let c = (48u8 + n as u8) as char;
        assert(c == digit(n as int));
        s.push(c);
        assert(s@ =~= old(s)@ + decimal_text(n as nat));
    } else {
        push_decimal(s, n / 10);
        let c = (48u8 + (n % 10) as u8) as char;
        assert(c == digit((n % 10) as int));
        s.push(c);
        assert(s@ =~= old(s)@ + decimal_text(n as nat));
    }
}

impl<T: Traversable> Nfa<T> {
    /// The automaton as text.
    pub fn render(&self) -> (s: String)
        requires
            self.ordered(),
        ensures
            s@ == rendering(self@),
    {
        let ghost m = self@;
        let states = self.states();
        let n = states.len();
        let mut s = String::new();
        s.append("Starting state: ");
        push_decimal(&mut s, self.starting_state());
        s.append("\n");
        let ghost head = s@;
        assert(head =~= "Starting state: "@ + decimal_text(m.start as nat) + "\n"@);
        let mut k: usize = 0;
        assert(s@ =~= head + transition_lines(m, 0));
        while k < n
            invariant
                m == self@,
                n == states@.len(),
                n == m.states.len(),
                forall|j: int| 0 <= j < n ==> (#[trigger] states@[j])@ == m.states[j],
                k <= n,
                s@ == head + transition_lines(m, k as int),
            decreases n - k,
        {
            let st = &states[k];
            assert(st@ == m.states[k as int]);
            let ghost base = s@;
            let ghost edges = m.states[k as int].edges;
            let mut e: usize = 0;
            assert(s@ =~= base + edge_lines(st.index, edges, 0));
            while e < st.transitions.len()
                invariant
                    st@ == m.states[k as int],
                    edges == m.states[k as int].edges,
                    e <= st.transitions@.len(),
                    s@ == base + edge_lines(st.index, edges, e as int),
                decreases st.transitions@.len() - e,
            {
                let ghost before = s@;
                let word = st.transitions[e].0.label();
                assert(edges[e as int] == (word@, st.transitions@[e as int].1));
                push_decimal(&mut s, st.index);
                s.append(" -> ");
                push_decimal(&mut s, st.transitions[e].1);
                s.append(" by \"");
                s.append(word.as_str());
                s.append("\"\n");
                assert(s@ =~= before + edge_line(st.index, edges[e as int]));
                assert(s@ =~= base + edge_lines(st.index, edges, e + 1));
                e += 1;
            }
            assert(s@ =~= head + transition_lines(m, k + 1));
            k += 1;
        }
        s.append("Terminal states:\n");
        let ghost body = s@;
        let mut k: usize = 0;
        assert(s@ =~= body + terminal_lines(m, 0));
        while k < n
            invariant
                m == self@,
                n == states@.len(),
                n == m.states.len(),
                forall|j: int| 0 <= j < n ==> (#[trigger] states@[j])@ == m.states[j],
                k <= n,
                s@ == body + terminal_lines(m, k as int),
            decreases n - k,
        {
            assert(states@[k as int]@ == m.states[k as int]);
            if states[k].is_terminal {
                push_decimal(&mut s, states[k].index);
                s.append("\n");
                assert(s@ =~= body + terminal_lines(m, k + 1));
            }
            k += 1;
        }
        assert(s@ =~= rendering(m));
        s
    }
}

impl Dfa {
    /// The automaton as text, each symbol a label.
    pub fn render(&self) -> (s: String)
        requires
            self.ordered(),
        ensures
            s@ == rendering(as_words(self@)),
    {
        self.to_nfa().render()
    }
}

} // verus!
