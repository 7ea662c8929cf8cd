//! Transition labels, and what a state offers to a simulation.

use vstd::prelude::*;
use vstd::string::*;

verus! {

/// A transition label: it matches a prefix of the remaining input.
pub trait Traversable {
    /// The characters that the label consumes; empty for an epsilon label.
    spec fn text(&self) -> Seq<char>;

    /// The label as a string.
    fn label(&self) -> (s: String)
        ensures
            s@ == self.text(),
    ;

    /// Matches the label against the start of `input` and returns what follows it.
    fn go<'a>(&self, input: &'a str) -> (rest: Option<&'a str>)
        ensures
            match rest {
                Some(r) => input@ == self.text() + r@,
                None => !self.text().is_prefix_of(input@),
            },
    ;
}

impl Traversable for String {
    open spec fn text(&self) -> Seq<char> {
        self@
    }

    fn label(&self) -> (s: String) {
        self.clone()
    }

    fn go<'a>(&self, input: &'a str) -> (rest: Option<&'a str>) {
        let label = self.as_str();
        let n = label.unicode_len();
        let m = input.unicode_len();
        if n > m {
            return None;
        }
        let mut i: usize = 0;
        while i < n
            invariant
                n <= m,
                i <= n,
                n == label@.len(),
                m == input@.len(),
                label@ == self@,
                forall|k: int| 0 <= k < i ==> label@[k] == input@[k],
            decreases n - i,
        {
            if label.get_char(i) != input.get_char(i) {
                return None;
            }
            i += 1;
        }
        let r = input.substring_char(n, m);
        assert(input@ =~= self@ + r@);
        Some(r)
    }
}

impl Traversable for char {
    open spec fn text(&self) -> Seq<char> {
        seq![*self]
    }

    fn label(&self) -> (s: String) {
        let mut s = String::new();
        s.push(*self);
        assert(s@ =~= seq![*self]);
        s
    }

    fn go<'a>(&self, input: &'a str) -> (rest: Option<&'a str>) {
        let m = input.unicode_len();
        if m == 0 || input.get_char(0) != *self {
            assert(seq![*self].is_prefix_of(input@) ==> input@[0] == seq![*self][0]);
            return None;
        }
        let r = input.substring_char(1, m);
        assert(input@ =~= seq![*self] + r@);
        Some(r)
    }
}

/// The moves that the transitions `edges` offer on the remaining input `w`:
/// for each transition whose label starts `w`, in order, its target and what
/// of `w` follows the label.
pub open spec fn moves_on(edges: Seq<(Seq<char>, u64)>, w: Seq<char>) -> Seq<(u64, Seq<char>)> {
    edges.filter(|e: (Seq<char>, u64)| e.0.is_prefix_of(w)).map_values(
        |e: (Seq<char>, u64)| (e.1, w.skip(e.0.len() as int)),
    )
}

/// One more transition adds its move to the moves, or not.
pub proof fn lemma_moves_step(edges: Seq<(Seq<char>, u64)>, w: Seq<char>, k: int)
    requires
        0 <= k < edges.len(),
    ensures
        moves_on(edges.take(k + 1), w) == if edges[k].0.is_prefix_of(w) {
            moves_on(edges.take(k), w).push((edges[k].1, w.skip(edges[k].0.len() as int)))
        } else {
            moves_on(edges.take(k), w)
        },
{
    reveal(Seq::filter);
    assert(edges.take(k + 1).drop_last() =~= edges.take(k));
    assert(edges.take(k + 1).last() == edges[k]);
    let f = |e: (Seq<char>, u64)| e.0.is_prefix_of(w);
    let g = |e: (Seq<char>, u64)| (e.1, w.skip(e.0.len() as int));
    if edges[k].0.is_prefix_of(w) {
        assert(edges.take(k + 1).filter(f).map_values(g) =~= edges.take(k).filter(f).map_values(
            g,
        ).push(g(edges[k])));
    }
}

/// What a state offers to a simulation.
pub trait State {
    /// The transitions of the state, each with the text of its label.
    spec fn offers(&self) -> Seq<(Seq<char>, u64)>;

    /// The moves on the remaining input `input`: for each transition whose
    /// label starts the input, in order, its target and what follows the label.
    fn next(&self, input: &str) -> (r: Vec<(u64, String)>)
        ensures
            r@.len() == moves_on(self.offers(), input@).len(),
            forall|k: int|
                0 <= k < r@.len() ==> (#[trigger] r@[k]).0 == moves_on(self.offers(), input@)[k].0
                    && r@[k].1@ == moves_on(self.offers(), input@)[k].1,
    ;
}

} // verus!
