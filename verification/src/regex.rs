//! Regular-expression synthesis by state elimination: the states are taken
//! out one after the other, in ascending order, and what led through a state
//! is written on the transitions that pass it by.

use vstd::prelude::*;
use vstd::string::*;
use crate::automaton::ToRegex;
use crate::compress::compressed;
use crate::convert::{as_words, dfa_of_words};
use crate::language::{lemma_compressed_closed, lemma_compressed_plain, lemma_split_plain, plain};
use crate::split::split;
use crate::subset::{is_subset_dfa, lemma_subset_symbols, unit_model};
use crate::dfa::{dfa_has_symbol, Dfa, ToDfa};
use crate::error::AutomatonError;
use crate::model::AutomatonModel;
use crate::nfa::{label_texts, Nfa};

verus! {

/// The text that stands for the language without any word.
pub open spec fn nothing() -> Seq<char> {
    seq!['\u{2205}']
}

/// The repetition of `w`: `(w)*`, or the empty text where `w` is empty.
pub open spec fn starred(w: Seq<char>) -> Seq<char> {
    if w.len() > 0 {
        seq!['('] + w + seq![')', '*']
    } else {
        Seq::empty()
    }
}

/// The repetition that a state adds to what leads through it: that of the
/// label of its loop, or the empty text where it has no loop.
pub open spec fn loop_text(l: Option<Seq<char>>) -> Seq<char> {
    match l {
        Some(w) => starred(w),
        None => Seq::empty(),
    }
}

/// The alternation of the two texts `a` and `b`: `(a+b)`.
pub open spec fn either(a: Seq<char>, b: Seq<char>) -> Seq<char> {
    seq!['('] + a + seq!['+'] + b + seq![')']
}

/// The texts `labels` joined by `+`.
pub open spec fn joined(labels: Seq<Seq<char>>) -> Seq<char>
    decreases labels.len(),
{
    if labels.len() == 0 {
        Seq::empty()
    } else if labels.len() == 1 {
        labels[0]
    } else {
        joined(labels.drop_last()) + seq!['+'] + labels.last()
    }
}

/// The alternation of the texts `labels`: the one text alone, or several
/// joined by `+` and put in parentheses.
pub open spec fn alternation(labels: Seq<Seq<char>>) -> Seq<char> {
    if labels.len() > 1 {
        seq!['('] + joined(labels) + seq![')']
    } else {
        joined(labels)
    }
}

/// The labels of the transitions among `edges` that lead to `idx`, in order.
pub open spec fn labels_to(edges: Seq<(Seq<char>, u64)>, idx: u64) -> Seq<Seq<char>> {
    edges.filter(|e: (Seq<char>, u64)| e.1 == idx).map_values(|e: (Seq<char>, u64)| e.0)
}

/// The label between two nodes before any state is taken out. The nodes
/// are the states of `g` at their positions, then a new start node, then a
/// new accepting node. Between two states stands the alternation of the
/// labels of the transitions from the one to the other; from an accepting
/// state to the accepting node, and from the start node to the start state,
/// stands the empty text.
pub open spec fn first_entry(g: AutomatonModel<Seq<char>>, j: int, t: int) -> Option<Seq<char>> {
    let n = g.states.len() as int;
    if 0 <= j < n && 0 <= t < n {
        let ls = labels_to(g.states[j].edges, g.states[t].index);
        if ls.len() > 0 {
            Some(alternation(ls))
        } else {
            None
        }
    } else if 0 <= j < n && t == n + 1 {
        if g.states[j].terminal {
            Some(Seq::empty())
        } else {
            None
        }
    } else if j == n && 0 <= t < n && g.states[t].index == g.start {
        Some(Seq::empty())
    } else {
        None
    }
}

/// The label that leads from `j` to `t` once the state between them is
/// taken out: what led from `j` to the state (`a`), the repetition of the
/// loop of the state (`l`), and what led from the state to `t` (`b`), as an
/// alternative to what led from `j` to `t` before (`c`), if anything did.
pub open spec fn bypass(
    c: Option<Seq<char>>,
    a: Option<Seq<char>>,
    l: Option<Seq<char>>,
    b: Option<Seq<char>>,
) -> Option<Seq<char>> {
    match (a, b) {
        (Some(x), Some(y)) => {
            let via = x + loop_text(l) + y;
            match c {
                Some(z) => Some(either(z, via)),
                None => Some(via),
            }
        },
        _ => c,
    }
}

/// The label between the nodes `j` and `t` after the states at the first
/// `k` positions have been taken out, in ascending order.
pub open spec fn entry_after(g: AutomatonModel<Seq<char>>, k: nat, j: int, t: int) -> Option<
    Seq<char>,
>
    decreases k,
{
    if k == 0 {
        first_entry(g, j, t)
    } else {
        let i = (k - 1) as int;
        let before = (k - 1) as nat;
        if j == i || t == i {
            None
        } else {
            bypass(
                entry_after(g, before, j, t),
                entry_after(g, before, j, i),
                entry_after(g, before, i, i),
                entry_after(g, before, i, t),
            )
        }
    }
}

/// The regular expression of `g`: the label that is left between the start
/// node and the accepting node when every state has been taken out, or the
/// text for the language without any word where none is left.
pub open spec fn regex_text(g: AutomatonModel<Seq<char>>) -> Seq<char> {
    let n = g.states.len();
    match entry_after(g, n, n as int, n as int + 1) {
        Some(w) => w,
        None => nothing(),
    }
}

/// How many parentheses of `s` are open at its end.
pub open spec fn depth(s: Seq<char>) -> int
    decreases s.len(),
{
    if s.len() == 0 {
        0
    } else {
        depth(s.drop_last()) + if s.last() == '(' {
            1int
        } else if s.last() == ')' {
            -1int
        } else {
            0int
        }
    }
}

/// The parentheses of `s` are balanced: none is closed before it is
/// opened, and none is left open.
pub open spec fn balanced(s: Seq<char>) -> bool {
    &&& depth(s) == 0
    &&& forall|k: int| 0 <= k <= s.len() ==> depth(#[trigger] s.take(k)) >= 0
}

/// The open parentheses of two texts add up.
pub proof fn lemma_depth_add(a: Seq<char>, b: Seq<char>)
    ensures
        depth(a + b) == depth(a) + depth(b),
    decreases b.len(),
{
    if b.len() == 0 {
        assert(a + b =~= a);
    } else {
        assert((a + b).drop_last() =~= a + b.drop_last());
        lemma_depth_add(a, b.drop_last());
    }
}

/// Balanced texts joined end to end are balanced.
pub proof fn lemma_balanced_add(a: Seq<char>, b: Seq<char>)
    requires
        balanced(a),
        balanced(b),
    ensures
        balanced(a + b),
{
    lemma_depth_add(a, b);
    assert forall|k: int| 0 <= k <= (a + b).len() implies depth(#[trigger] (a + b).take(k))
        >= 0 by {
        if k <= a.len() {
            assert((a + b).take(k) =~= a.take(k));
        } else {
            assert((a + b).take(k) =~= a + b.take(k - a.len()));
            lemma_depth_add(a, b.take(k - a.len()));
        }
    }
}

/// A text of one character that is no parenthesis is balanced.
pub proof fn lemma_balanced_char(c: char)
    requires
        c != '(',
        c != ')',
    ensures
        balanced(seq![c]),
{
    let s = seq![c];
    assert(s.drop_last() =~= Seq::<char>::empty());
    assert(depth(s.drop_last()) == 0);
    assert(s.last() == c);
    assert(depth(s) == 0);
    assert forall|k: int| 0 <= k <= s.len() implies depth(#[trigger] s.take(k)) >= 0 by {
        if k == 0 {
            assert(s.take(0) =~= Seq::<char>::empty());
        } else {
            assert(s.take(1) =~= s);
        }
    }
}

/// The empty text is balanced.
pub proof fn lemma_balanced_empty()
    ensures
        balanced(Seq::<char>::empty()),
{
    let s = Seq::<char>::empty();
    assert forall|k: int| 0 <= k <= s.len() implies depth(#[trigger] s.take(k)) >= 0 by {
        assert(s.take(k) =~= s);
    }
}

/// A balanced text in parentheses is balanced.
pub proof fn lemma_balanced_wrap(a: Seq<char>)
    requires
        balanced(a),
    ensures
        balanced(seq!['('] + a + seq![')']),
{
    let o = seq!['('];
    let c = seq![')'];
    let s = o + a + c;
    assert(o.drop_last() =~= Seq::<char>::empty());
    assert(c.drop_last() =~= Seq::<char>::empty());
    assert(depth(o.drop_last()) == 0 && o.last() == '(');
    assert(depth(c.drop_last()) == 0 && c.last() == ')');
    assert(depth(o) == 1);
    assert(depth(c) == -1);
    lemma_depth_add(o, a);
    lemma_depth_add(o + a, c);
    assert forall|k: int| 0 <= k <= s.len() implies depth(#[trigger] s.take(k)) >= 0 by {
        if k == 0 {
            assert(s.take(0) =~= Seq::<char>::empty());
        } else if k <= a.len() + 1 {
            assert(s.take(k) =~= o + a.take(k - 1));
            lemma_depth_add(o, a.take(k - 1));
        } else {
            assert(s.take(k) =~= s);
        }
    }
}

/// The repetition of a balanced text is balanced.
pub proof fn lemma_balanced_starred(w: Seq<char>)
    requires
        balanced(w),
    ensures
        balanced(starred(w)),
{
    if w.len() > 0 {
        lemma_balanced_wrap(w);
        lemma_balanced_char('*');
        lemma_balanced_add(seq!['('] + w + seq![')'], seq!['*']);
        assert(starred(w) =~= (seq!['('] + w + seq![')']) + seq!['*']);
    } else {
        lemma_balanced_empty();
    }
}

/// The alternation of two balanced texts is balanced.
pub proof fn lemma_balanced_either(a: Seq<char>, b: Seq<char>)
    requires
        balanced(a),
        balanced(b),
    ensures
        balanced(either(a, b)),
{
    lemma_balanced_char('+');
    lemma_balanced_add(a, seq!['+']);
    lemma_balanced_add(a + seq!['+'], b);
    lemma_balanced_wrap(a + seq!['+'] + b);
    assert(either(a, b) =~= seq!['('] + (a + seq!['+'] + b) + seq![')']);
}

/// Balanced texts joined by `+` are balanced, and so is their alternation.
pub proof fn lemma_balanced_alternation(labels: Seq<Seq<char>>)
    requires
        forall|i: int| 0 <= i < labels.len() ==> balanced(#[trigger] labels[i]),
    ensures
        balanced(joined(labels)),
        balanced(alternation(labels)),
    decreases labels.len(),
{
    if labels.len() == 0 {
        lemma_balanced_empty();
    } else if labels.len() == 1 {
    } else {
        let rest = labels.drop_last();
        assert forall|i: int| 0 <= i < rest.len() implies balanced(#[trigger] rest[i]) by {
            assert(rest[i] == labels[i]);
        }
        lemma_balanced_alternation(rest);
        lemma_balanced_char('+');
        lemma_balanced_add(joined(rest), seq!['+']);
        lemma_balanced_add(joined(rest) + seq!['+'], labels.last());
        lemma_balanced_wrap(joined(labels));
    }
}

/// Every label of `g` is balanced.
pub open spec fn labels_balanced(g: AutomatonModel<Seq<char>>) -> bool {
    forall|k: int, e: int|
        0 <= k < g.states.len() && 0 <= e < g.states[k].edges.len() ==> balanced(
            (#[trigger] g.states[k].edges[e]).0,
        )
}

/// The labels that lead to one index are among the labels.
proof fn lemma_labels_to(edges: Seq<(Seq<char>, u64)>, idx: u64, i: int)
    requires
        0 <= i < labels_to(edges, idx).len(),
    ensures
        exists|e: int| 0 <= e < edges.len() && (#[trigger] edges[e]).0 == labels_to(edges, idx)[i],
    decreases edges.len(),
{
    reveal(Seq::filter);
    if edges.len() > 0 {
        let rest = edges.drop_last();
        lemma_labels_step(edges, idx, edges.len() - 1);
        assert(edges.take(edges.len() - 1) =~= rest);
        assert(edges.take(edges.len() as int) =~= edges);
        if i < labels_to(rest, idx).len() {
            lemma_labels_to(rest, idx, i);
            let e = choose|e: int|
                0 <= e < rest.len() && (#[trigger] rest[e]).0 == labels_to(rest, idx)[i];
            assert(edges[e].0 == labels_to(edges, idx)[i]);
        } else {
            assert(edges[edges.len() - 1].0 == labels_to(edges, idx)[i]);
        }
    }
}

/// One more transition adds its label to those that lead to an index, or not.
pub proof fn lemma_labels_step(edges: Seq<(Seq<char>, u64)>, idx: u64, k: int)
    requires
        0 <= k < edges.len(),
    ensures
        labels_to(edges.take(k + 1), idx) == if edges[k].1 == idx {
            labels_to(edges.take(k), idx).push(edges[k].0)
        } else {
            labels_to(edges.take(k), idx)
        },
{
    reveal(Seq::filter);
    assert(edges.take(k + 1).drop_last() =~= edges.take(k));
    assert(edges.take(k + 1).last() == edges[k]);
    let f = |e: (Seq<char>, u64)| e.1 == idx;
    let g = |e: (Seq<char>, u64)| e.0;
    if edges[k].1 == idx {
        assert(edges.take(k + 1).filter(f).map_values(g) =~= edges.take(k).filter(f).map_values(
            g,
        ).push(g(edges[k])));
    }
}

/// Where the labels of an automaton are balanced, every label that state
/// elimination writes is balanced.
pub proof fn lemma_entries_balanced(g: AutomatonModel<Seq<char>>, k: nat, j: int, t: int)
    requires
        labels_balanced(g),
    ensures
        entry_after(g, k, j, t) matches Some(w) ==> balanced(w),
    decreases k,
{
    if k == 0 {
        let n = g.states.len() as int;
        lemma_balanced_empty();
        if 0 <= j < n && 0 <= t < n {
            let ls = labels_to(g.states[j].edges, g.states[t].index);
            assert forall|i: int| 0 <= i < ls.len() implies balanced(#[trigger] ls[i]) by {
                lemma_labels_to(g.states[j].edges, g.states[t].index, i);
            }
            lemma_balanced_alternation(ls);
        }
    } else {
        let i = (k - 1) as int;
        let before = (k - 1) as nat;
        lemma_entries_balanced(g, before, j, t);
        lemma_entries_balanced(g, before, j, i);
        lemma_entries_balanced(g, before, i, i);
        lemma_entries_balanced(g, before, i, t);
        if j != i && t != i {
            match (entry_after(g, before, j, i), entry_after(g, before, i, t)) {
                (Some(x), Some(y)) => {
                    let l = entry_after(g, before, i, i);
                    lemma_balanced_empty();
                    match l {
                        Some(w) => {
                            lemma_balanced_starred(w);
                        },
                        None => {},
                    }
                    lemma_balanced_add(x, loop_text(l));
                    lemma_balanced_add(x + loop_text(l), y);
                    match entry_after(g, before, j, t) {
                        Some(z) => {
                            lemma_balanced_either(z, x + loop_text(l) + y);
                        },
                        None => {},
                    }
                },
                _ => {},
            }
        }
    }
}

/// Where the labels of an automaton are balanced, its regular expression
/// has balanced parentheses.
pub proof fn lemma_regex_balanced(g: AutomatonModel<Seq<char>>)
    requires
        labels_balanced(g),
    ensures
        balanced(regex_text(g)),
{
    let n = g.states.len();
    lemma_entries_balanced(g, n, n as int, n as int + 1);
    lemma_balanced_char('\u{2205}');
}

/// The text that an entry of the table holds, if it holds one.
pub open spec fn text_of(entry: Option<String>) -> Option<Seq<char>> {
    match entry {
        Some(s) => Some(s@),
        None => None,
    }
}

/// An entry equal to `entry`.
fn copy_entry(entry: &Option<String>) -> (r: Option<String>)
    ensures
        text_of(r) == text_of(*entry),
{
    match entry {
        Some(s) => Some(s.clone()),
        None => None,
    }
}

/// The alternation of the labels of the transitions among `edges` that
/// lead to `idx`, if there are any.
fn group_label(edges: &Vec<(String, u64)>, idx: u64) -> (r: Option<String>)
    ensures
        text_of(r) == if labels_to(label_texts(edges@), idx).len() > 0 {
            Some(alternation(labels_to(label_texts(edges@), idx)))
        } else {
            None
        },
{
    let ghost texts = label_texts(edges@);
    let mut count: usize = 0;
    let mut acc = String::new();
    let mut e: usize = 0;
    assert(labels_to(texts.take(0), idx) =~= Seq::empty()) by {
        reveal(Seq::filter);
    }
    while e < edges.len()
        invariant
            texts == label_texts(edges@),
            e <= edges@.len(),
            count <= e,
            count == labels_to(texts.take(e as int), idx).len(),
            acc@ == joined(labels_to(texts.take(e as int), idx)),
        decreases edges@.len() - e,
    {
        proof {
            lemma_labels_step(texts, idx, e as int);
        }
        assert(texts[e as int] == (edges@[e as int].0@, edges@[e as int].1));
        if edges[e].1 == idx {
            let ghost before = labels_to(texts.take(e as int), idx);
            let ghost now = before.push(edges@[e as int].0@);
            assert(now.drop_last() =~= before);
            if count > 0 {
                acc.push('+');
                assert(acc@ =~= joined(before) + seq!['+']);
            }
            acc.append(edges[e].0.as_str());
            assert(acc@ =~= joined(now));
            count += 1;
        }
        e += 1;
    }
    assert(texts.take(e as int) =~= texts);
    if count == 0 {
        None
    } else if count == 1 {
        Some(acc)
    } else {
        let mut r = String::new();
        r.push('(');
        r.append(acc.as_str());
        r.push(')');
        assert(r@ =~= seq!['('] + acc@ + seq![')']);
        Some(r)
    }
}

/// The repetition that the loop `l` adds.
fn loop_string(l: &Option<String>) -> (r: String)
    ensures
        r@ == loop_text(text_of(*l)),
{
    let mut r = String::new();
    match l {
        Some(w) => {
            if !w.as_str().is_empty() {
                r.push('(');
                r.append(w.as_str());
                r.push(')');
                r.push('*');
                assert(r@ =~= seq!['('] + w@ + seq![')', '*']);
            }
        },
        None => {},
    }
    r
}

/// The label that passes a state by.
fn bypass_string(c: &Option<String>, a: &Option<String>, star: &String, b: &Option<String>) -> (r:
    Option<String>)
    ensures
        forall|l: Option<Seq<char>>|
            loop_text(l) == star@ ==> text_of(r) == #[trigger] bypass(
                text_of(*c),
                text_of(*a),
                l,
                text_of(*b),
            ),
{
    match (a, b) {
        (Some(x), Some(y)) => {
            let mut via = x.clone();
            via.append(star.as_str());
            via.append(y.as_str());
            match c {
                Some(z) => {
                    let mut r = String::new();
                    r.push('(');
                    r.append(z.as_str());
                    r.push('+');
                    r.append(via.as_str());
                    r.push(')');
                    assert(r@ =~= either(z@, via@));
                    Some(r)
                },
                None => Some(via),
            }
        },
        _ => copy_entry(c),
    }
}

/// The entries of row `j` of the table hold the labels between the node
/// `j` and every node after `k` states have been taken out.
pub open spec fn row_holds(
    g: AutomatonModel<Seq<char>>,
    row: Seq<Option<String>>,
    k: nat,
    j: int,
) -> bool {
    &&& row.len() == g.states.len() + 2
    &&& forall|t: int| 0 <= t < row.len() ==> text_of(#[trigger] row[t]) == entry_after(g, k, j, t)
}

/// The first row of the node `j`.
fn first_row(g: &Nfa<String>, j: usize, sp: usize) -> (row: Vec<Option<String>>)
    requires
        g.ordered(),
        j <= g@.states.len() + 1,
        sp < g@.states.len(),
        g@.states[sp as int].index == g@.start,
    ensures
        row_holds(g@, row@, 0, j as int),
{
    let ghost m = g@;
    let states = g.states();
    let n = states.len();
    let mut row: Vec<Option<String>> = Vec::new();
    let mut t: usize = 0;
    while t < n
        invariant
            m == g@,
            m.sorted(),
            n == states@.len(),
            n == m.states.len(),
            forall|k: int| 0 <= k < n ==> (#[trigger] states@[k])@ == m.states[k],
            j <= n + 1,
            sp < n,
            m.states[sp as int].index == m.start,
            t <= n,
            row@.len() == t,
            forall|x: int|
                0 <= x < t ==> text_of(#[trigger] row@[x]) == entry_after(m, 0, j as int, x),
        decreases n - t,
    {
        assert(states@[t as int]@ == m.states[t as int]);
        if j < n {
            assert(states@[j as int]@ == m.states[j as int]);
            row.push(group_label(&states[j].transitions, states[t].index));
        } else if j == n && t == sp {
            row.push(Some(String::new()));
        } else {
            proof {
                if j == n && m.states[t as int].index == m.start {
                    m.lemma_position(t as int);
                    m.lemma_position(sp as int);
                }
            }
            row.push(None);
        }
        t += 1;
    }
    row.push(None);
    if j < n {
        assert(states@[j as int]@ == m.states[j as int]);
        if states[j].is_terminal {
            row.push(Some(String::new()));
        } else {
            row.push(None);
        }
    } else {
        row.push(None);
    }
    row
}

/// The row of the node `j` after the state at position `i` has been taken
/// out, from the row before and the row of that state.
fn next_row(
    old_row: &Vec<Option<String>>,
    row_i: &Vec<Option<String>>,
    star: &String,
    i: usize,
    j: usize,
    Ghost(g): Ghost<AutomatonModel<Seq<char>>>,
) -> (row: Vec<Option<String>>)
    requires
        row_holds(g, old_row@, i as nat, j as int),
        row_holds(g, row_i@, i as nat, i as int),
        star@ == loop_text(entry_after(g, i as nat, i as int, i as int)),
        i < g.states.len(),
    ensures
        row_holds(g, row@, (i + 1) as nat, j as int),
{
    let total = old_row.len();
    let mut row: Vec<Option<String>> = Vec::new();
    let mut t: usize = 0;
    while t < total
        invariant
            row_holds(g, old_row@, i as nat, j as int),
            row_holds(g, row_i@, i as nat, i as int),
            star@ == loop_text(entry_after(g, i as nat, i as int, i as int)),
            i < g.states.len(),
            total == old_row@.len(),
            t <= total,
            row@.len() == t,
            forall|x: int|
                0 <= x < t ==> text_of(#[trigger] row@[x]) == entry_after(
                    g,
                    (i + 1) as nat,
                    j as int,
                    x,
                ),
        decreases total - t,
    {
        if j == i || t == i {
            row.push(None);
        } else {
            let entry = bypass_string(&old_row[t], &old_row[i], star, &row_i[t]);
            proof {
                let l = entry_after(g, i as nat, i as int, i as int);
                assert(text_of(entry) == bypass(
                    text_of(old_row@[t as int]),
                    text_of(old_row@[i as int]),
                    l,
                    text_of(row_i@[t as int]),
                ));
            }
            row.push(entry);
        }
        t += 1;
    }
    row
}

/// The text for the language without any word.
pub fn nothing_string() -> (s: String)
    ensures
        s@ == nothing(),
{
    let mut s = String::new();
    s.push('\u{2205}');
    assert(s@ =~= nothing());
    s
}

/// The regular expression of the automaton `g` by state elimination, the
/// states taken out in ascending order of index. Fails with a lookup error
/// where the start index names no state.
pub fn synthesize(g: &Nfa<String>) -> (r: Result<String, AutomatonError>)
    requires
        g.ordered(),
    ensures
        !g@.has_state(g@.start) ==> r == Err::<String, AutomatonError>(AutomatonError::LookupError),
        g@.has_state(g@.start) ==> (r matches Ok(s) && s@ == regex_text(g@)),
        r matches Ok(s) ==> (labels_balanced(g@) ==> balanced(s@)),
{
    let ghost m = g@;
    let sp = match g.find(g.starting_state()) {
        Some(sp) => sp,
        None => {
            return Err(AutomatonError::LookupError);
        },
    };
    let n = g.states().len();
    let mut table: Vec<Vec<Option<String>>> = Vec::new();
    let mut j: usize = 0;
    while j < n
        invariant
            m == g@,
            g.ordered(),
            n == m.states.len(),
            sp < n,
            m.states[sp as int].index == m.start,
            j <= n,
            table@.len() == j,
            forall|x: int| 0 <= x < j ==> row_holds(m, (#[trigger] table@[x])@, 0, x),
        decreases n - j,
    {
        table.push(first_row(g, j, sp));
        j += 1;
    }
    let start_row = first_row(g, n, sp);
    let width = start_row.len();
    assert(width == n + 2);
    table.push(start_row);
    table.push(first_row(g, n + 1, sp));
    let mut i: usize = 0;
    while i < n
        invariant
            n == m.states.len(),
            n + 2 <= usize::MAX,
            i <= n,
            table@.len() == n + 2,
            forall|x: int| 0 <= x < n + 2 ==> row_holds(m, (#[trigger] table@[x])@, i as nat, x),
        decreases n - i,
    {
        assert(row_holds(m, table@[i as int]@, i as nat, i as int));
        let star = loop_string(&table[i][i]);
        let mut next: Vec<Vec<Option<String>>> = Vec::new();
        let mut j: usize = 0;
        while j < n + 2
            invariant
                n == m.states.len(),
                n + 2 <= usize::MAX,
                i < n,
                j <= n + 2,
                table@.len() == n + 2,
                forall|x: int|
                    0 <= x < n + 2 ==> row_holds(m, (#[trigger] table@[x])@, i as nat, x),
                star@ == loop_text(entry_after(m, i as nat, i as int, i as int)),
                next@.len() == j,
                forall|x: int|
                    0 <= x < j ==> row_holds(m, (#[trigger] next@[x])@, (i + 1) as nat, x),
            decreases n + 2 - j,
        {
            assert(row_holds(m, table@[j as int]@, i as nat, j as int));
            assert(row_holds(m, table@[i as int]@, i as nat, i as int));
            next.push(next_row(&table[j], &table[i], &star, i, j, Ghost(m)));
            j += 1;
        }
        table = next;
        i += 1;
    }
    assert(row_holds(m, table@[n as int]@, n as nat, n as int));
    let text = match copy_entry(&table[n][n + 1]) {
        Some(w) => w,
        None => nothing_string(),
    };
    proof {
        if labels_balanced(m) {
            lemma_regex_balanced(m);
        }
    }
    Ok(text)
}

/// What the regular expression of `m` is, or why there is none: that of the
/// deterministic automaton of `m`, each of its symbols a label.
pub open spec fn regex_of_words(m: AutomatonModel<Seq<char>>) -> Result<Seq<char>, AutomatonError> {
    match dfa_of_words(m) {
        Ok(d) => Ok(regex_text(as_words(d))),
        Err(e) => Err(e),
    }
}

/// The text that `r` holds, or its error.
pub open spec fn text_model(r: Result<String, AutomatonError>) -> Result<
    Seq<char>,
    AutomatonError,
> {
    match r {
        Ok(s) => Ok(s@),
        Err(e) => Err(e),
    }
}

/// No symbol of `d` is a parenthesis.
pub open spec fn symbols_plain(d: AutomatonModel<char>) -> bool {
    forall|k: int, e: int|
        0 <= k < d.states.len() && 0 <= e < d.states[k].edges.len() ==> (
        #[trigger] d.states[k].edges[e]).0 != '(' && d.states[k].edges[e].0 != ')'
}

/// The labels of an automaton whose symbols are no parentheses are balanced.
pub proof fn lemma_plain_balanced(d: AutomatonModel<char>)
    requires
        symbols_plain(d),
    ensures
        labels_balanced(as_words(d)),
{
    let g = as_words(d);
    assert forall|k: int, e: int|
        0 <= k < g.states.len() && 0 <= e < g.states[k].edges.len() implies balanced(
        (#[trigger] g.states[k].edges[e]).0,
    ) by {
        lemma_balanced_char(d.states[k].edges[e].0);
    }
}

impl Dfa {
    /// The regular expression of the automaton by state elimination. Fails
    /// with a lookup error where the start index names no state.
    pub fn to_regex(&self) -> (r: Result<String, AutomatonError>)
        requires
            self.ordered(),
        ensures
            !self@.has_state(self@.start) ==> r == Err::<String, AutomatonError>(
                AutomatonError::LookupError,
            ),
            self@.has_state(self@.start) ==> (r matches Ok(s) && s@ == regex_text(
                as_words(self@),
            )),
            r matches Ok(s) ==> (symbols_plain(self@) ==> balanced(s@)),
    {
        let g = self.to_nfa();
        proof {
            lemma_words_states(self@);
            if symbols_plain(self@) {
                lemma_plain_balanced(self@);
            }
        }
        synthesize(&g)
    }
}

/// The automaton with symbols as labels has the states of the automaton,
/// under their indices.
pub proof fn lemma_words_states(d: AutomatonModel<char>)
    ensures
        forall|idx: u64| #[trigger] as_words(d).has_state(idx) <==> d.has_state(idx),
        as_words(d).start == d.start,
{
    let g = as_words(d);
    assert forall|idx: u64| #[trigger] g.has_state(idx) <==> d.has_state(idx) by {
        if g.has_state(idx) {
            let k = g.position(idx);
            assert(d.states[k].index == idx);
        }
        if d.has_state(idx) {
            let k = d.position(idx);
            assert(g.states[k].index == idx);
        }
    }
}

/// Where no label of an automaton holds a parenthesis, no symbol of its
/// deterministic automaton is one.
pub proof fn lemma_plain_symbols(m: AutomatonModel<Seq<char>>, d: AutomatonModel<char>)
    requires
        plain(m),
        m.sorted(),
        is_subset_dfa(unit_model(split(compressed(m))), d),
    ensures
        symbols_plain(d),
{
    let c = compressed(m);
    let s = split(c);
    let cm = unit_model(s);
    lemma_compressed_plain(m);
    lemma_compressed_closed(m);
    lemma_split_plain(c);
    lemma_subset_symbols(cm, d);
    assert forall|k: int, e: int|
        0 <= k < d.states.len() && 0 <= e < d.states[k].edges.len() implies (
    #[trigger] d.states[k].edges[e]).0 != '(' && d.states[k].edges[e].0 != ')' by {
        let x = d.states[k].edges[e].0;
        assert(dfa_has_symbol(cm, x));
        let (j, f) = choose|j: int, f: int|
            0 <= j < cm.states.len() && 0 <= f < cm.states[j].edges.len() && (
            #[trigger] cm.states[j].edges[f]).0 == x;
        assert(s.states[j].edges[f].0.len() == 1);
        assert(s.states[j].edges[f].0[0] == x);
    }
}

impl ToRegex for Nfa<String> {
    /// The regular expression of the deterministic automaton of this
    /// automaton. Fails as the conversion to that automaton fails.
    fn to_regex(&self) -> (r: Result<String, AutomatonError>)
        ensures
            text_model(r) == regex_of_words(self@),
            r matches Ok(s) ==> (plain(self@) ==> balanced(s@)),
    {
        match self.to_dfa() {
            Ok(d) => {
                proof {
                    if plain(self@) {
                        lemma_plain_symbols(self@, d@);
                    }
                }
                d.to_regex()
            },
            Err(e) => Err(e),
        }
    }
}

impl ToRegex for Nfa<char> {
    /// The regular expression of the deterministic automaton of this
    /// automaton. Fails as the conversion to that automaton fails.
    fn to_regex(&self) -> (r: Result<String, AutomatonError>)
        ensures
            text_model(r) == regex_of_words(self@),
            r matches Ok(s) ==> (plain(self@) ==> balanced(s@)),
    {
        self.to_nfa_string().to_regex()
    }
}

} // verus!
