//! Rows and tables of marks, and how many entries are still unmarked: the
//! measure by which the searches of this library end.

use vstd::prelude::*;

verus! {

/// The number of entries of `v` that are not marked.
pub open spec fn unmarked(v: Seq<bool>) -> nat
    decreases v.len(),
{
    if v.len() == 0 {
        0
    } else {
        unmarked(v.drop_last()) + if v.last() {
            0nat
        } else {
            1nat
        }
    }
}

/// Marking an unmarked entry leaves one unmarked entry less.
pub proof fn lemma_mark(v: Seq<bool>, i: int)
    requires
        0 <= i < v.len(),
        !v[i],
    ensures
        unmarked(v.update(i, true)) + 1 == unmarked(v),
    decreases v.len(),
{
    let u = v.update(i, true);
    if i == v.len() - 1 {
        assert(u.drop_last() =~= v.drop_last());
    } else {
        assert(u.drop_last() =~= v.drop_last().update(i, true));
        lemma_mark(v.drop_last(), i);
    }
}

/// The number of entries in the rows of `g` that are not marked.
pub open spec fn unmarked_in(g: Seq<Vec<bool>>) -> nat
    decreases g.len(),
{
    if g.len() == 0 {
        0
    } else {
        unmarked_in(g.drop_last()) + unmarked(g.last()@)
    }
}

/// Marking an unmarked entry of one row leaves one unmarked entry less in
/// the table.
pub proof fn lemma_mark_in(g: Seq<Vec<bool>>, h: Seq<Vec<bool>>, i: int, j: int)
    requires
        0 <= i < g.len(),
        0 <= j < g[i]@.len(),
        !g[i]@[j],
        h.len() == g.len(),
        h[i]@ == g[i]@.update(j, true),
        forall|k: int| 0 <= k < g.len() && k != i ==> h[k]@ == g[k]@,
    ensures
        unmarked_in(h) + 1 == unmarked_in(g),
    decreases g.len(),
{
    if i == g.len() - 1 {
        lemma_mark(g[i]@, j);
        lemma_same_marks(g.drop_last(), h.drop_last());
    } else {
        lemma_mark_in(g.drop_last(), h.drop_last(), i, j);
    }
}

/// Tables with the same rows have the same number of unmarked entries.
pub proof fn lemma_same_marks(g: Seq<Vec<bool>>, h: Seq<Vec<bool>>)
    requires
        h.len() == g.len(),
        forall|k: int| 0 <= k < g.len() ==> h[k]@ == g[k]@,
    ensures
        unmarked_in(h) == unmarked_in(g),
    decreases g.len(),
{
    if g.len() > 0 {
        lemma_same_marks(g.drop_last(), h.drop_last());
    }
}

/// A row of `n` entries, none of them marked.
pub fn blank_row(n: usize) -> (v: Vec<bool>)
    ensures
        v@.len() == n,
        forall|i: int| 0 <= i < n ==> !v@[i],
{
    let mut v: Vec<bool> = Vec::new();
    let mut i: usize = 0;
    while i < n
        invariant
            i <= n,
            v@.len() == i,
            forall|k: int| 0 <= k < i ==> !v@[k],
        decreases n - i,
    {
        v.push(false);
        i += 1;
    }
    v
}

/// A table of `rows` rows of `cols` entries each, none of them marked.
pub fn blank_table(rows: usize, cols: usize) -> (g: Vec<Vec<bool>>)
    ensures
        g@.len() == rows,
        forall|i: int| 0 <= i < rows ==> (#[trigger] g@[i])@.len() == cols,
        forall|i: int, j: int| 0 <= i < rows && 0 <= j < cols ==> !(#[trigger] g@[i]@[j]),
{
    let mut g: Vec<Vec<bool>> = Vec::new();
    let mut i: usize = 0;
    while i < rows
        invariant
            i <= rows,
            g@.len() == i,
            forall|k: int| 0 <= k < i ==> (#[trigger] g@[k])@.len() == cols,
            forall|k: int, j: int| 0 <= k < i && 0 <= j < cols ==> !(#[trigger] g@[k]@[j]),
        decreases rows - i,
    {
        g.push(blank_row(cols));
        i += 1;
    }
    g
}

} // verus!
