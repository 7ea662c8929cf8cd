//! Sets of input symbols, held as strictly ascending vectors.

use vstd::prelude::*;

verus! {

/// The symbols of `a` stand in strictly ascending order.
pub open spec fn ascending(a: Seq<char>) -> bool {
    forall|i: int, j: int| 0 <= i < j < a.len() ==> a[i] < a[j]
}

/// Two ascending sequences with the same members are the same sequence.
pub proof fn lemma_ascending_unique(a: Seq<char>, b: Seq<char>)
    requires
        ascending(a),
        ascending(b),
        forall|c: char| a.contains(c) <==> b.contains(c),
    ensures
        a == b,
    decreases a.len(),
{
    if a.len() == 0 {
        if b.len() > 0 {
            assert(b.contains(b[0]));
        }
        assert(a =~= b);
    } else {
        let x = a.last();
        assert(a.contains(x));
        assert(b.contains(x));
        let y = b.last();
        assert(b.contains(y));
        assert(x == y) by {
            let j = choose|j: int| 0 <= j < b.len() && b[j] == x;
            let i = choose|i: int| 0 <= i < a.len() && a[i] == y;
            if j < b.len() - 1 {
                assert(b[j] < b[b.len() - 1]);
            }
            if i < a.len() - 1 {
                assert(a[i] < a[a.len() - 1]);
            }
        }
        let a1 = a.drop_last();
        let b1 = b.drop_last();
        assert forall|c: char| a1.contains(c) <==> b1.contains(c) by {
            if a1.contains(c) {
                let i = choose|i: int| 0 <= i < a1.len() && a1[i] == c;
                assert(a[i] == c);
                assert(a.contains(c));
                let j = choose|j: int| 0 <= j < b.len() && b[j] == c;
                assert(j < b.len() - 1);
                assert(b1[j] == c);
            }
            if b1.contains(c) {
                let j = choose|j: int| 0 <= j < b1.len() && b1[j] == c;
                assert(b[j] == c);
                assert(b.contains(c));
                let i = choose|i: int| 0 <= i < a.len() && a[i] == c;
                assert(i < a.len() - 1);
                assert(a1[i] == c);
            }
        }
        lemma_ascending_unique(a1, b1);
        assert(a =~= a1.push(x));
        assert(b =~= b1.push(y));
    }
}

/// Adds `c` to the ascending vector `a`, unless it is there already.
pub fn insert_symbol(a: &mut Vec<char>, c: char)
    requires
        ascending(old(a)@),
    ensures
        ascending(final(a)@),
        forall|x: char| #[trigger] final(a)@.contains(x) <==> (old(a)@.contains(x) || x == c),
{
    let mut p: usize = 0;
    while p < a.len() && a[p] < c
        invariant
            a@ == old(a)@,
            p <= a.len(),
            forall|k: int| 0 <= k < p ==> a@[k] < c,
        decreases a.len() - p,
    {
        p += 1;
    }
    if p < a.len() && a[p] == c {
        assert(a@.contains(c));
    } else {
        let ghost before = a@;
        a.insert(p, c);
        assert forall|i: int, j: int| 0 <= i < j < a@.len() implies a@[i] < a@[j] by {
            if i < p && j > p {
                assert(before[i] < before[j - 1]);
            }
        }
        assert forall|x: char| #[trigger] a@.contains(x) <==> (before.contains(x) || x == c) by {
            if a@.contains(x) {
                let i = choose|i: int| 0 <= i < a@.len() && a@[i] == x;
                if i < p {
                    assert(before[i] == x);
                } else if i > p {
                    assert(before[i - 1] == x);
                }
            }
            if before.contains(x) {
                let i = choose|i: int| 0 <= i < before.len() && before[i] == x;
                if i < p {
                    assert(a@[i] == x);
                } else {
                    assert(a@[i + 1] == x);
                }
            }
            if x == c {
                assert(a@[p as int] == x);
            }
        }
    }
}

} // verus!
