//! Sets of small indices held in the bits of one machine word.

use vstd::prelude::*;

verus! {

/// The index `i` is a member of the set that `mask` holds.
pub open spec fn bit(mask: u64, i: u64) -> bool {
    i < 64 && (mask >> i) & 1 == 1
}

/// The empty word holds nothing.
pub proof fn lemma_bit_zero(i: u64)
    ensures
        !bit(0, i),
{
    assert((0u64 >> i) & 1 == 0) by (bit_vector);
}

/// The word with one bit holds one index.
pub proof fn lemma_bit_single(i: u64, j: u64)
    requires
        i < 64,
    ensures
        bit(1u64 << i, j) <==> j == i,
        1u64 << i != 0,
{
    assert(i < 64 && j < 64 ==> ((((1u64 << i) >> j) & 1 == 1) <==> j == i)) by (bit_vector);
    assert(i < 64 ==> 1u64 << i != 0) by (bit_vector);
}

/// The union of two words holds what either holds.
pub proof fn lemma_bit_or(a: u64, b: u64, j: u64)
    ensures
        bit(a | b, j) <==> bit(a, j) || bit(b, j),
{
    assert((((a | b) >> j) & 1 == 1) <==> (((a >> j) & 1 == 1) || ((b >> j) & 1 == 1)))
        by (bit_vector);
}

/// A word that is not empty from the bit `k` upwards holds an index from
/// `k` upwards.
proof fn lemma_some_bit(x: u64, k: u64) -> (j: u64)
    requires
        k < 64,
        x >> k != 0,
    ensures
        k <= j < 64,
        bit(x, j),
    decreases 64 - k,
{
    if (x >> k) & 1 == 1 {
        k
    } else {
        assert(k < 64 && (x >> k) != 0 && (x >> k) & 1 != 1 ==> k < 63 && (x >> ((k + 1) as u64))
            != 0) by (bit_vector);
        lemma_some_bit(x, (k + 1) as u64)
    }
}

/// Words that hold the same indices are the same word.
pub proof fn lemma_bits_decide(a: u64, b: u64)
    requires
        forall|j: u64| bit(a, j) == bit(b, j),
    ensures
        a == b,
{
    if a != b {
        let x = a ^ b;
        assert(a != b ==> (a ^ b) >> 0 != 0) by (bit_vector);
        let j = lemma_some_bit(x, 0);
        assert(j < 64 && ((a ^ b) >> j) & 1 == 1 ==> (((a >> j) & 1 == 1) != ((b >> j) & 1 == 1)))
            by (bit_vector);
        assert(bit(a, j) != bit(b, j));
    }
}

/// A word that is not empty holds an index.
pub proof fn lemma_not_empty(a: u64) -> (j: u64)
    requires
        a != 0,
    ensures
        bit(a, j),
{
    assert(a != 0 ==> a >> 0 != 0) by (bit_vector);
    lemma_some_bit(a, 0)
}

/// Whether the word `mask` holds the index `i`.
pub fn has_bit(mask: u64, i: u64) -> (b: bool)
    requires
        i < 64,
    ensures
        b == bit(mask, i),
{
    (mask >> i) & 1 == 1
}

/// The word `mask` with the index `i` added.
pub fn with_bit(mask: u64, i: u64) -> (r: u64)
    requires
        i < 64,
    ensures
        forall|j: u64| bit(r, j) <==> bit(mask, j) || j == i,
        r != 0,
{
    let r = mask | (1u64 << i);
    proof {
        assert forall|j: u64| bit(r, j) <==> bit(mask, j) || j == i by {
            lemma_bit_or(mask, 1u64 << i, j);
            lemma_bit_single(i, j);
        }
        lemma_bit_single(i, i);
        lemma_bit_zero(i);
    }
    r
}

} // verus!
