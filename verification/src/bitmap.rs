//! Bitmaps with rank addressing.
//!
//! A bitmap marks which positions of a sparse array are occupied. The
//! occupied positions are stored densely, in ascending order, and the rank of
//! a position (the number of marked positions below it) is its index in the
//! dense array.

use vstd::prelude::*;

verus! {

/// Whether position `i` is marked in `bitmap`.
pub open spec fn has_bit(bitmap: u32, i: int) -> bool {
    0 <= i < 32 && (bitmap >> (i as u32)) & 1 == 1
}

/// The number of marked positions below `i`.
pub open spec fn rank(bitmap: u32, i: int) -> int
    decreases i,
{
    if i <= 0 {
        0
    } else {
        rank(bitmap, i - 1) + if has_bit(bitmap, i - 1) { 1int } else { 0int }
    }
}

/// The number of marked positions.
pub open spec fn popcount(bitmap: u32) -> int {
    rank(bitmap, 32)
}

/// Or-ing a bit in marks its position and no other.
proof fn lemma_or_bit(bitmap: u32, i: u32, k: u32)
    by (bit_vector)
    requires
        i < 32,
        k < 32,
    ensures
        ((bitmap | (1u32 << i)) >> k) & 1 == 1 <==> (k == i || (bitmap >> k) & 1 == 1),
{
}

/// And-ing a bit out clears its position and no other.
proof fn lemma_and_not_bit(bitmap: u32, i: u32, k: u32)
    by (bit_vector)
    requires
        i < 32,
        k < 32,
    ensures
        ((bitmap & !(1u32 << i)) >> k) & 1 == 1 <==> (k != i && (bitmap >> k) & 1 == 1),
{
}

/// Zero has no bit set.
proof fn lemma_zero_bit(k: u32)
    by (bit_vector)
    requires
        k < 32,
    ensures
        (0u32 >> k) & 1 == 0,
{
}

/// Marking a position below 16 keeps a bitmap below 2^16.
proof fn lemma_or_bit_low(bitmap: u32, i: u32)
    by (bit_vector)
    requires
        i < 16,
        bitmap < 0x10000,
    ensures
        (bitmap | (1u32 << i)) < 0x10000,
{
}

/// Clearing a position keeps a bitmap below 2^16.
proof fn lemma_and_not_bit_low(bitmap: u32, i: u32)
    by (bit_vector)
    requires
        i < 32,
        bitmap < 0x10000,
    ensures
        (bitmap & !(1u32 << i)) < 0x10000,
{
}

/// A bitmap below 2^16 has no bit set from position 16 on.
proof fn lemma_low_has_no_high_bit(bitmap: u32, k: u32)
    by (bit_vector)
    requires
        bitmap < 0x10000,
        16 <= k < 32,
    ensures
        (bitmap >> k) & 1 == 0,
{
}

/// The empty bitmap marks nothing below `i`.
proof fn lemma_empty_rank(i: int)
    ensures
        !has_bit(0, i),
        rank(0, i) == 0,
    decreases i,
{
    if 0 <= i < 32 {
        lemma_zero_bit(i as u32);
    }
    if i > 0 {
        lemma_empty_rank(i - 1);
    }
}

/// The empty bitmap marks nothing.
pub proof fn lemma_empty()
    ensures
        forall|i: int| !has_bit(0, i),
        forall|i: int| rank(0, i) == 0,
{
    assert forall|i: int| !has_bit(0, i) && rank(0, i) == 0 by {
        lemma_empty_rank(i);
    }
}

/// The rank never exceeds the position, grows with it, and stops growing at 32.
pub proof fn lemma_rank_bounds(bitmap: u32, i: int)
    ensures
        0 <= rank(bitmap, i),
        i >= 0 ==> rank(bitmap, i) <= i,
        i >= 32 ==> rank(bitmap, i) == popcount(bitmap),
    decreases i,
{
    if i > 0 {
        lemma_rank_bounds(bitmap, i - 1);
    }
}

/// Ranks are monotone in the position.
pub proof fn lemma_rank_monotone(bitmap: u32, i: int, j: int)
    requires
        i <= j,
    ensures
        rank(bitmap, i) <= rank(bitmap, j),
    decreases j - i,
{
    lemma_rank_bounds(bitmap, i);
    if i < j {
        lemma_rank_monotone(bitmap, i, j - 1);
    }
}

/// A marked position has a rank below that of every later position, so
/// marked positions have distinct ranks, all below the population count.
pub proof fn lemma_rank_strict(bitmap: u32, i: int, j: int)
    requires
        has_bit(bitmap, i),
        i < j,
    ensures
        rank(bitmap, i) < rank(bitmap, j),
{
    lemma_rank_monotone(bitmap, i + 1, j);
}

/// Every index below the population count is the rank of one marked position.
pub proof fn lemma_rank_onto(bitmap: u32, n: int, r: int) -> (i: int)
    requires
        0 <= r < rank(bitmap, n),
    ensures
        0 <= i < n,
        has_bit(bitmap, i),
        rank(bitmap, i) == r,
    decreases n,
{
    if has_bit(bitmap, n - 1) && rank(bitmap, n - 1) == r {
        n - 1
    } else {
        lemma_rank_onto(bitmap, n - 1, r)
    }
}

/// How marking one more position moves the ranks.
pub proof fn lemma_rank_marked(old_bitmap: u32, new_bitmap: u32, i: int, n: int)
    requires
        0 <= i < 32,
        !has_bit(old_bitmap, i),
        forall|k: int| has_bit(new_bitmap, k) == (k == i || has_bit(old_bitmap, k)),
    ensures
        rank(new_bitmap, n) == rank(old_bitmap, n) + if n > i { 1int } else { 0int },
    decreases n,
{
    if n > 0 {
        lemma_rank_marked(old_bitmap, new_bitmap, i, n - 1);
    }
}

/// How clearing one position moves the ranks.
pub proof fn lemma_rank_cleared(old_bitmap: u32, new_bitmap: u32, i: int, n: int)
    requires
        0 <= i < 32,
        has_bit(old_bitmap, i),
        forall|k: int| has_bit(new_bitmap, k) == (k != i && has_bit(old_bitmap, k)),
    ensures
        rank(new_bitmap, n) == rank(old_bitmap, n) - if n > i { 1int } else { 0int },
    decreases n,
{
    if n > 0 {
        lemma_rank_cleared(old_bitmap, new_bitmap, i, n - 1);
    }
}

/// A bitmap below 2^16 marks nothing from position 16 on.
pub proof fn lemma_low_bitmap(bitmap: u32, n: int)
    requires
        bitmap < 0x10000,
    ensures
        forall|k: int| 16 <= k ==> !has_bit(bitmap, k),
        n >= 16 ==> rank(bitmap, n) == rank(bitmap, 16),
    decreases n,
{
    assert forall|k: int| 16 <= k implies !has_bit(bitmap, k) by {
        if k < 32 {
            lemma_low_has_no_high_bit(bitmap, k as u32);
        }
    }
    if n > 16 {
        lemma_low_bitmap(bitmap, n - 1);
    }
}

/// Tests whether position `i` is marked.
pub fn test_bit(bitmap: u32, i: u32) -> (r: bool)
    requires
        i < 32,
    ensures
        r == has_bit(bitmap, i as int),
{
    (bitmap >> i) & 1 == 1
}

/// Marks position `i`.
pub fn set_bit(bitmap: u32, i: u32) -> (r: u32)
    requires
        i < 32,
    ensures
        forall|k: int| has_bit(r, k) == (k == i || has_bit(bitmap, k)),
        i < 16 && bitmap < 0x10000 ==> r < 0x10000,
{
    let r: u32 = bitmap | (1u32 << i);
    proof {
        assert forall|k: int| has_bit(r, k) == (k == i || has_bit(bitmap, k)) by {
            if 0 <= k < 32 {
                lemma_or_bit(bitmap, i, k as u32);
            }
        }
        if i < 16 && bitmap < 0x10000 {
            lemma_or_bit_low(bitmap, i);
        }
    }
    r
}

/// Clears position `i`.
pub fn clear_bit(bitmap: u32, i: u32) -> (r: u32)
    requires
        i < 32,
    ensures
        forall|k: int| has_bit(r, k) == (k != i && has_bit(bitmap, k)),
        bitmap < 0x10000 ==> r < 0x10000,
{
    let r: u32 = bitmap & !(1u32 << i);
    proof {
        assert forall|k: int| has_bit(r, k) == (k != i && has_bit(bitmap, k)) by {
            if 0 <= k < 32 {
                lemma_and_not_bit(bitmap, i, k as u32);
            }
        }
        if bitmap < 0x10000 {
            lemma_and_not_bit_low(bitmap, i);
        }
    }
    r
}

/// Counts the marked positions below `i`: the index, in the dense array, of
/// what position `i` holds or would hold.
pub fn rank_of(bitmap: u32, i: u32) -> (r: usize)
    requires
        i <= 32,
    ensures
        r == rank(bitmap, i as int),
{
    let mut n: usize = 0;
    let mut k: u32 = 0;
    while k < i
        invariant
            k <= i <= 32,
            n == rank(bitmap, k as int),
            n <= k,
        decreases i - k,
    {
        if test_bit(bitmap, k) {
            n = n + 1;
        }
        k = k + 1;
    }
    n
}

} // verus!
