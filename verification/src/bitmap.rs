//! The bitmap allocator: single bits for inodes and data blocks, and whole
//! 32-bit words for index blocks used as single-indirect tables.
//!
//! A bitmap region is a flat run of `u32` words; bit `i` of the region is
//! bit `i % 32` of word `i / 32`.  Allocation is first-fit over a caller's
//! range, with no free list and no hinting.

use vstd::prelude::*;
use std::ops::Range;

verus! {

/// Bit `b` of the word `w`.
pub open spec fn word_bit(w: u32, b: u32) -> bool {
    (w >> b) & 1u32 == 1u32
}

/// Bit `i` of a flat bitmap region.
pub open spec fn bm_bit(bm: Seq<u32>, i: int) -> bool {
    word_bit(bm[i / 32], (i % 32) as u32)
}

/// Setting bit `b` leaves every other bit of the word alone.
pub proof fn lemma_word_set_bit(w: u32, b: u32, c: u32)
    requires
        b < 32,
        c < 32,
    ensures
        word_bit(w | (1u32 << b), c) == if b == c { true } else { word_bit(w, c) },
{
    assert(((w | (1u32 << b)) >> c) & 1u32 == if b == c { 1u32 } else { (w >> c) & 1u32 })
        by (bit_vector)
        requires b < 32 && c < 32;
}

/// Clearing bit `b` leaves every other bit of the word alone.
pub proof fn lemma_word_clear_bit(w: u32, b: u32, c: u32)
    requires
        b < 32,
        c < 32,
    ensures
        word_bit(w & !(1u32 << b), c) == if b == c { false } else { word_bit(w, c) },
{
    assert(((w & !(1u32 << b)) >> c) & 1u32 == if b == c { 0u32 } else { (w >> c) & 1u32 })
        by (bit_vector)
        requires b < 32 && c < 32;
}

/// Every bit of an all-zero word is clear, every bit of an all-one word set.
pub proof fn lemma_word_extremes(c: u32)
    requires
        c < 32,
    ensures
        !word_bit(0u32, c),
        word_bit(0xffff_ffffu32, c),
{
    assert((0u32 >> c) & 1u32 == 0u32 && (0xffff_ffffu32 >> c) & 1u32 == 1u32) by (bit_vector)
        requires c < 32;
}

/// State of bit `index`: `true` means occupied, `false` free.
pub fn get_state(bitmap_blocks: &Vec<u32>, index: usize) -> (r: bool)
    requires
        index / 32 < bitmap_blocks@.len(),
    ensures
        r == bm_bit(bitmap_blocks@, index as int),
{
    let w = bitmap_blocks[index / 32];
    let b = (index % 32) as u32;
    (w >> b) & 1u32 == 1u32
}

/// Set or clear bit `index`, leaving every other bit and every other word
/// as it was.
pub fn set_state(bitmap_blocks: &mut Vec<u32>, index: usize, state: bool)
    requires
        index / 32 < old(bitmap_blocks)@.len(),
    ensures
        final(bitmap_blocks)@.len() == old(bitmap_blocks)@.len(),
        bm_bit(final(bitmap_blocks)@, index as int) == state,
        forall|j: int|
            0 <= j < old(bitmap_blocks)@.len() * 32 && j != index
                ==> bm_bit(final(bitmap_blocks)@, j) == bm_bit(old(bitmap_blocks)@, j),
        forall|w: int|
            0 <= w < old(bitmap_blocks)@.len() && w != index / 32
                ==> final(bitmap_blocks)@[w] == old(bitmap_blocks)@[w],
        final(bitmap_blocks)@[index as int / 32] == if state {
            old(bitmap_blocks)@[index as int / 32] | (1u32 << ((index % 32) as u32))
        } else {
            old(bitmap_blocks)@[index as int / 32] & !(1u32 << ((index % 32) as u32))
        },
    {
    let wi = index / 32;
    let b = (index % 32) as u32;
    let w = bitmap_blocks[wi];
    let neww = if state {
        w | (1u32 << b)
    } else {
        w & !(1u32 << b)
    };
    bitmap_blocks[wi] = neww;
    proof {
        assert forall|j: int| 0 <= j < old(bitmap_blocks)@.len() * 32
            implies bm_bit(final(bitmap_blocks)@, j)
                == if j == index { state } else { bm_bit(old(bitmap_blocks)@, j) } by {
            let c = (j % 32) as u32;
            if j / 32 == wi {
                if state {
                    lemma_word_set_bit(w, b, c);
                } else {
                    lemma_word_clear_bit(w, b, c);
                }
                if j != index {
                    assert(c != b);
                }
            }
        }
    }
}

/// The raw 32-bit word `index` of the flattened region; one word stands for
/// one index block when that block serves as an indirect table.
pub fn get_block_state(bitmap_blocks: &Vec<u32>, index: usize) -> (r: u32)
    requires
        index < bitmap_blocks@.len(),
    ensures
        r == bitmap_blocks@[index as int],
{
    bitmap_blocks[index]
}

/// Set word `index` to all ones (`state` true) or all zeros, leaving every
/// other word as it was.
pub fn set_block_state(bitmap_blocks: &mut Vec<u32>, index: usize, state: bool)
    requires
        index < old(bitmap_blocks)@.len(),
    ensures
        final(bitmap_blocks)@.len() == old(bitmap_blocks)@.len(),
        final(bitmap_blocks)@[index as int] == if state { 0xffff_ffffu32 } else { 0u32 },
        forall|w: int|
            0 <= w < old(bitmap_blocks)@.len() && w != index
                ==> final(bitmap_blocks)@[w] == old(bitmap_blocks)@[w],
{
    if state {
        bitmap_blocks[index] = 0xffff_ffffu32;
    } else {
        bitmap_blocks[index] = 0u32;
    }
}

/// First-fit scan for a clear bit in `range`: the first free index, every
/// index before it being occupied; `None` means the whole range is occupied.
pub fn get_free_item(bitmap_blocks: &Vec<u32>, range: Range<usize>) -> (r: Option<usize>)
    requires
        range.end <= bitmap_blocks@.len() * 32,
    ensures
        match r {
            Some(i) => {
                &&& range.start <= i < range.end
                &&& !bm_bit(bitmap_blocks@, i as int)
                &&& forall|j: int|
                    range.start <= j < i ==> bm_bit(bitmap_blocks@, j)
            },
            None => forall|j: int|
                range.start <= j < range.end ==> bm_bit(bitmap_blocks@, j),
        },
{
    if range.start >= range.end {
        return None;
    }
    let start = range.start;
    let end = range.end;
    let mut i = start;
    while i < end
        invariant
            start == range.start,
            end == range.end,
            start <= i <= end,
            end <= bitmap_blocks@.len() * 32,
            forall|j: int| start <= j < i ==> bm_bit(bitmap_blocks@, j),
        decreases end - i,
    {
        if !get_state(bitmap_blocks, i) {
            return Some(i);
        }
        i = i + 1;
    }
    None
}

/// First-fit scan for an all-zero word in `range`: the index of the first
/// free word (one whole index block), every word before it being nonzero;
/// `None` means no word in the range is free.
pub fn get_free_block(bitmap_blocks: &Vec<u32>, range: Range<usize>) -> (r: Option<usize>)
    requires
        range.end <= bitmap_blocks@.len(),
    ensures
        match r {
            Some(i) => {
                &&& range.start <= i < range.end
                &&& bitmap_blocks@[i as int] == 0u32
                &&& forall|j: int|
                    range.start <= j < i ==> bitmap_blocks@[j] != 0u32
            },
            None => forall|j: int|
                range.start <= j < range.end ==> bitmap_blocks@[j] != 0u32,
        },
{
    if range.start >= range.end {
        return None;
    }
    let start = range.start;
    let end = range.end;
    let mut i = start;
    while i < end
        invariant
            start == range.start,
            end == range.end,
            start <= i <= end,
            end <= bitmap_blocks@.len(),
            forall|j: int| start <= j < i ==> bitmap_blocks@[j] != 0u32,
        decreases end - i,
    {
        if get_block_state(bitmap_blocks, i) == 0u32 {
            return Some(i);
        }
        i = i + 1;
    }
    None
}

/// Count the free bits among the first `n` of the region by a scan, so
/// that a caller can refuse work that the region cannot back.
pub fn count_free(bitmap_blocks: &Vec<u32>, n: usize) -> (r: usize)
    requires
        n <= bitmap_blocks@.len() * 32,
    ensures
        r == count_clear(bitmap_blocks@, n as int),
{
    let mut count: usize = 0;
    let mut i: usize = 0;
    while i < n
        invariant
            0 <= i <= n,
            n <= bitmap_blocks@.len() * 32,
            count <= i,
            count == count_clear(bitmap_blocks@, i as int),
        decreases n - i,
    {
        if !get_state(bitmap_blocks, i) {
            count = count + 1;
        }
        i = i + 1;
    }
    count
}

/// The first two all-zero words below `end`, each one whole free index
/// block; `None` means the region holds no two such words.
pub fn get_two_free_blocks(bitmap_blocks: &Vec<u32>, end: usize) -> (r: Option<(usize, usize)>)
    requires
        end <= bitmap_blocks@.len(),
    ensures
        match r {
            Some(p) => {
                &&& 0 <= p.0 < p.1 < end
                &&& bitmap_blocks@[p.0 as int] == 0u32
                &&& bitmap_blocks@[p.1 as int] == 0u32
            },
            None => !(exists|w1: int, w2: int|
                0 <= w1 < w2 < end && #[trigger] bitmap_blocks@[w1] == 0u32
                    && #[trigger] bitmap_blocks@[w2] == 0u32),
        },
{
    let w1 = match get_free_block(bitmap_blocks, 0..end) {
        Some(w) => w,
        None => {
            return None;
        },
    };
    match get_free_block(bitmap_blocks, (w1 + 1)..end) {
        Some(w2) => Some((w1, w2)),
        None => {
            proof {
                if exists|a: int, b: int|
                    0 <= a < b < end && #[trigger] bitmap_blocks@[a] == 0u32
                        && #[trigger] bitmap_blocks@[b] == 0u32 {
                    let (a, b) = choose|a: int, b: int|
                        0 <= a < b < end && #[trigger] bitmap_blocks@[a] == 0u32
                            && #[trigger] bitmap_blocks@[b] == 0u32;
                    assert(a >= w1);
                    assert(b > w1);
                    assert(false);
                }
            }
            None
        },
    }
}

/// Number of clear bits among the first `n` of the region.
pub open spec fn count_clear(bm: Seq<u32>, n: int) -> nat
    decreases n,
{
    if n <= 0 {
        0
    } else {
        count_clear(bm, n - 1) + if bm_bit(bm, n - 1) { 0nat } else { 1nat }
    }
}

/// Somewhere among the first `n` bits there is a clear one exactly when the
/// clear count is positive.
pub proof fn lemma_count_clear_pos(bm: Seq<u32>, n: int)
    ensures
        count_clear(bm, n) > 0 <==> exists|j: int| 0 <= j < n && !bm_bit(bm, j),
    decreases n,
{
    if n > 0 {
        lemma_count_clear_pos(bm, n - 1);
        if !bm_bit(bm, n - 1) {
            assert(0 <= n - 1 < n && !bm_bit(bm, n - 1));
        }
    }
}

/// Two regions that agree bit-for-bit below `n` have the same clear count.
pub proof fn lemma_count_clear_congruence(bm1: Seq<u32>, bm2: Seq<u32>, n: int)
    requires
        forall|j: int| 0 <= j < n ==> bm_bit(bm1, j) == bm_bit(bm2, j),
    ensures
        count_clear(bm1, n) == count_clear(bm2, n),
    decreases n,
{
    if n > 0 {
        lemma_count_clear_congruence(bm1, bm2, n - 1);
    }
}

/// Setting one clear bit lowers the clear count of any prefix containing it
/// by exactly one.
pub proof fn lemma_count_clear_set(bm1: Seq<u32>, bm2: Seq<u32>, i: int, n: int)
    requires
        0 <= i < n,
        !bm_bit(bm1, i),
        bm_bit(bm2, i),
        forall|j: int| 0 <= j < n && j != i ==> bm_bit(bm1, j) == bm_bit(bm2, j),
    ensures
        count_clear(bm2, n) == count_clear(bm1, n) - 1,
    decreases n,
{
    if i == n - 1 {
        lemma_count_clear_congruence(bm1, bm2, n - 1);
    } else {
        lemma_count_clear_set(bm1, bm2, i, n - 1);
    }
}


/// Clearing one set bit raises the clear count of any prefix containing it
/// by exactly one.
pub proof fn lemma_count_clear_unset(bm1: Seq<u32>, bm2: Seq<u32>, i: int, n: int)
    requires
        0 <= i < n,
        bm_bit(bm1, i),
        !bm_bit(bm2, i),
        forall|j: int| 0 <= j < n && j != i ==> bm_bit(bm1, j) == bm_bit(bm2, j),
    ensures
        count_clear(bm2, n) == count_clear(bm1, n) + 1,
    decreases n,
{
    if i == n - 1 {
        lemma_count_clear_congruence(bm1, bm2, n - 1);
    } else {
        lemma_count_clear_unset(bm1, bm2, i, n - 1);
    }
}

/// A word with some bit set is not the zero word.
pub proof fn lemma_word_bit_nonzero(w: u32, b: u32)
    requires
        b < 32,
        word_bit(w, b),
    ensures
        w != 0u32,
{
    assert((w >> b) & 1u32 == 1u32 ==> w != 0u32) by (bit_vector);
}


/// Every bit of an all-zero region is clear, so all are counted free.
pub proof fn lemma_count_clear_congruence_zero(bm: Seq<u32>, n: int)
    requires
        forall|w: int| 0 <= w < bm.len() ==> bm[w] == 0u32,
        n <= bm.len() * 32,
    ensures
        count_clear(bm, n) == if n >= 0 { n } else { 0 },
    decreases n,
{
    if n > 0 {
        lemma_count_clear_congruence_zero(bm, n - 1);
        lemma_word_extremes(((n - 1) % 32) as u32);
    }
}


} // verus!
