//! The abstract model of the allocator: a free list as a sequence of
//! `(start, size)` pairs in address order, the first-fit search, the split
//! decision, and address-ordered insertion with coalescing. The executable
//! operations promise in their contracts to transform the abstract free
//! list exactly as these functions say, and the laws at the end of this
//! file are proved of the model.
//!
//! A block `(start, size)` occupies the arena bytes `[start, start + 16 + size)`:
//! a 16-byte header followed by `size` usable bytes. A served request takes,
//! out of the usable bytes, an 8-byte back-pointer word, then padding up to
//! the requested alignment, then the payload itself.

use crate::arith::is_power_of_two;
use crate::arith::lemma_align_up;
use crate::arith::lemma_align_up_mono_align;
use crate::arith::spec_align_up;
use vstd::prelude::*;

verus! {

/// One past the last arena byte of a block.
pub open spec fn block_end(b: (int, int)) -> int {
    b.0 + 16 + b.1
}

/// A block lies in the arena, on an 8-byte boundary, with a nonnegative size.
pub open spec fn block_ok(b: (int, int), cap: int) -> bool {
    &&& 0 <= b.0
    &&& b.0 % 8 == 0
    &&& 0 <= b.1
    &&& block_end(b) <= cap
}

/// The block at index `i` ends strictly before the next one begins:
/// address order, disjointness, and no byte-adjacency in one inequality.
pub open spec fn blocks_ordered_at(bs: Seq<(int, int)>, i: int) -> bool {
    block_end(bs[i]) < bs[i + 1].0
}

/// A well-formed free list: every block in bounds, address-ascending,
/// pairwise disjoint, and no two blocks byte-adjacent.
pub open spec fn blocks_wf(bs: Seq<(int, int)>, cap: int) -> bool {
    &&& forall|i: int| 0 <= i < bs.len() ==> block_ok(#[trigger] bs[i], cap)
    &&& forall|i: int| 0 <= i < bs.len() - 1 ==> blocks_ordered_at(bs, i)
}

/// Where user data starts when a request with this alignment is served from
/// a block at `h`: past the header and the back-pointer word, rounded up.
pub open spec fn user_at(h: int, align: int) -> int {
    spec_align_up(h + 24, align)
}

/// How much of the block's usable area the request takes: the back-pointer
/// word, the alignment padding, and the payload.
pub open spec fn consumed_at(h: int, size: int, align: int) -> int {
    8 + (user_at(h, align) - (h + 24)) + size
}

pub open spec fn fits(b: (int, int), size: int, align: int) -> bool {
    b.1 >= consumed_at(b.0, size, align)
}

/// Index of the first free block the request fits in; `bs.len()` if none.
pub open spec fn first_fit(bs: Seq<(int, int)>, size: int, align: int) -> int
    decreases bs.len(),
{
    if bs.len() == 0 {
        0
    } else if fits(bs[0], size, align) {
        0
    } else {
        1 + first_fit(bs.skip(1), size, align)
    }
}

/// Where the trailing free block created by a split would start: just past
/// the consumed bytes, rounded up to the 8-byte header alignment.
pub open spec fn split_pos(b: (int, int), size: int, align: int) -> int {
    spec_align_up(b.0 + 16 + consumed_at(b.0, size, align), 8)
}

/// The bytes lost to that rounding.
pub open spec fn split_waste(b: (int, int), size: int, align: int) -> int {
    split_pos(b, size, align) - (b.0 + 16 + consumed_at(b.0, size, align))
}

/// Split only when the leftover still holds a header plus a minimally
/// useful block (header, its alignment, and a back-pointer word).
pub open spec fn will_split(b: (int, int), size: int, align: int) -> bool {
    b.1 - consumed_at(b.0, size, align) >= split_waste(b, size, align) + 32
}

/// The free list after serving a request from block `j`: either the block
/// is replaced, in place, by the trailing remainder of a split, or it is
/// removed whole.
pub open spec fn alloc_blocks(bs: Seq<(int, int)>, j: int, size: int, align: int) -> Seq<
    (int, int),
> {
    let b = bs[j];
    if will_split(b, size, align) {
        bs.update(j, (split_pos(b, size, align), block_end(b) - split_pos(b, size, align) - 16))
    } else {
        bs.remove(j)
    }
}

/// The size recorded in the served block's header: shrunk to exactly the
/// consumed bytes on a split, kept whole otherwise.
pub open spec fn freed_size(b: (int, int), size: int, align: int) -> int {
    if will_split(b, size, align) {
        consumed_at(b.0, size, align)
    } else {
        b.1
    }
}

/// Index of the first free block whose address exceeds `h`; `bs.len()` if none.
pub open spec fn splice_idx(bs: Seq<(int, int)>, h: int) -> int
    decreases bs.len(),
{
    if bs.len() == 0 {
        0
    } else if bs[0].0 > h {
        0
    } else {
        1 + splice_idx(bs.skip(1), h)
    }
}

/// The free list after freeing a block `(h, s)`: address-ordered insertion,
/// then a forward merge with a byte-adjacent successor, then a backward
/// merge with a byte-adjacent predecessor.
pub open spec fn insert_block(bs: Seq<(int, int)>, h: int, s: int) -> Seq<(int, int)> {
    let j = splice_idx(bs, h);
    let l1 = bs.insert(j, (h, s));
    let l2 = if j + 1 < l1.len() && h + 16 + s == l1[j + 1].0 {
        l1.update(j, (h, s + 16 + l1[j + 1].1)).remove(j + 1)
    } else {
        l1
    };
    if j > 0 && block_end(l2[j - 1]) == h {
        l2.update(j - 1, (l2[j - 1].0, l2[j - 1].1 + 16 + l2[j].1)).remove(j)
    } else {
        l2
    }
}

// ---------------------------------------------------------------------------
// Characterizations of the recursive searches.
// ---------------------------------------------------------------------------

/// `first_fit` returns `j` exactly when nothing before `j` fits and `j`
/// (if in range) does.
pub proof fn lemma_first_fit_at(bs: Seq<(int, int)>, size: int, align: int, j: int)
    requires
        0 <= j <= bs.len(),
        forall|k: int| 0 <= k < j ==> !fits(#[trigger] bs[k], size, align),
        j < bs.len() ==> fits(bs[j], size, align),
    ensures
        first_fit(bs, size, align) == j,
    decreases bs.len(),
{
    if bs.len() == 0 {
    } else if fits(bs[0], size, align) {
        assert(j == 0);
    } else {
        assert(forall|k: int|
            0 <= k < j - 1 ==> !fits(#[trigger] bs.skip(1)[k], size, align)) by {
            assert(forall|k: int| 0 <= k < bs.len() - 1 ==> bs.skip(1)[k] == bs[k + 1]);
        }
        lemma_first_fit_at(bs.skip(1), size, align, j - 1);
    }
}

/// `first_fit` stays in range and, when in range, lands on a fitting block.
pub proof fn lemma_first_fit_in_range(bs: Seq<(int, int)>, size: int, align: int)
    ensures
        0 <= first_fit(bs, size, align) <= bs.len(),
        first_fit(bs, size, align) < bs.len() ==> fits(bs[first_fit(bs, size, align)], size, align),
        forall|k: int| 0 <= k < first_fit(bs, size, align) ==> !fits(#[trigger] bs[k], size, align),
    decreases bs.len(),
{
    if bs.len() == 0 {
    } else if fits(bs[0], size, align) {
    } else {
        lemma_first_fit_in_range(bs.skip(1), size, align);
        assert(forall|k: int| 0 <= k < bs.len() - 1 ==> bs.skip(1)[k] == bs[k + 1]);
        if first_fit(bs, size, align) < bs.len() {
            assert(bs[first_fit(bs, size, align)] == bs.skip(1)[first_fit(bs.skip(1), size, align)]);
        }
        assert forall|k: int| 0 <= k < first_fit(bs, size, align) implies !fits(
            #[trigger] bs[k],
            size,
            align,
        ) by {
            if k >= 1 {
                assert(bs.skip(1)[k - 1] == bs[k]);
                assert(!fits(bs.skip(1)[k - 1], size, align));
            }
        }
    }
}

/// `splice_idx` returns `j` exactly when everything before `j` is at or
/// below `h` and `j` (if in range) is above it.
pub proof fn lemma_splice_idx_at(bs: Seq<(int, int)>, h: int, j: int)
    requires
        0 <= j <= bs.len(),
        forall|k: int| 0 <= k < j ==> (#[trigger] bs[k]).0 < h,
        j < bs.len() ==> bs[j].0 > h,
    ensures
        splice_idx(bs, h) == j,
    decreases bs.len(),
{
    if bs.len() == 0 {
    } else if bs[0].0 > h {
        assert(j == 0);
    } else {
        assert(forall|k: int| 0 <= k < bs.len() - 1 ==> bs.skip(1)[k] == bs[k + 1]);
        lemma_splice_idx_at(bs.skip(1), h, j - 1);
    }
}

/// In a well-formed list, starts are strictly increasing, and so are ends.
pub proof fn lemma_blocks_ordered(bs: Seq<(int, int)>, cap: int, i: int, j: int)
    requires
        blocks_wf(bs, cap),
        0 <= i < j < bs.len(),
    ensures
        block_end(bs[i]) < bs[j].0,
    decreases j - i,
{
    if j == i + 1 {
        assert(blocks_ordered_at(bs, i));
    } else {
        lemma_blocks_ordered(bs, cap, i, j - 1);
        assert(blocks_ordered_at(bs, j - 1));
        assert(block_ok(bs[j - 1], cap));
    }
}

// ---------------------------------------------------------------------------
// Laws.
// ---------------------------------------------------------------------------

/// A request that fits a block also fits it with a smaller payload and a
/// finer (or equal) power-of-two alignment.
pub proof fn lemma_fits_smaller(b: (int, int), size: int, align: int, size2: int, align2: int)
    requires
        fits(b, size, align),
        is_power_of_two(align),
        is_power_of_two(align2),
        align2 <= align,
        size2 <= size,
        b.0 >= 0,
    ensures
        fits(b, size2, align2),
{
    lemma_align_up_mono_align(b.0 + 24, align2, align);
}

/// If some block fits, the first-fit search succeeds.
pub proof fn lemma_first_fit_finds(bs: Seq<(int, int)>, size: int, align: int, k: int)
    requires
        0 <= k < bs.len(),
        fits(bs[k], size, align),
    ensures
        first_fit(bs, size, align) < bs.len(),
    decreases bs.len(),
{
    if fits(bs[0], size, align) {
    } else {
        assert(bs.skip(1)[k - 1] == bs[k]);
        lemma_first_fit_finds(bs.skip(1), size, align, k - 1);
    }
}

/// Freeing a block that ends exactly where an existing free block begins
/// (and is not adjacent to its predecessor) yields a single free-list node
/// spanning the combined extent.
#[verifier::rlimit(100)]
pub proof fn lemma_coalesce_adjacent(bs: Seq<(int, int)>, cap: int, h: int, s: int, j: int)
    requires
        blocks_wf(bs, cap),
        0 <= j < bs.len(),
        0 <= h,
        0 <= s,
        h + 16 + s == bs[j].0,
        forall|k: int| 0 <= k < j ==> block_end(#[trigger] bs[k]) < h,
    ensures
        insert_block(bs, h, s) == bs.update(j, (h, s + 16 + bs[j].1)),
{
    assert forall|k: int| 0 <= k < j implies (#[trigger] bs[k]).0 < h by {
        assert(block_end(bs[k]) < h);
    }
    assert(bs[j].0 > h);
    lemma_splice_idx_at(bs, h, j);
    let l1 = bs.insert(j, (h, s));
    assert(l1[j + 1] == bs[j]);
    let goal = bs.update(j, (h, s + 16 + bs[j].1));
    let upd = l1.update(j, (h, s + 16 + l1[j + 1].1));
    let merged = upd.remove(j + 1);
    assert(merged.len() == goal.len());
    assert forall|k: int| 0 <= k < merged.len() implies merged[k] == goal[k] by {
        if k < j {
            assert(merged[k] == upd[k]);
            assert(upd[k] == l1[k]);
            assert(l1[k] == bs[k]);
        } else if k == j {
            assert(merged[k] == upd[k]);
        } else {
            assert(merged[k] == upd[k + 1]);
            assert(upd[k + 1] == l1[k + 1]);
            assert(l1[k + 1] == bs[k]);
        }
    }
    assert(merged =~= goal);
    if j > 0 {
        assert(merged[j - 1] == bs[j - 1]);
        assert(block_end(merged[j - 1]) != h);
    }
    assert(insert_block(bs, h, s) == merged);
}

/// Serving a request and immediately freeing the returned block restores
/// the free list exactly, provided the split (if one happened) lost no
/// bytes to header alignment. This is the single step of the stress loop:
/// no leak, no free-list growth.
pub proof fn lemma_alloc_free_round_trip(bs: Seq<(int, int)>, cap: int, size: int, align: int)
    requires
        blocks_wf(bs, cap),
        align >= 1,
        size >= 0,
        first_fit(bs, size, align) < bs.len(),
        will_split(bs[first_fit(bs, size, align)], size, align) ==> split_waste(
            bs[first_fit(bs, size, align)],
            size,
            align,
        ) == 0,
    ensures
        ({
            let j = first_fit(bs, size, align);
            let b = bs[j];
            insert_block(alloc_blocks(bs, j, size, align), b.0, freed_size(b, size, align)) == bs
        }),
{
    lemma_first_fit_in_range(bs, size, align);
    let j = first_fit(bs, size, align);
    let b = bs[j];
    let h = b.0;
    lemma_align_up(h + 24, align);
    let c = consumed_at(h, size, align);
    assert(c >= 8 + size);
    assert(forall|k: int| 0 <= k < j ==> (#[trigger] bs[k]).0 < h && block_end(bs[k]) < h) by {
        assert(forall|k: int| 0 <= k < j ==> block_end(#[trigger] bs[k]) < bs[j].0) by {
            assert forall|k: int| 0 <= k < j implies block_end(#[trigger] bs[k]) < bs[j].0 by {
                lemma_blocks_ordered(bs, cap, k, j);
            }
        }
        assert(forall|k: int| 0 <= k < j ==> (#[trigger] bs[k]).0 + 16 <= block_end(bs[k]));
    }
    if will_split(b, size, align) {
        let n = split_pos(b, size, align);
        lemma_align_up(h + 16 + c, 8);
        assert(n == h + 16 + c);
        let bs1 = alloc_blocks(bs, j, size, align);
        assert(bs1 == bs.update(j, (n, block_end(b) - n - 16)));
        assert(forall|k: int| 0 <= k < j ==> bs1[k] == bs[k]);
        assert(bs1[j].0 == n > h);
        lemma_splice_idx_at(bs1, h, j);
        let l1 = bs1.insert(j, (h, c));
        assert(l1[j + 1] == bs1[j]);
        assert(h + 16 + c == l1[j + 1].0);
        let l2 = l1.update(j, (h, c + 16 + l1[j + 1].1)).remove(j + 1);
        assert(c + 16 + (block_end(b) - n - 16) == b.1);
        assert(l2 =~= bs);
        if j > 0 {
            assert(l2[j - 1] == bs[j - 1]);
            assert(block_end(l2[j - 1]) != h);
        }
        assert(insert_block(bs1, h, c) == bs);
    } else {
        let bs1 = bs.remove(j);
        assert(forall|k: int| 0 <= k < j ==> bs1[k] == bs[k]);
        assert(forall|k: int| j <= k < bs1.len() ==> bs1[k] == bs[k + 1]);
        if j < bs1.len() {
            assert(bs1[j] == bs[j + 1]);
            assert(blocks_ordered_at(bs, j));
            assert(block_end(bs[j]) < bs[j + 1].0);
            assert(bs1[j].0 > h);
        }
        lemma_splice_idx_at(bs1, h, j);
        let l1 = bs1.insert(j, (h, b.1));
        assert(l1 =~= bs);
        if j + 1 < l1.len() {
            assert(l1[j + 1] == bs[j + 1]);
            assert(blocks_ordered_at(bs, j));
            assert(h + 16 + b.1 == block_end(b) < bs[j + 1].0);
        }
        if j > 0 {
            assert(l1[j - 1] == bs[j - 1]);
            assert(block_end(l1[j - 1]) != h);
        }
        assert(insert_block(bs1, h, b.1) == bs);
    }
}

/// After serving a request and freeing it again, a request for at most the
/// same payload with a finer (or equal) power-of-two alignment still
/// succeeds: nothing leaks across a single allocate/free cycle.
pub proof fn lemma_free_then_alloc_succeeds(
    bs: Seq<(int, int)>,
    cap: int,
    size: int,
    align: int,
    size2: int,
    align2: int,
)
    requires
        blocks_wf(bs, cap),
        is_power_of_two(align),
        is_power_of_two(align2),
        align2 <= align,
        0 <= size2 <= size,
        first_fit(bs, size, align) < bs.len(),
        will_split(bs[first_fit(bs, size, align)], size, align) ==> split_waste(
            bs[first_fit(bs, size, align)],
            size,
            align,
        ) == 0,
    ensures
        ({
            let j = first_fit(bs, size, align);
            let b = bs[j];
            let restored = insert_block(
                alloc_blocks(bs, j, size, align),
                b.0,
                freed_size(b, size, align),
            );
            &&& restored == bs
            &&& first_fit(restored, size2, align2) < restored.len()
        }),
{
    lemma_alloc_free_round_trip(bs, cap, size, align);
    lemma_first_fit_in_range(bs, size, align);
    let j = first_fit(bs, size, align);
    lemma_fits_smaller(bs[j], size, align, size2, align2);
    lemma_first_fit_finds(bs, size2, align2, j);
}

} // verus!
