//! The allocator: a fixed-capacity byte arena, a singly linked,
//! address-ordered free list whose headers are embedded in the arena, and
//! the three operations `init`, `allocate` and `dealloc`.
//!
//! Layout of the arena. Every block starts with a 16-byte header: a size
//! word (usable bytes after the header) and, while the block is free, a
//! link word holding the next free header's offset, with the arena
//! capacity standing for "none". Offsets into the arena play the role of
//! addresses; the returned "pointer" is the offset of the payload. The
//! word directly before the payload holds the owning header's offset, so
//! `dealloc` can recover the header whatever padding the alignment forced.

use crate::model::alloc_blocks;
use crate::model::block_end;
use crate::model::block_ok;
use crate::model::blocks_ordered_at;
use crate::model::blocks_wf;
use crate::model::consumed_at;
use crate::model::first_fit;
use crate::model::fits;
use crate::model::freed_size;
use crate::model::insert_block;
use crate::model::lemma_blocks_ordered;
use crate::model::lemma_first_fit_at;
use crate::model::lemma_splice_idx_at;
use crate::model::split_pos;
use crate::model::split_waste;
use crate::model::user_at;
use crate::model::will_split;
use crate::arith::align_up;
use crate::arith::is_power_of_two;
use crate::arith::lemma_align_up;
use crate::arith::lemma_align_up_at_least_align;
use crate::words::lemma_word_at_frame;
use crate::words::load_word;
use crate::words::store_word;
use crate::words::word_at;
use vstd::prelude::*;

verus! {

/// Capacity of the arena in bytes.
pub const HEAP_SIZE: usize = 1024 * 1024;

/// Bytes of a block header: one size word and one link word.
pub const HEADER_SIZE: usize = 16;

/// Bytes of the back-pointer word preceding each payload.
pub const BACK_PTR_SIZE: usize = 8;

/// Alignment every header is placed on.
pub const HEADER_ALIGN: usize = 8;

/// Smallest remainder worth splitting off: a header, its alignment, and a
/// back-pointer word, so the new block can host a real allocation later.
pub const MIN_FREE_BLOCK: usize = HEADER_SIZE + HEADER_ALIGN + BACK_PTR_SIZE;

pub struct FreeListAllocator {
    heap_size: usize,
    head: usize,
    mem: Vec<u8>,
    free_nodes: Ghost<Seq<int>>,
    live_blocks: Ghost<Map<int, (int, int)>>,
}

impl FreeListAllocator {
    /// Arena capacity; also the sentinel offset standing for a null link.
    pub closed spec fn cap(self) -> int {
        self.heap_size as int
    }

    /// The arena's bytes.
    pub closed spec fn mem_bytes(self) -> Seq<u8> {
        self.mem@
    }

    /// Offsets of the free headers, in address order.
    pub closed spec fn free_list(self) -> Seq<int> {
        self.free_nodes@
    }

    /// Payload offset of each live allocation, mapped to its header offset
    /// and the size recorded in that header.
    pub closed spec fn live_map(self) -> Map<int, (int, int)> {
        self.live_blocks@
    }

    /// The size word of the header at offset `h`.
    pub closed spec fn size_of(self, h: int) -> int {
        word_at(self.mem@, h)
    }

    /// The link word of the header at offset `h`.
    pub closed spec fn next_of(self, h: int) -> int {
        word_at(self.mem@, h + 8)
    }

    /// One past the last byte of the block headed at `h`.
    pub closed spec fn end_of(self, h: int) -> int {
        h + 16 + self.size_of(h)
    }

    /// The abstract free list: each free header with its recorded size.
    pub closed spec fn blocks(self) -> Seq<(int, int)> {
        Seq::new(self.free_nodes@.len(), |i: int| (self.free_nodes@[i], self.size_of(self.free_nodes@[i])))
    }

    /// `init` has run.
    pub closed spec fn initialized(self) -> bool {
        self.heap_size == HEAP_SIZE
    }

    /// Bytes the caller may use at payload `p`: from `p` to the end of its
    /// block.
    pub closed spec fn usable(self, p: int) -> int {
        self.live_blocks@[p].0 + 16 + self.live_blocks@[p].1 - p
    }

    /// End of the live block owning payload `p`.
    pub closed spec fn live_end(self, p: int) -> int {
        self.live_blocks@[p].0 + 16 + self.live_blocks@[p].1
    }

    /// The free node at index `i` lies in the arena on a header boundary,
    /// and its link word names its successor, or the capacity at the tail.
    pub closed spec fn node_ok(self, i: int) -> bool {
        let h = self.free_nodes@[i];
        &&& 0 <= h
        &&& h % 8 == 0
        &&& self.end_of(h) <= self.cap()
        &&& self.next_of(h) == (if i == self.free_nodes@.len() - 1 {
            self.cap()
        } else {
            self.free_nodes@[i + 1]
        })
    }

    /// A live allocation's header sits below its payload, the recorded size
    /// matches the header's size word, and the back-pointer word before the
    /// payload names the header.
    pub closed spec fn live_ok(self, p: int) -> bool {
        let h = self.live_blocks@[p].0;
        let s = self.live_blocks@[p].1;
        &&& 0 <= h
        &&& h % 8 == 0
        &&& h + 24 <= p
        &&& p <= h + 16 + s
        &&& h + 16 + s <= self.cap()
        &&& self.size_of(h) == s
        &&& word_at(self.mem@, p - 8) == h
    }

    /// The free node at index `i` and the live block at payload `p` occupy
    /// disjoint byte ranges.
    pub closed spec fn free_live_disjoint(self, i: int, p: int) -> bool {
        self.live_end(p) <= self.free_nodes@[i] || self.end_of(self.free_nodes@[i])
            <= self.live_blocks@[p].0
    }

    /// The live blocks at payloads `p` and `q` occupy disjoint byte ranges.
    pub closed spec fn live_live_disjoint(self, p: int, q: int) -> bool {
        self.live_end(p) <= self.live_blocks@[q].0 || self.live_end(q)
            <= self.live_blocks@[p].0
    }

    /// The free block at index `i` ends strictly before the next begins.
    pub closed spec fn ordered_at(self, i: int) -> bool {
        self.end_of(self.free_nodes@[i]) < self.free_nodes@[i + 1]
    }

    /// The allocator's invariant: the arena backs the capacity; the ghost
    /// free list mirrors the linked list rooted at `head`, address-ascending,
    /// in bounds, with no two free blocks byte-adjacent; every live block is
    /// in bounds with a valid back-pointer; and all blocks, free or live,
    /// are pairwise disjoint.
    pub closed spec fn wf(self) -> bool {
        &&& self.mem@.len() == self.heap_size as int
        &&& (self.heap_size == 0 || self.heap_size == HEAP_SIZE)
        &&& (if self.free_nodes@.len() == 0 {
            self.head as int == self.cap()
        } else {
            self.head as int == self.free_nodes@[0]
        })
        &&& (forall|i: int| 0 <= i < self.free_nodes@.len() ==> self.node_ok(i))
        &&& (forall|i: int| 0 <= i < self.free_nodes@.len() - 1 ==> self.ordered_at(i))
        &&& (forall|p: int| self.live_blocks@.contains_key(p) ==> self.live_ok(p))
        &&& (forall|i: int, p: int|
            0 <= i < self.free_nodes@.len() && self.live_blocks@.contains_key(p)
                ==> self.free_live_disjoint(i, p))
        &&& (forall|p: int, q: int|
            self.live_blocks@.contains_key(p) && self.live_blocks@.contains_key(q) && p != q
                ==> self.live_live_disjoint(p, q))
    }

    /// The abstract free list of a well-formed allocator is well-formed.
    pub proof fn lemma_blocks_wf(self)
        requires
            self.wf(),
        ensures
            blocks_wf(self.blocks(), self.cap()),
            self.blocks().len() == self.free_list().len(),
    {
        assert forall|i: int| 0 <= i < self.blocks().len() implies block_ok(
            #[trigger] self.blocks()[i],
            self.cap(),
        ) by {
            assert(self.node_ok(i));
        }
        assert forall|i: int| 0 <= i < self.blocks().len() - 1 implies blocks_ordered_at(
            self.blocks(),
            i,
        ) by {
            assert(self.node_ok(i));
            assert(self.ordered_at(i));
        }
    }

    /// Payload windows of two distinct live allocations never overlap.
    pub proof fn lemma_payloads_disjoint(self, p: int, q: int)
        requires
            self.wf(),
            self.live_map().contains_key(p),
            self.live_map().contains_key(q),
            p != q,
        ensures
            p + self.usable(p) <= q || q + self.usable(q) <= p,
    {
        assert(self.live_ok(p));
        assert(self.live_ok(q));
        assert(self.live_live_disjoint(p, q));
    }
}

/// Produces an allocator with null state; `init` must run before use.
pub fn create_allocator() -> (a: FreeListAllocator)
    ensures
        a.wf(),
        !a.initialized(),
        a.blocks() == Seq::<(int, int)>::empty(),
        a.live_map() == Map::<int, (int, int)>::empty(),
{
    let a = FreeListAllocator {
        heap_size: 0,
        head: 0,
        mem: Vec::new(),
        free_nodes: Ghost(Seq::empty()),
        live_blocks: Ghost(Map::empty()),
    };
    proof {
        assert(a.blocks() =~= Seq::<(int, int)>::empty());
    }
    a
}

impl FreeListAllocator {
    /// Words at offsets disjoint from the written ranges keep their value.
    /// `r?lo..r?hi` are the (at most four) byte ranges a mutation touched.
    proof fn lemma_untouched_words(
        m0: Seq<u8>,
        m1: Seq<u8>,
        r1lo: int,
        r1hi: int,
        r2lo: int,
        r2hi: int,
        r3lo: int,
        r3hi: int,
        r4lo: int,
        r4hi: int,
    )
        requires
            m0.len() == m1.len(),
            forall|j: int|
                0 <= j < m0.len() && !(r1lo <= j < r1hi) && !(r2lo <= j < r2hi) && !(r3lo <= j
                    < r3hi) && !(r4lo <= j < r4hi) ==> m1[j] == m0[j],
        ensures
            forall|a: int|
                0 <= a && a + 8 <= m0.len() && (a + 8 <= r1lo || r1hi <= a) && (a + 8 <= r2lo
                    || r2hi <= a) && (a + 8 <= r3lo || r3hi <= a) && (a + 8 <= r4lo || r4hi <= a)
                    ==> #[trigger] word_at(m1, a) == word_at(m0, a),
    {
        assert forall|a: int|
            0 <= a && a + 8 <= m0.len() && (a + 8 <= r1lo || r1hi <= a) && (a + 8 <= r2lo || r2hi
                <= a) && (a + 8 <= r3lo || r3hi <= a) && (a + 8 <= r4lo || r4hi
                <= a) implies #[trigger] word_at(m1, a) == word_at(m0, a) by {
            lemma_word_at_frame(m0, m1, a);
        }
    }

    /// Binds the allocator to a zeroed arena of `HEAP_SIZE` bytes carved
    /// into a single free block. Running it again resets all state.
    pub fn init(&mut self)
        ensures
            final(self).wf(),
            final(self).initialized(),
            final(self).blocks() == seq![(0int, HEAP_SIZE as int - 16)],
            final(self).live_map() == Map::<int, (int, int)>::empty(),
    {
        let mut mem: Vec<u8> = Vec::new();
        while mem.len() < HEAP_SIZE
            invariant
                mem@.len() <= HEAP_SIZE,
            decreases HEAP_SIZE - mem@.len(),
        {
            mem.push(0);
        }
        store_word(&mut mem, 0, (HEAP_SIZE - 16) as u64);
        let ghost m1 = mem@;
        store_word(&mut mem, 8, HEAP_SIZE as u64);
        proof {
            lemma_word_at_frame(m1, mem@, 0);
        }
        let ghost single: Seq<int> = seq![0int];
        self.heap_size = HEAP_SIZE;
        self.head = 0;
        self.mem = mem;
        self.free_nodes = Ghost(single);
        self.live_blocks = Ghost(Map::empty());
        proof {
            assert(self.size_of(0) == HEAP_SIZE as int - 16);
            assert(self.next_of(0) == HEAP_SIZE as int);
            assert(self.node_ok(0));
            assert(self.blocks() =~= seq![(0int, HEAP_SIZE as int - 16)]);
        }
    }

    /// First-fit allocation of `size` bytes at a power-of-two alignment.
    /// Returns the payload offset, or `None` when no free block fits. The
    /// chosen block is split when the remainder is still useful, else taken
    /// whole; the word before the payload receives the header's offset.
    pub fn allocate(&mut self, size: usize, align: usize) -> (r: Option<usize>)
        requires
            old(self).wf(),
            old(self).initialized(),
            align >= 1,
            is_power_of_two(align as int),
        ensures
            final(self).wf(),
            final(self).initialized(),
            (r is None <==> forall|k: int|
                0 <= k < old(self).blocks().len() ==> !fits(
                    #[trigger] old(self).blocks()[k],
                    size as int,
                    align as int,
                )),
            r is None ==> final(self).blocks() == old(self).blocks() && final(self).live_map()
                == old(self).live_map() && final(self).mem_bytes() == old(self).mem_bytes(),
            r matches Some(p) ==> ({
                let j = first_fit(old(self).blocks(), size as int, align as int);
                let b = old(self).blocks()[j];
                &&& 0 <= j < old(self).blocks().len()
                &&& fits(b, size as int, align as int)
                &&& p as int == user_at(b.0, align as int)
                &&& p as int % align as int == 0
                &&& b.0 + 24 <= p as int
                &&& p as int + size as int <= block_end(b) <= old(self).cap()
                &&& final(self).blocks() == alloc_blocks(
                    old(self).blocks(),
                    j,
                    size as int,
                    align as int,
                )
                &&& final(self).live_map() == old(self).live_map().insert(
                    p as int,
                    (b.0, freed_size(b, size as int, align as int)),
                )
                &&& final(self).usable(p as int) >= size
                &&& forall|q: int|
                    old(self).live_map().contains_key(q) && q != p as int ==> (p as int
                        + size as int <= q || q + old(self).usable(q) <= p as int)
            }),
    {
        proof {
            old(self).lemma_blocks_wf();
        }
        let ghost bs0 = old(self).blocks();
        if size > self.heap_size || align > self.heap_size {
            proof {
                assert forall|k: int| 0 <= k < bs0.len() implies !fits(
                    #[trigger] bs0[k],
                    size as int,
                    align as int,
                ) by {
                    assert(self.node_ok(k));
                    let h = self.free_nodes@[k];
                    lemma_align_up(h + 24, align as int);
                    if align > self.heap_size {
                        lemma_align_up_at_least_align(h + 24, align as int);
                    }
                }
            }
            return None;
        }
        let mut prev: usize = self.heap_size;
        let mut current: usize = self.head;
        let ghost mut idx: int = 0;
        while current != self.heap_size
            invariant
                *self == *old(self),
                self.wf(),
                self.initialized(),
                bs0 == self.blocks(),
                size <= self.heap_size,
                align <= self.heap_size,
                align >= 1,
                is_power_of_two(align as int),
                0 <= idx <= bs0.len(),
                idx < bs0.len() ==> current as int == bs0[idx].0,
                idx == bs0.len() ==> current as int == self.cap(),
                idx == 0 ==> prev as int == self.cap(),
                idx > 0 ==> prev as int == bs0[idx - 1].0,
                forall|k: int| 0 <= k < idx ==> !fits(#[trigger] bs0[k], size as int, align as int),
            decreases bs0.len() - idx,
        {
            proof {
                assert(self.node_ok(idx));
                assert(bs0[idx] == (self.free_nodes@[idx], self.size_of(self.free_nodes@[idx])));
            }
            let sz64 = load_word(&self.mem, current);
            let sz = sz64 as usize;
            let nxt64 = load_word(&self.mem, current + 8);
            proof {
                if idx + 1 < bs0.len() {
                    assert(self.node_ok(idx + 1));
                    assert(bs0[idx + 1] == (
                        self.free_nodes@[idx + 1],
                        self.size_of(self.free_nodes@[idx + 1]),
                    ));
                }
                assert(nxt64 as int <= self.cap());
            }
            let nxt = nxt64 as usize;
            let raw = current + HEADER_SIZE + BACK_PTR_SIZE;
            let user_start = align_up(raw, align);
            let padding = user_start - raw;
            let consumed = BACK_PTR_SIZE + padding + size;
            proof {
                assert(consumed as int == consumed_at(current as int, size as int, align as int));
            }
            if sz >= consumed {
                proof {
                    lemma_first_fit_at(bs0, size as int, align as int, idx);
                }
                let r = self.take_block(
                    size,
                    align,
                    prev,
                    current,
                    user_start,
                    consumed,
                    sz,
                    nxt64,
                    Ghost(idx),
                    Ghost(bs0),
                );
                proof {
                    assert forall|q: int|
                        old(self).live_map().contains_key(q) && q
                            != user_start as int implies (user_start as int + size as int <= q || q
                        + old(self).usable(q) <= user_start as int) by {
                        self.lemma_payloads_disjoint(user_start as int, q);
                        assert(self.usable(q) == old(self).usable(q));
                        assert(size as int <= self.usable(user_start as int));
                    }
                }
                return Some(r);
            }
            prev = current;
            current = nxt;
            proof {
                idx = idx + 1;
            }
        }
        proof {
            lemma_first_fit_at(bs0, size as int, align as int, bs0.len() as int);
        }
        None
    }

    /// A mutation confined to the candidate block at index `idx` and to its
    /// predecessor's link word leaves the header words of every other free
    /// node, and the header and back-pointer words of every live block,
    /// unchanged.
    #[verifier::rlimit(100)]
    proof fn lemma_alloc_words_preserved(pre: FreeListAllocator, mf: Seq<u8>, idx: int)
        requires
            pre.wf(),
            0 <= idx < pre.free_nodes@.len(),
            mf.len() == pre.mem@.len(),
            forall|a: int|
                #![trigger word_at(mf, a)]
                0 <= a && a + 8 <= pre.mem@.len() && (a + 8 <= pre.free_nodes@[idx] || block_end(
                    pre.blocks()[idx],
                ) <= a) && (idx > 0 ==> (a + 8 <= pre.free_nodes@[idx - 1] + 8
                    || pre.free_nodes@[idx - 1] + 16 <= a)) ==> word_at(mf, a) == word_at(
                    pre.mem@,
                    a,
                ),
        ensures
            forall|k: int|
                0 <= k < pre.free_nodes@.len() && k != idx ==> word_at(
                    mf,
                    #[trigger] pre.free_nodes@[k],
                ) == word_at(pre.mem@, pre.free_nodes@[k]),
            forall|k: int|
                0 <= k < pre.free_nodes@.len() && k != idx && k != idx - 1 ==> word_at(
                    mf,
                    (#[trigger] pre.free_nodes@[k]) + 8,
                ) == word_at(pre.mem@, pre.free_nodes@[k] + 8),
            forall|q: int|
                #![trigger pre.live_blocks@.contains_key(q)]
                pre.live_blocks@.contains_key(q) ==> word_at(mf, pre.live_blocks@[q].0) == word_at(
                    pre.mem@,
                    pre.live_blocks@[q].0,
                ) && word_at(mf, q - 8) == word_at(pre.mem@, q - 8),
    {
        pre.lemma_blocks_wf();
        let bs0 = pre.blocks();
        let fl0 = pre.free_nodes@;
        let cap = pre.cap();
        let h = fl0[idx];
        let e = pre.end_of(h);
        assert(pre.node_ok(idx));
        assert(bs0[idx] == (h, pre.size_of(h)));
        if idx > 0 {
            assert(pre.node_ok(idx - 1));
            assert(pre.ordered_at(idx - 1));
            assert(pre.end_of(fl0[idx - 1]) < fl0[idx]);
        }
        assert forall|k: int| 0 <= k < fl0.len() && k != idx implies word_at(
            mf,
            #[trigger] fl0[k],
        ) == word_at(pre.mem@, fl0[k]) by {
            assert(pre.node_ok(k));
            if k < idx {
                lemma_blocks_ordered(bs0, cap, k, idx);
            } else {
                lemma_blocks_ordered(bs0, cap, idx, k);
            }
            if idx > 0 && k < idx - 1 {
                lemma_blocks_ordered(bs0, cap, k, idx - 1);
            }
        }
        assert forall|k: int| 0 <= k < fl0.len() && k != idx && k != idx - 1 implies word_at(
            mf,
            (#[trigger] fl0[k]) + 8,
        ) == word_at(pre.mem@, fl0[k] + 8) by {
            assert(pre.node_ok(k));
            if k < idx {
                lemma_blocks_ordered(bs0, cap, k, idx);
            } else {
                lemma_blocks_ordered(bs0, cap, idx, k);
            }
            if idx > 0 && k < idx - 1 {
                lemma_blocks_ordered(bs0, cap, k, idx - 1);
            }
        }
        assert forall|q: int| #[trigger] pre.live_blocks@.contains_key(q) implies word_at(
            mf,
            pre.live_blocks@[q].0,
        ) == word_at(pre.mem@, pre.live_blocks@[q].0) && word_at(mf, q - 8) == word_at(
            pre.mem@,
            q - 8,
        ) by {
            assert(pre.live_ok(q));
            assert(pre.free_live_disjoint(idx, q));
            if idx > 0 {
                assert(pre.free_live_disjoint(idx - 1, q));
            }
            assert(word_at(mf, pre.live_blocks@[q].0) == word_at(pre.mem@, pre.live_blocks@[q].0));
            assert(word_at(mf, q - 8) == word_at(pre.mem@, q - 8));
        }
    }

    /// After a split of the block at index `idx`: the new state is
    /// well-formed and its abstract free list is the old one with the
    /// candidate replaced by the trailing remainder.
    #[verifier::rlimit(100)]
    proof fn lemma_split_wf_after(self, pre: FreeListAllocator, idx: int, size: int, align: int)
        requires
            pre.wf(),
            pre.initialized(),
            0 <= idx < pre.free_nodes@.len(),
            size >= 0,
            align >= 1,
            pre.size_of(pre.free_nodes@[idx]) >= consumed_at(pre.free_nodes@[idx], size, align),
            will_split(pre.blocks()[idx], size, align),
            self.heap_size == pre.heap_size,
            self.mem@.len() == pre.mem@.len(),
            self.free_nodes@ == pre.free_nodes@.update(
                idx,
                split_pos(pre.blocks()[idx], size, align),
            ),
            self.live_blocks@ == pre.live_blocks@.insert(
                user_at(pre.free_nodes@[idx], align),
                (pre.free_nodes@[idx], consumed_at(pre.free_nodes@[idx], size, align)),
            ),
            idx == 0 ==> self.head as int == split_pos(pre.blocks()[idx], size, align),
            idx > 0 ==> self.head == pre.head,
            word_at(self.mem@, pre.free_nodes@[idx]) == consumed_at(
                pre.free_nodes@[idx],
                size,
                align,
            ),
            word_at(self.mem@, split_pos(pre.blocks()[idx], size, align)) == block_end(
                pre.blocks()[idx],
            ) - split_pos(pre.blocks()[idx], size, align) - 16,
            word_at(self.mem@, split_pos(pre.blocks()[idx], size, align) + 8) == pre.next_of(
                pre.free_nodes@[idx],
            ),
            idx > 0 ==> word_at(self.mem@, pre.free_nodes@[idx - 1] + 8) == split_pos(
                pre.blocks()[idx],
                size,
                align,
            ),
            word_at(self.mem@, user_at(pre.free_nodes@[idx], align) - 8) == pre.free_nodes@[idx],
            forall|a: int|
                #![trigger word_at(self.mem@, a)]
                0 <= a && a + 8 <= pre.mem@.len() && (a + 8 <= pre.free_nodes@[idx] || block_end(
                    pre.blocks()[idx],
                ) <= a) && (idx > 0 ==> (a + 8 <= pre.free_nodes@[idx - 1] + 8
                    || pre.free_nodes@[idx - 1] + 16 <= a)) ==> word_at(self.mem@, a) == word_at(
                    pre.mem@,
                    a,
                ),
        ensures
            self.wf(),
            self.initialized(),
            self.blocks() == alloc_blocks(pre.blocks(), idx, size, align),
            self.usable(user_at(pre.free_nodes@[idx], align)) >= size,
    {
        pre.lemma_blocks_wf();
        let bs0 = pre.blocks();
        let fl0 = pre.free_nodes@;
        let live0 = pre.live_blocks@;
        let cap = pre.cap();
        let h = fl0[idx];
        let sz = pre.size_of(h);
        let e = h + 16 + sz;
        let c = consumed_at(h, size, align);
        let pp = user_at(h, align);
        let n = split_pos(bs0[idx], size, align);
        let flf = self.free_nodes@;
        assert(pre.node_ok(idx));
        assert(bs0[idx] == (h, sz));
        lemma_align_up(h + 24, align);
        lemma_align_up(h + 16 + c, 8);
        assert(h + 24 <= pp);
        assert(c >= 8 + size);
        assert(pp + size == h + 16 + c);
        assert(h + 16 + c <= n);
        assert(n + 16 <= e);
        assert(n % 8 == 0);
        assert(e <= cap);
        if idx > 0 {
            assert(pre.node_ok(idx - 1));
            assert(pre.ordered_at(idx - 1));
            assert(pre.end_of(fl0[idx - 1]) < fl0[idx]);
        }
        assert forall|k: int| 0 <= k < fl0.len() && k != idx implies (#[trigger] pre.end_of(
            fl0[k],
        ) < h || e < fl0[k]) by {
            if k < idx {
                lemma_blocks_ordered(bs0, cap, k, idx);
            } else {
                lemma_blocks_ordered(bs0, cap, idx, k);
            }
        }
        Self::lemma_alloc_words_preserved(pre, self.mem@, idx);
        assert forall|i: int| 0 <= i < flf.len() implies self.node_ok(i) by {
            if i == idx {
                assert(self.size_of(n) == e - n - 16);
                assert(self.next_of(n) == pre.next_of(h));
            } else {
                assert(pre.node_ok(i));
                if i == idx - 1 {
                    assert(self.next_of(fl0[i]) == n);
                }
            }
        }
        assert forall|i: int| 0 <= i < flf.len() - 1 implies self.ordered_at(i) by {
            assert(pre.node_ok(i));
            assert(pre.ordered_at(i));
            if i == idx {
                assert(self.end_of(n) == e);
                assert(pre.end_of(fl0[i]) < fl0[i + 1]);
            } else if i == idx - 1 {
                assert(pre.end_of(fl0[i]) < h);
            } else {
                assert(pre.end_of(fl0[i]) < fl0[i + 1]);
            }
        }
        assert forall|q: int| self.live_blocks@.contains_key(q) implies self.live_ok(q) by {
            if q == pp {
                assert(self.size_of(h) == c);
            } else {
                assert(pre.live_ok(q));
            }
        }
        assert forall|i: int, q: int|
            0 <= i < flf.len() && self.live_blocks@.contains_key(q) implies self.free_live_disjoint(
            i,
            q,
        ) by {
            if q == pp {
                if i != idx {
                    assert(pre.end_of(fl0[i]) < h || e < fl0[i]);
                }
            } else if i == idx {
                assert(pre.free_live_disjoint(idx, q));
                assert(pre.live_ok(q));
            } else {
                assert(pre.free_live_disjoint(i, q));
                assert(pre.live_ok(q));
            }
        }
        assert forall|p2: int, q: int|
            self.live_blocks@.contains_key(p2) && self.live_blocks@.contains_key(q) && p2
                != q implies self.live_live_disjoint(p2, q) by {
            if p2 == pp {
                assert(pre.free_live_disjoint(idx, q));
                assert(pre.live_ok(q));
            } else if q == pp {
                assert(pre.free_live_disjoint(idx, p2));
                assert(pre.live_ok(p2));
            } else {
                assert(pre.live_live_disjoint(p2, q));
                assert(pre.live_ok(p2));
                assert(pre.live_ok(q));
            }
        }
        assert(self.blocks() =~= alloc_blocks(bs0, idx, size, align));
    }

    /// After taking the block at index `idx` whole: the new state is
    /// well-formed and its abstract free list is the old one without it.
    #[verifier::rlimit(100)]
    proof fn lemma_whole_wf_after(self, pre: FreeListAllocator, idx: int, size: int, align: int)
        requires
            pre.wf(),
            pre.initialized(),
            0 <= idx < pre.free_nodes@.len(),
            size >= 0,
            align >= 1,
            pre.size_of(pre.free_nodes@[idx]) >= consumed_at(pre.free_nodes@[idx], size, align),
            !will_split(pre.blocks()[idx], size, align),
            self.heap_size == pre.heap_size,
            self.mem@.len() == pre.mem@.len(),
            self.free_nodes@ == pre.free_nodes@.remove(idx),
            self.live_blocks@ == pre.live_blocks@.insert(
                user_at(pre.free_nodes@[idx], align),
                (pre.free_nodes@[idx], pre.size_of(pre.free_nodes@[idx])),
            ),
            idx == 0 ==> self.head as int == pre.next_of(pre.free_nodes@[idx]),
            idx > 0 ==> self.head == pre.head,
            word_at(self.mem@, pre.free_nodes@[idx]) == pre.size_of(pre.free_nodes@[idx]),
            idx > 0 ==> word_at(self.mem@, pre.free_nodes@[idx - 1] + 8) == pre.next_of(
                pre.free_nodes@[idx],
            ),
            word_at(self.mem@, user_at(pre.free_nodes@[idx], align) - 8) == pre.free_nodes@[idx],
            forall|a: int|
                #![trigger word_at(self.mem@, a)]
                0 <= a && a + 8 <= pre.mem@.len() && (a + 8 <= pre.free_nodes@[idx] || block_end(
                    pre.blocks()[idx],
                ) <= a) && (idx > 0 ==> (a + 8 <= pre.free_nodes@[idx - 1] + 8
                    || pre.free_nodes@[idx - 1] + 16 <= a)) ==> word_at(self.mem@, a) == word_at(
                    pre.mem@,
                    a,
                ),
        ensures
            self.wf(),
            self.initialized(),
            self.blocks() == alloc_blocks(pre.blocks(), idx, size, align),
            self.usable(user_at(pre.free_nodes@[idx], align)) >= size,
    {
        pre.lemma_blocks_wf();
        let bs0 = pre.blocks();
        let fl0 = pre.free_nodes@;
        let live0 = pre.live_blocks@;
        let cap = pre.cap();
        let h = fl0[idx];
        let sz = pre.size_of(h);
        let e = h + 16 + sz;
        let c = consumed_at(h, size, align);
        let pp = user_at(h, align);
        let flf = self.free_nodes@;
        assert(pre.node_ok(idx));
        assert(bs0[idx] == (h, sz));
        lemma_align_up(h + 24, align);
        assert(h + 24 <= pp);
        assert(c >= 8 + size);
        assert(pp + size == h + 16 + c);
        assert(e <= cap);
        if idx > 0 {
            assert(pre.node_ok(idx - 1));
            assert(pre.ordered_at(idx - 1));
            assert(pre.end_of(fl0[idx - 1]) < fl0[idx]);
        }
        assert forall|k: int| 0 <= k < fl0.len() && k != idx implies (#[trigger] pre.end_of(
            fl0[k],
        ) < h || e < fl0[k]) by {
            if k < idx {
                lemma_blocks_ordered(bs0, cap, k, idx);
            } else {
                lemma_blocks_ordered(bs0, cap, idx, k);
            }
        }
        Self::lemma_alloc_words_preserved(pre, self.mem@, idx);
        assert forall|i: int| 0 <= i < flf.len() implies self.node_ok(i) by {
            if i < idx {
                assert(flf[i] == fl0[i]);
                assert(pre.node_ok(i));
                if i == idx - 1 {
                    assert(self.next_of(fl0[i]) == pre.next_of(h));
                    assert(pre.next_of(h) == if idx == fl0.len() - 1 {
                        cap
                    } else {
                        fl0[idx + 1]
                    });
                }
            } else {
                assert(flf[i] == fl0[i + 1]);
                assert(pre.node_ok(i + 1));
            }
        }
        assert forall|i: int| 0 <= i < flf.len() - 1 implies self.ordered_at(i) by {
            if i < idx - 1 {
                assert(pre.ordered_at(i));
                assert(pre.end_of(fl0[i]) < fl0[i + 1]);
            } else if i == idx - 1 {
                assert(pre.ordered_at(idx - 1));
                assert(pre.ordered_at(idx));
                assert(pre.end_of(fl0[i]) < h);
                assert(pre.end_of(fl0[idx]) < fl0[idx + 1]);
            } else {
                assert(pre.ordered_at(i + 1));
                assert(pre.end_of(fl0[i + 1]) < fl0[i + 2]);
            }
        }
        assert forall|q: int| self.live_blocks@.contains_key(q) implies self.live_ok(q) by {
            if q == pp {
                assert(self.size_of(h) == sz);
            } else {
                assert(pre.live_ok(q));
            }
        }
        assert forall|i: int, q: int|
            0 <= i < flf.len() && self.live_blocks@.contains_key(q) implies self.free_live_disjoint(
            i,
            q,
        ) by {
            let f = flf[i];
            let k: int = if i < idx {
                i
            } else {
                i + 1
            };
            assert(f == fl0[k]);
            if q == pp {
                assert(pre.end_of(fl0[k]) < h || e < fl0[k]);
            } else {
                assert(pre.free_live_disjoint(k, q));
                assert(pre.live_ok(q));
            }
        }
        assert forall|p2: int, q: int|
            self.live_blocks@.contains_key(p2) && self.live_blocks@.contains_key(q) && p2
                != q implies self.live_live_disjoint(p2, q) by {
            if p2 == pp {
                assert(pre.free_live_disjoint(idx, q));
                assert(pre.live_ok(q));
            } else if q == pp {
                assert(pre.free_live_disjoint(idx, p2));
                assert(pre.live_ok(p2));
            } else {
                assert(pre.live_live_disjoint(p2, q));
                assert(pre.live_ok(p2));
                assert(pre.live_ok(q));
            }
        }
        assert(self.blocks() =~= alloc_blocks(bs0, idx, size, align));
    }

    /// Serves the request from the fitting block at free-list index `idx`:
    /// splits it or takes it whole, writes the back-pointer, and returns
    /// the payload offset.
    #[verifier::rlimit(100)]
    fn take_block(
        &mut self,
        size: usize,
        align: usize,
        prev: usize,
        current: usize,
        user_start: usize,
        consumed: usize,
        sz: usize,
        nxt64: u64,
        Ghost(idx): Ghost<int>,
        Ghost(bs0): Ghost<Seq<(int, int)>>,
    ) -> (p: usize)
        requires
            old(self).wf(),
            old(self).initialized(),
            bs0 == old(self).blocks(),
            0 <= idx < bs0.len(),
            current as int == bs0[idx].0,
            sz as int == bs0[idx].1,
            idx == 0 ==> prev as int == old(self).cap(),
            idx > 0 ==> prev as int == bs0[idx - 1].0,
            align >= 1,
            is_power_of_two(align as int),
            align <= old(self).heap_size,
            size <= old(self).heap_size,
            user_start as int == user_at(current as int, align as int),
            consumed as int == consumed_at(current as int, size as int, align as int),
            sz >= consumed,
            nxt64 as int == old(self).next_of(current as int),
        ensures
            final(self).wf(),
            final(self).initialized(),
            p == user_start,
            final(self).blocks() == alloc_blocks(bs0, idx, size as int, align as int),
            final(self).live_map() == old(self).live_map().insert(
                user_start as int,
                (current as int, freed_size(bs0[idx], size as int, align as int)),
            ),
            final(self).usable(user_start as int) >= size,
    {
        proof {
            old(self).lemma_blocks_wf();
            assert(self.node_ok(idx));
            if idx > 0 {
                assert(self.node_ok(idx - 1));
            }
            assert forall|k: int| 0 <= k < bs0.len() && k != idx implies (block_end(
                #[trigger] bs0[k],
            ) < bs0[idx].0 || block_end(bs0[idx]) < bs0[k].0) by {
                if k < idx {
                    lemma_blocks_ordered(bs0, self.cap(), k, idx);
                } else {
                    lemma_blocks_ordered(bs0, self.cap(), idx, k);
                }
            }
            lemma_align_up(current as int + 24, align as int);
        }
        let ghost m0 = self.mem@;
        let ghost fl0 = self.free_nodes@;
        let ghost live0 = self.live_blocks@;
        let ghost h = current as int;
        let ghost e = h + 16 + sz as int;
        let ghost c = consumed as int;
        let ghost pp = user_start as int;
        let ghost cap = self.cap();
        let ghost pl: int = if idx > 0 { prev as int + 8 } else { h };
        proof {
            assert(pp + size as int == h + 16 + c);
            assert(e <= cap);
            if idx > 0 {
                assert(self.ordered_at(idx - 1));
                assert(self.end_of(fl0[idx - 1]) < h);
                assert(pl + 8 <= h);
            }
        }
        let leftover = sz - consumed;
        proof {
            reveal_with_fuel(is_power_of_two, 5);
            assert(is_power_of_two(8int));
        }
        let hdr_after = align_up(current + HEADER_SIZE + consumed, HEADER_ALIGN);
        let waste = hdr_after - (current + HEADER_SIZE + consumed);
        let ghost n = hdr_after as int;
        proof {
            assert(n == split_pos(bs0[idx], size as int, align as int));
            assert(waste as int == split_waste(bs0[idx], size as int, align as int));
        }
        if leftover >= waste + MIN_FREE_BLOCK {
            let new_size = leftover - waste - HEADER_SIZE;
            proof {
                assert(will_split(bs0[idx], size as int, align as int));
                assert(n + 16 + new_size as int == e);
            }
            store_word(&mut self.mem, current, consumed as u64);
            let ghost m1 = self.mem@;
            store_word(&mut self.mem, hdr_after, new_size as u64);
            let ghost m2 = self.mem@;
            store_word(&mut self.mem, hdr_after + 8, nxt64);
            let ghost m3 = self.mem@;
            if prev == self.heap_size {
                self.head = hdr_after;
            } else {
                store_word(&mut self.mem, prev + 8, hdr_after as u64);
            }
            let ghost m4 = self.mem@;
            store_word(&mut self.mem, user_start - BACK_PTR_SIZE, current as u64);
            let ghost mf = self.mem@;
            self.free_nodes = Ghost(fl0.update(idx, n));
            self.live_blocks = Ghost(live0.insert(pp, (h, c)));
            proof {
                let plw_lo: int = if idx > 0 {
                    prev as int + 8
                } else {
                    0
                };
                let plw_hi: int = if idx > 0 {
                    prev as int + 16
                } else {
                    0
                };
                Self::lemma_untouched_words(m1, mf, n, n + 16, plw_lo, plw_hi, pp - 8, pp, 0, 0);
                Self::lemma_untouched_words(
                    m2,
                    mf,
                    n + 8,
                    n + 16,
                    plw_lo,
                    plw_hi,
                    pp - 8,
                    pp,
                    0,
                    0,
                );
                Self::lemma_untouched_words(m3, mf, plw_lo, plw_hi, pp - 8, pp, 0, 0, 0, 0);
                Self::lemma_untouched_words(m4, mf, pp - 8, pp, 0, 0, 0, 0, 0, 0);
                Self::lemma_untouched_words(
                    m0,
                    mf,
                    h,
                    h + 8,
                    n,
                    n + 16,
                    plw_lo,
                    plw_hi,
                    pp - 8,
                    pp,
                );
                assert(word_at(mf, h) == c);
                assert(word_at(mf, n) == new_size as int);
                assert(word_at(mf, n + 8) == nxt64 as int);
                if idx > 0 {
                    assert(word_at(mf, prev as int + 8) == n);
                }
                assert(word_at(mf, pp - 8) == h);
                assert forall|a: int|
                    0 <= a && a + 8 <= m0.len() && (a + 8 <= h || e <= a) && (a + 8 <= pl || pl
                        + 8 <= a) implies #[trigger] word_at(mf, a) == word_at(m0, a) by {
                    assert(n >= h + 16 + c);
                    assert(n + 16 <= e);
                    assert(h + 16 <= pp - 8 && pp <= h + 16 + c);
                }
                self.lemma_split_wf_after(*old(self), idx, size as int, align as int);
            }
            user_start
        } else {
            proof {
                assert(!will_split(bs0[idx], size as int, align as int));
            }
            let nxt = nxt64 as usize;
            proof {
                if idx + 1 < self.free_nodes@.len() {
                    assert(self.node_ok(idx + 1));
                }
                assert(nxt64 as int <= self.cap());
            }
            if prev == self.heap_size {
                self.head = nxt;
            } else {
                store_word(&mut self.mem, prev + 8, nxt64);
            }
            let ghost m4 = self.mem@;
            store_word(&mut self.mem, user_start - BACK_PTR_SIZE, current as u64);
            let ghost mf = self.mem@;
            self.free_nodes = Ghost(fl0.remove(idx));
            self.live_blocks = Ghost(live0.insert(pp, (h, sz as int)));
            proof {
                let plw_lo: int = if idx > 0 {
                    prev as int + 8
                } else {
                    0
                };
                let plw_hi: int = if idx > 0 {
                    prev as int + 16
                } else {
                    0
                };
                Self::lemma_untouched_words(m4, mf, pp - 8, pp, 0, 0, 0, 0, 0, 0);
                Self::lemma_untouched_words(m0, mf, plw_lo, plw_hi, pp - 8, pp, 0, 0, 0, 0);
                if idx > 0 {
                    assert(word_at(mf, prev as int + 8) == nxt64 as int);
                }
                assert(word_at(mf, pp - 8) == h);
                assert(word_at(mf, h) == sz as int);
                assert forall|a: int|
                    0 <= a && a + 8 <= m0.len() && (a + 8 <= h || e <= a) && (a + 8 <= pl || pl
                        + 8 <= a) implies #[trigger] word_at(mf, a) == word_at(m0, a) by {
                    assert(h + 16 <= pp - 8 && pp <= h + 16 + c);
                }
                self.lemma_whole_wf_after(*old(self), idx, size as int, align as int);
            }
            user_start
        }
    }

    /// After freeing the live block at payload `p`, spliced in at free-list
    /// index `idx` with a forward merge (`fwd`) and a backward merge
    /// (`bwd`) exactly where byte-adjacency held: the new state is
    /// well-formed and its abstract free list is `insert_block` of the old.
    /// `lo`, `kk`, `st`, `ee` name the resulting list's shape: old nodes
    /// below `lo` survive, then one node `[st, ee)`, then old nodes from
    /// `kk` up.
    #[verifier::rlimit(100)]
    proof fn lemma_dealloc_wf_after(
        self,
        pre: FreeListAllocator,
        p: int,
        idx: int,
        fwd: bool,
        bwd: bool,
        lo: int,
        kk: int,
        st: int,
        ee: int,
    )
        requires
            pre.wf(),
            pre.initialized(),
            pre.live_blocks@.contains_key(p),
            0 <= idx <= pre.free_nodes@.len(),
            forall|k: int| 0 <= k < idx ==> #[trigger] pre.free_nodes@[k] < pre.live_blocks@[p].0,
            idx < pre.free_nodes@.len() ==> pre.free_nodes@[idx] > pre.live_blocks@[p].0,
            fwd <==> (idx < pre.free_nodes@.len() && pre.live_blocks@[p].0 + 16
                + pre.live_blocks@[p].1 == pre.free_nodes@[idx]),
            bwd <==> (idx > 0 && pre.end_of(pre.free_nodes@[idx - 1]) == pre.live_blocks@[p].0),
            lo == (if bwd {
                idx - 1
            } else {
                idx
            }),
            kk == (if fwd {
                idx + 1
            } else {
                idx
            }),
            st == (if bwd {
                pre.free_nodes@[idx - 1]
            } else {
                pre.live_blocks@[p].0
            }),
            ee == (if fwd {
                pre.end_of(pre.free_nodes@[idx])
            } else {
                pre.live_blocks@[p].0 + 16 + pre.live_blocks@[p].1
            }),
            self.heap_size == pre.heap_size,
            self.mem@.len() == pre.mem@.len(),
            self.free_nodes@ == pre.free_nodes@.subrange(0, lo) + seq![st]
                + pre.free_nodes@.subrange(kk, pre.free_nodes@.len() as int),
            self.live_blocks@ == pre.live_blocks@.remove(p),
            (!bwd && idx == 0) ==> self.head as int == pre.live_blocks@[p].0,
            (bwd || idx > 0) ==> self.head == pre.head,
            word_at(self.mem@, st) == ee - st - 16,
            word_at(self.mem@, st + 8) == (if kk == pre.free_nodes@.len() {
                pre.cap()
            } else {
                pre.free_nodes@[kk]
            }),
            (!bwd && idx > 0) ==> word_at(self.mem@, pre.free_nodes@[idx - 1] + 8)
                == pre.live_blocks@[p].0,
            (!bwd && idx > 0) ==> word_at(self.mem@, pre.free_nodes@[idx - 1]) == word_at(
                pre.mem@,
                pre.free_nodes@[idx - 1],
            ),
            forall|a: int|
                #![trigger word_at(self.mem@, a)]
                0 <= a && a + 8 <= pre.mem@.len() && (a + 8 <= pre.live_blocks@[p].0
                    || pre.live_blocks@[p].0 + 16 <= a) && (idx > 0 ==> (a + 8
                    <= pre.free_nodes@[idx - 1] || pre.free_nodes@[idx - 1] + 16 <= a))
                    ==> word_at(self.mem@, a) == word_at(pre.mem@, a),
        ensures
            self.wf(),
            self.initialized(),
            self.blocks() == insert_block(pre.blocks(), pre.live_blocks@[p].0, pre.live_blocks@[p].1),
            self.live_map() == pre.live_map().remove(p),
    {
        pre.lemma_blocks_wf();
        let bs0 = pre.blocks();
        let fl0 = pre.free_nodes@;
        let live0 = pre.live_blocks@;
        let cap = pre.cap();
        let hh = live0[p].0;
        let s = live0[p].1;
        let e = hh + 16 + s;
        let flf = self.free_nodes@;
        assert(pre.live_ok(p));
        assert(hh + 16 <= e <= cap);
        assert(flf.len() == lo + 1 + fl0.len() - kk);
        if idx > 0 {
            assert(pre.node_ok(idx - 1));
            assert(pre.free_live_disjoint(idx - 1, p));
            assert(pre.end_of(fl0[idx - 1]) <= hh);
        }
        if idx < fl0.len() {
            assert(pre.node_ok(idx));
            assert(pre.free_live_disjoint(idx, p));
            assert(e <= fl0[idx]);
        }
        assert forall|k: int| 0 <= k < idx implies pre.end_of(#[trigger] fl0[k]) <= hh by {
            assert(pre.free_live_disjoint(k, p));
            assert(pre.node_ok(k));
        }
        assert forall|k: int| idx <= k < fl0.len() implies e <= #[trigger] fl0[k] by {
            assert(pre.free_live_disjoint(k, p));
            assert(pre.node_ok(k));
            if k > idx {
                lemma_blocks_ordered(bs0, cap, idx, k);
            }
        }
        // words of surviving nodes and of other live blocks are unchanged
        assert forall|k: int| 0 <= k < fl0.len() && !(bwd && k == idx - 1) implies word_at(
            self.mem@,
            #[trigger] fl0[k],
        ) == word_at(pre.mem@, fl0[k]) by {
            assert(pre.node_ok(k));
            if k == idx - 1 {
                assert(word_at(self.mem@, fl0[k]) == word_at(pre.mem@, fl0[k]));
            } else if idx > 0 && k < idx - 1 {
                lemma_blocks_ordered(bs0, cap, k, idx - 1);
            }
        }
        assert forall|k: int| 0 <= k < fl0.len() && k != idx - 1 implies word_at(
            self.mem@,
            (#[trigger] fl0[k]) + 8,
        ) == word_at(pre.mem@, fl0[k] + 8) by {
            assert(pre.node_ok(k));
            if idx > 0 && k < idx - 1 {
                lemma_blocks_ordered(bs0, cap, k, idx - 1);
            }
        }
        assert forall|q: int| #[trigger] live0.contains_key(q) && q != p implies word_at(
            self.mem@,
            live0[q].0,
        ) == word_at(pre.mem@, live0[q].0) && word_at(self.mem@, q - 8) == word_at(
            pre.mem@,
            q - 8,
        ) by {
            assert(pre.live_ok(q));
            assert(pre.live_live_disjoint(p, q));
            if idx > 0 {
                assert(pre.free_live_disjoint(idx - 1, q));
            }
        }
        // each node of the new list is well formed
        assert forall|i: int| 0 <= i < flf.len() implies self.node_ok(i) by {
            if i < lo {
                assert(flf[i] == fl0[i]);
                assert(pre.node_ok(i));
                if i + 1 == lo {
                    if !bwd && idx > 0 {
                        assert(self.next_of(fl0[i]) == hh);
                    } else {
                        assert(pre.ordered_at(i));
                    }
                } else {
                    assert(flf[i + 1] == fl0[i + 1]);
                }
            } else if i == lo {
                if bwd {
                    assert(pre.node_ok(idx - 1));
                } else {
                    assert(pre.live_ok(p));
                }
                if fwd {
                    assert(pre.node_ok(idx));
                }
                if i + 1 < flf.len() {
                    assert(flf[i + 1] == fl0[kk]);
                }
            } else {
                let k = i - lo - 1 + kk;
                assert(flf[i] == fl0[k]);
                assert(pre.node_ok(k));
                if i + 1 < flf.len() {
                    assert(flf[i + 1] == fl0[k + 1]);
                }
            }
        }
        // the new list is still address-ascending with no byte-adjacency
        assert forall|i: int| 0 <= i < flf.len() - 1 implies self.ordered_at(i) by {
            if i < lo - 1 {
                assert(flf[i] == fl0[i] && flf[i + 1] == fl0[i + 1]);
                assert(pre.ordered_at(i));
            } else if i == lo - 1 {
                assert(flf[i] == fl0[i]);
                if bwd {
                    assert(pre.ordered_at(idx - 2));
                } else {
                    assert(pre.end_of(fl0[idx - 1]) <= hh);
                }
            } else if i == lo {
                assert(flf[i + 1] == fl0[kk]);
                if fwd {
                    assert(pre.ordered_at(idx));
                } else {
                    assert(e <= fl0[kk]);
                }
            } else {
                let k = i - lo - 1 + kk;
                assert(flf[i] == fl0[k] && flf[i + 1] == fl0[k + 1]);
                assert(pre.ordered_at(k));
            }
        }
        assert forall|q: int| self.live_blocks@.contains_key(q) implies self.live_ok(q) by {
            assert(pre.live_ok(q));
        }
        assert forall|i: int, q: int|
            0 <= i < flf.len() && self.live_blocks@.contains_key(q) implies self.free_live_disjoint(
            i,
            q,
        ) by {
            assert(pre.live_ok(q));
            if i < lo {
                assert(pre.free_live_disjoint(i, q));
            } else if i == lo {
                assert(pre.live_live_disjoint(p, q));
                if bwd {
                    assert(pre.free_live_disjoint(idx - 1, q));
                }
                if fwd {
                    assert(pre.free_live_disjoint(idx, q));
                }
            } else {
                let k = i - lo - 1 + kk;
                assert(flf[i] == fl0[k]);
                assert(pre.free_live_disjoint(k, q));
            }
        }
        assert forall|p2: int, q: int|
            self.live_blocks@.contains_key(p2) && self.live_blocks@.contains_key(q) && p2
                != q implies self.live_live_disjoint(p2, q) by {
            assert(pre.live_live_disjoint(p2, q));
            assert(pre.live_ok(p2));
            assert(pre.live_ok(q));
        }
        // abstractly, this is exactly address-ordered insertion + merging
        assert forall|k: int| 0 <= k < idx implies (#[trigger] bs0[k]).0 < hh by {}
        lemma_splice_idx_at(bs0, hh, idx);
        let l1 = bs0.insert(idx, (hh, s));
        let fwd_spec = idx + 1 < l1.len() && hh + 16 + s == l1[idx + 1].0;
        if idx < bs0.len() {
            assert(l1[idx + 1] == bs0[idx]);
        }
        assert(fwd_spec == fwd);
        let l2 = if fwd_spec {
            l1.update(idx, (hh, s + 16 + l1[idx + 1].1)).remove(idx + 1)
        } else {
            l1
        };
        if idx > 0 {
            assert(l2[idx - 1] == bs0[idx - 1]);
        }
        let bwd_spec = idx > 0 && block_end(l2[idx - 1]) == hh;
        assert(bwd_spec == bwd);
        let res = if bwd_spec {
            l2.update(idx - 1, (l2[idx - 1].0, l2[idx - 1].1 + 16 + l2[idx].1)).remove(idx)
        } else {
            l2
        };
        assert(insert_block(bs0, hh, s) == res);
        assert(res.len() == flf.len());
        assert forall|i: int| 0 <= i < flf.len() implies self.blocks()[i] == res[i] by {
            if i < lo {
                assert(flf[i] == fl0[i]);
                assert(res[i] == bs0[i]);
            } else if i == lo {
                assert(self.blocks()[i] == (st, ee - st - 16));
                if fwd {
                    assert(l2[lo + (if bwd { 1int } else { 0int })] == (hh, s + 16 + bs0[idx].1));
                }
                if bwd {
                    assert(pre.end_of(fl0[idx - 1]) == hh);
                }
            } else {
                let k = i - lo - 1 + kk;
                assert(flf[i] == fl0[k]);
                assert(res[i] == bs0[k]);
            }
        }
        assert(self.blocks() =~= res);
    }

    /// Writes one byte at offset `off` inside the allocation at payload
    /// `ptr`. Touches nothing else: the free list, the live map and every
    /// header survive.
    pub fn write_byte(&mut self, ptr: usize, off: usize, val: u8)
        requires
            old(self).wf(),
            old(self).initialized(),
            old(self).live_map().contains_key(ptr as int),
            (off as int) < old(self).usable(ptr as int),
        ensures
            final(self).wf(),
            final(self).initialized(),
            final(self).blocks() == old(self).blocks(),
            final(self).live_map() == old(self).live_map(),
            final(self).mem_bytes() == old(self).mem_bytes().update(
                ptr as int + off as int,
                val,
            ),
    {
        proof {
            assert(self.live_ok(ptr as int));
            old(self).lemma_blocks_wf();
        }
        let ghost b = ptr as int + off as int;
        let ghost hh = self.live_blocks@[ptr as int].0;
        let ghost e = hh + 16 + self.live_blocks@[ptr as int].1;
        proof {
            assert(hh + 24 <= b < e <= self.cap());
        }
        self.mem.set(ptr + off, val);
        proof {
            let m0 = old(self).mem@;
            let mf = self.mem@;
            let fl0 = self.free_nodes@;
            let live0 = self.live_blocks@;
            let bs0 = old(self).blocks();
            assert forall|a: int|
                0 <= a && a + 8 <= m0.len() && (a + 8 <= b || b < a) implies #[trigger] word_at(
                mf,
                a,
            ) == word_at(m0, a) by {
                lemma_word_at_frame(m0, mf, a);
            }
            assert forall|k: int| 0 <= k < fl0.len() implies word_at(mf, #[trigger] fl0[k])
                == word_at(m0, fl0[k]) && word_at(mf, fl0[k] + 8) == word_at(
                m0,
                fl0[k] + 8,
            ) by {
                assert(old(self).node_ok(k));
                assert(old(self).free_live_disjoint(k, ptr as int));
            }
            assert forall|q: int| #[trigger] live0.contains_key(q) implies word_at(
                mf,
                live0[q].0,
            ) == word_at(m0, live0[q].0) && word_at(mf, q - 8) == word_at(m0, q - 8) by {
                assert(old(self).live_ok(q));
                if q != ptr as int {
                    assert(old(self).live_live_disjoint(ptr as int, q));
                }
            }
            assert forall|i: int| 0 <= i < fl0.len() implies self.node_ok(i) by {
                assert(old(self).node_ok(i));
            }
            assert forall|i: int| 0 <= i < fl0.len() - 1 implies self.ordered_at(i) by {
                assert(old(self).node_ok(i));
                assert(old(self).ordered_at(i));
            }
            assert forall|q: int| live0.contains_key(q) implies self.live_ok(q) by {
                assert(old(self).live_ok(q));
            }
            assert forall|i: int, q: int|
                0 <= i < fl0.len() && live0.contains_key(q) implies self.free_live_disjoint(
                i,
                q,
            ) by {
                assert(old(self).free_live_disjoint(i, q));
            }
            assert forall|p2: int, q: int|
                live0.contains_key(p2) && live0.contains_key(q) && p2
                    != q implies self.live_live_disjoint(p2, q) by {
                assert(old(self).live_live_disjoint(p2, q));
            }
            assert forall|i: int| 0 <= i < fl0.len() implies self.blocks()[i] == bs0[i] by {
                assert(word_at(mf, fl0[i]) == word_at(m0, fl0[i]));
            }
            assert(self.blocks() =~= bs0);
        }
    }

    /// Reads one byte at offset `off` inside the allocation at payload `ptr`.
    pub fn read_byte(&self, ptr: usize, off: usize) -> (r: u8)
        requires
            self.wf(),
            self.initialized(),
            self.live_map().contains_key(ptr as int),
            (off as int) < self.usable(ptr as int),
        ensures
            r == self.mem_bytes()[ptr as int + off as int],
    {
        proof {
            assert(self.live_ok(ptr as int));
        }
        self.mem[ptr + off]
    }

    /// The free list as the caller sees it: each node's offset and recorded
    /// size, in address order.
    pub fn free_blocks(&self) -> (r: Vec<(usize, usize)>)
        requires
            self.wf(),
        ensures
            r@.len() == self.blocks().len(),
            forall|i: int|
                0 <= i < r@.len() ==> ((#[trigger] r@[i]).0 as int, r@[i].1 as int)
                    == self.blocks()[i],
    {
        let mut r: Vec<(usize, usize)> = Vec::new();
        let mut current = self.head;
        let ghost mut idx: int = 0;
        while current != self.heap_size
            invariant
                self.wf(),
                0 <= idx <= self.free_nodes@.len(),
                idx < self.free_nodes@.len() ==> current as int == self.free_nodes@[idx],
                idx == self.free_nodes@.len() ==> current as int == self.cap(),
                r@.len() == idx,
                forall|i: int|
                    0 <= i < idx ==> ((#[trigger] r@[i]).0 as int, r@[i].1 as int)
                        == self.blocks()[i],
            decreases self.free_nodes@.len() - idx,
        {
            proof {
                assert(self.node_ok(idx));
                if idx + 1 < self.free_nodes@.len() {
                    assert(self.node_ok(idx + 1));
                }
            }
            let sz = load_word(&self.mem, current) as usize;
            let nxt = load_word(&self.mem, current + 8) as usize;
            r.push((current, sz));
            current = nxt;
            proof {
                idx = idx + 1;
            }
        }
        proof {
            if idx < self.free_nodes@.len() {
                assert(self.node_ok(idx));
            }
        }
        r
    }

    /// The arena's capacity in bytes; zero before `init`.
    pub fn capacity(&self) -> (r: usize)
        ensures
            r as int == self.cap(),
    {
        self.heap_size
    }

    /// Releases an allocation. A `None` pointer is a no-op. The owning
    /// header is recovered through the back-pointer word, spliced into the
    /// free list in address order, and merged with a byte-adjacent
    /// successor and then a byte-adjacent predecessor.
    pub fn dealloc(&mut self, ptr: Option<usize>)
        requires
            old(self).wf(),
            old(self).initialized(),
            ptr matches Some(p) ==> old(self).live_map().contains_key(p as int),
        ensures
            final(self).wf(),
            final(self).initialized(),
            ptr is None ==> *final(self) == *old(self),
            ptr matches Some(p) ==> final(self).blocks() == insert_block(
                old(self).blocks(),
                old(self).live_map()[p as int].0,
                old(self).live_map()[p as int].1,
            ) && final(self).live_map() == old(self).live_map().remove(p as int),
    {
        let p = match ptr {
            Some(p) => p,
            None => {
                return ;
            },
        };
        proof {
            old(self).lemma_blocks_wf();
            assert(self.live_ok(p as int));
        }
        let ghost bs0 = self.blocks();
        let ghost fl0 = self.free_nodes@;
        let ghost live0 = self.live_blocks@;
        let ghost cap = self.cap();
        let ghost m0 = self.mem@;
        let ghost s = live0[p as int].1;
        let h64 = load_word(&self.mem, p - BACK_PTR_SIZE);
        let h = h64 as usize;
        let ghost hh = h as int;
        let ghost e = hh + 16 + s;
        let mut prev: usize = self.heap_size;
        let mut current: usize = self.head;
        let ghost mut idx: int = 0;
        while current != self.heap_size && current < h
            invariant
                *self == *old(self),
                self.wf(),
                self.initialized(),
                bs0 == self.blocks(),
                fl0 == self.free_nodes@,
                live0 == self.live_blocks@,
                live0.contains_key(p as int),
                hh == live0[p as int].0,
                s == live0[p as int].1,
                h as int == hh,
                0 <= idx <= fl0.len(),
                idx < fl0.len() ==> current as int == fl0[idx],
                idx == fl0.len() ==> current as int == self.cap(),
                idx == 0 ==> prev as int == self.cap(),
                idx > 0 ==> prev as int == fl0[idx - 1] && fl0[idx - 1] < hh,
                forall|k: int| 0 <= k < idx ==> #[trigger] fl0[k] < hh,
            decreases fl0.len() - idx,
        {
            proof {
                assert(self.node_ok(idx));
                assert(self.free_live_disjoint(idx, p as int));
                if idx + 1 < fl0.len() {
                    assert(self.node_ok(idx + 1));
                }
            }
            prev = current;
            let nxt64 = load_word(&self.mem, current + 8);
            current = nxt64 as usize;
            proof {
                idx = idx + 1;
            }
        }
        proof {
            if idx < fl0.len() {
                assert(self.node_ok(idx));
                assert(self.free_live_disjoint(idx, p as int));
                assert(fl0[idx] > hh);
            }
            if idx > 0 {
                assert(self.node_ok(idx - 1));
                assert(self.free_live_disjoint(idx - 1, p as int));
                assert(self.end_of(fl0[idx - 1]) <= hh);
                assert(prev as int + 16 <= hh);
            }
            assert(hh + 16 <= e <= cap);
        }
        // splice: the freed header points at the first node above it
        store_word(&mut self.mem, h + 8, current as u64);
        let ghost m_a = self.mem@;
        if prev != self.heap_size {
            store_word(&mut self.mem, prev + 8, h64);
        } else {
            self.head = h;
        }
        let ghost m_b = self.mem@;
        proof {
            if idx > 0 {
                assert(word_at(m_b, prev as int + 8) == hh);
            }
            lemma_word_at_frame(m0, m_a, hh);
            lemma_word_at_frame(m_a, m_b, hh);
            assert(word_at(m_b, hh) == s);
            if idx < fl0.len() {
                lemma_word_at_frame(m0, m_a, fl0[idx]);
                lemma_word_at_frame(m_a, m_b, fl0[idx]);
                lemma_word_at_frame(m0, m_a, fl0[idx] + 8);
                lemma_word_at_frame(m_a, m_b, fl0[idx] + 8);
            }
        }
        let s_h = load_word(&self.mem, h);
        let fwd = current != self.heap_size && h + HEADER_SIZE + (s_h as usize) == current;
        if fwd {
            proof {
                assert(e == fl0[idx]);
            }
            let s_c = load_word(&self.mem, current);
            let n_c = load_word(&self.mem, current + 8);
            store_word(&mut self.mem, h, s_h + HEADER_SIZE as u64 + s_c);
            let ghost m_x = self.mem@;
            store_word(&mut self.mem, h + 8, n_c);
            proof {
                lemma_word_at_frame(m_x, self.mem@, hh);
            }
        }
        let ghost m_c = self.mem@;
        proof {
            if fwd {
                assert(word_at(m_c, hh) == s + 16 + old(self).size_of(fl0[idx]));
                assert(word_at(m_c, hh + 8) == old(self).next_of(fl0[idx]));
            } else {
                assert(m_c == m_b);
                lemma_word_at_frame(m_a, m_b, hh + 8);
                assert(word_at(m_c, hh + 8) == current as int);
                if idx < fl0.len() {
                    assert(e != fl0[idx]);
                }
            }
        }
        let mut bwd = false;
        if prev != self.heap_size {
            let s_p = load_word(&self.mem, prev);
            proof {
                lemma_word_at_frame(m0, m_a, prev as int);
                lemma_word_at_frame(m_a, m_b, prev as int);
                lemma_word_at_frame(m_b, m_c, prev as int);
            }
            if prev + HEADER_SIZE + (s_p as usize) == h {
                bwd = true;
                let s_h2 = load_word(&self.mem, h);
                let n_h2 = load_word(&self.mem, h + 8);
                store_word(&mut self.mem, prev, s_p + HEADER_SIZE as u64 + s_h2);
                let ghost m_d = self.mem@;
                store_word(&mut self.mem, prev + 8, n_h2);
                proof {
                    lemma_word_at_frame(m_d, self.mem@, prev as int);
                }
            } else {
                proof {
                    assert(self.end_of(prev as int) != hh);
                }
            }
        }
        let ghost mf = self.mem@;
        let ghost lo: int = if bwd {
            idx - 1
        } else {
            idx
        };
        let ghost kk: int = if fwd {
            idx + 1
        } else {
            idx
        };
        let ghost st: int = if bwd {
            prev as int
        } else {
            hh
        };
        let ghost ee: int = if fwd {
            old(self).end_of(fl0[idx])
        } else {
            e
        };
        self.free_nodes = Ghost(fl0.subrange(0, lo) + seq![st] + fl0.subrange(kk, fl0.len() as int));
        self.live_blocks = Ghost(live0.remove(p as int));
        proof {
            let r2lo: int = if idx > 0 {
                prev as int
            } else {
                0
            };
            let r2hi: int = if idx > 0 {
                prev as int + 16
            } else {
                0
            };
            Self::lemma_untouched_words(m0, mf, hh, hh + 16, r2lo, r2hi, 0, 0, 0, 0);
            if !bwd {
                assert(mf == m_c);
            }
            assert(word_at(mf, st) == ee - st - 16);
            assert(word_at(mf, st + 8) == (if kk == fl0.len() {
                cap
            } else {
                fl0[kk]
            }));
            if !bwd && idx > 0 {
                lemma_word_at_frame(m_b, m_c, prev as int + 8);
                assert(word_at(mf, prev as int + 8) == hh);
                lemma_word_at_frame(m0, m_a, prev as int);
                lemma_word_at_frame(m_a, m_b, prev as int);
                lemma_word_at_frame(m_b, m_c, prev as int);
                assert(word_at(mf, prev as int) == word_at(m0, prev as int));
            }
            self.lemma_dealloc_wf_after(*old(self), p as int, idx, fwd, bwd, lo, kk, st, ee);
        }
    }
}

} // verus!
