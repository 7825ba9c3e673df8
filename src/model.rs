//! The abstract state of the allocator and what each operation does to it.
use crate::arith::round_up;
use crate::block::{block_end, footprint, is_free, tally, Block, BlockState, HEADER_ALIGN, HEADER_SIZE};
use crate::pool::{class_offset, first_class, POOL_ARENA_ALIGN, POOL_ARENA_BYTES, POOL_CLASSES};
use vstd::prelude::*;

verus! {

/// The one recoverable failure: the request cannot be served.
#[derive(Clone, Copy, Debug, PartialEq, Eq, Structural)]
pub enum AllocError {
    NoMemory,
}

/// Why a pointer cannot be handed back.
#[derive(Clone, Copy, Debug, PartialEq, Eq, Structural)]
pub enum DeallocFault {
    /// The pointer lies in a block that is already free.
    DoubleFree,
    /// The pointer was handed out, but for another size.
    SizeMismatch,
    /// The pointer was never handed out by this allocator.
    UnknownPointer,
}

/// The allocator seen as a value: its blocks in address order, its counters
/// and its pools.
pub ghost struct HeapView {
    pub blocks: Seq<Block>,
    pub total: int,
    pub used: int,
    pub count: int,
    pub pool_base: Option<usize>,
    pub pool_used: Seq<bool>,
}

/// The pointer that `b` handed out; 0 for a free block.
pub open spec fn handed_ptr(b: Block) -> int {
    match b.state {
        BlockState::Used { ptr, len } => ptr as int,
        BlockState::Free => 0,
    }
}

/// The size that was asked for when `b` was handed out; 0 for a free block.
pub open spec fn handed_len(b: Block) -> int {
    match b.state {
        BlockState::Used { ptr, len } => len as int,
        BlockState::Free => 0,
    }
}

/// Blocks lie in ascending address order, none overlapping the next.
pub open spec fn ordered(s: Seq<Block>) -> bool {
    forall|i: int, j: int| 0 <= i < j < s.len() ==> block_end(#[trigger] s[i]) <= (#[trigger] s[j]).start
}

/// Every block has an aligned header, ends in the address space, and holds
/// what it handed out.
pub open spec fn placed(s: Seq<Block>) -> bool {
    forall|i: int| 0 <= i < s.len() ==> block_ok(#[trigger] s[i])
}

pub open spec fn block_ok(b: Block) -> bool {
    &&& b.start % HEADER_ALIGN == 0
    &&& block_end(b) <= usize::MAX
    &&& !is_free(b) ==> b.start + HEADER_SIZE <= handed_ptr(b) && handed_ptr(b) + span(
        handed_len(b),
    ) <= block_end(b)
}

/// No block overlaps the range `[lo, hi)`.
pub open spec fn apart(s: Seq<Block>, lo: int, hi: int) -> bool {
    forall|i: int| 0 <= i < s.len() ==> block_end(#[trigger] s[i]) <= lo || hi <= s[i].start
}

/// Blocks `k` and `k + 1` are both free and touch.
pub open spec fn mergeable(s: Seq<Block>, k: int) -> bool {
    &&& 0 <= k
    &&& k + 1 < s.len()
    &&& is_free(s[k])
    &&& is_free(s[k + 1])
    &&& block_end(s[k]) == s[k + 1].start
}

/// No two free blocks touch.
pub open spec fn coalesced(s: Seq<Block>) -> bool {
    forall|k: int| !#[trigger] mergeable(s, k)
}

/// One free block spanning `a` and `b`, which touch.
pub open spec fn merged(a: Block, b: Block) -> Block {
    Block { start: a.start, size: (a.size + HEADER_SIZE + b.size) as usize, state: BlockState::Free }
}

pub open spec fn merge_at(s: Seq<Block>, k: int) -> Seq<Block> {
    s.update(k, merged(s[k], s[k + 1])).remove(k + 1)
}

/// Merges block `i` with its right, then with its left neighbour, where they
/// are free and touch.
pub open spec fn coalesce_around(s: Seq<Block>, i: int) -> Seq<Block> {
    let t = if mergeable(s, i) {
        merge_at(s, i)
    } else {
        s
    };
    if mergeable(t, i - 1) {
        merge_at(t, i - 1)
    } else {
        t
    }
}

pub open spec fn freed(b: Block) -> Block {
    Block { start: b.start, size: b.size, state: BlockState::Free }
}

/// Bytes an allocation occupies: at least one, so that no two live
/// allocations share an address.
pub open spec fn span(len: int) -> int {
    if len == 0 {
        1
    } else {
        len
    }
}

/// Payload bytes a free block needs to serve a request wherever it starts.
/// Headers start at multiples of `HEADER_ALIGN`, so aligning the payload
/// pointer skips at most `align - HEADER_ALIGN` bytes.
pub open spec fn need(size: int, align: int) -> int {
    span(size) + if align > HEADER_ALIGN {
        align - HEADER_ALIGN
    } else {
        0
    }
}

pub open spec fn fits(b: Block, need: int) -> bool {
    is_free(b) && b.size >= need
}

pub open spec fn any_fit(s: Seq<Block>, need: int) -> bool {
    exists|j: int| 0 <= j < s.len() && #[trigger] fits(s[j], need)
}

/// Block `i` is the smallest that fits, the first in list order among equals.
pub open spec fn is_best_fit(s: Seq<Block>, need: int, i: int) -> bool {
    &&& 0 <= i < s.len()
    &&& fits(s[i], need)
    &&& forall|j: int| 0 <= j < s.len() && #[trigger] fits(s[j], need) ==> s[i].size <= s[j].size
    &&& forall|j: int| 0 <= j < i && #[trigger] fits(s[j], need) ==> s[i].size < s[j].size
}

pub open spec fn best_fit(s: Seq<Block>, need: int) -> int {
    choose|i: int| is_best_fit(s, need, i)
}

/// Payload bytes that block keeps when it serves a request.
pub open spec fn kept(size: int, align: int) -> int {
    round_up(need(size, align), HEADER_ALIGN as int)
}

/// The payload pointer that block `b` hands out for an alignment.
pub open spec fn payload_ptr(b: Block, align: int) -> int {
    round_up(b.start + HEADER_SIZE, align)
}

/// Block `i` handed out for a request; its surplus, where it exceeds a
/// header, split off as a free block right after it.
pub open spec fn carve(s: Seq<Block>, i: int, size: int, align: int) -> Seq<Block> {
    let b = s[i];
    let keep = kept(size, align);
    let state = BlockState::Used { ptr: payload_ptr(b, align) as usize, len: size as usize };
    if b.size > keep + HEADER_SIZE {
        s.update(i, Block { start: b.start, size: keep as usize, state }).insert(
            i + 1,
            Block {
                start: (b.start + HEADER_SIZE + keep) as usize,
                size: (b.size - keep - HEADER_SIZE) as usize,
                state: BlockState::Free,
            },
        )
    } else {
        s.update(i, Block { start: b.start, size: b.size, state })
    }
}

/// The first header-aligned address of a region.
pub open spec fn region_start(start: int) -> int {
    round_up(start, HEADER_ALIGN as int)
}

/// Bytes of a region from its first header-aligned address on.
pub open spec fn region_bytes(start: int, size: int) -> int {
    size - (region_start(start) - start)
}

/// The region can hold one header once aligned.
pub open spec fn holds_header(start: int, size: int) -> bool {
    region_bytes(start, size) >= HEADER_SIZE
}

/// The one free block that spans a region.
pub open spec fn region_block(start: int, size: int) -> Block {
    Block {
        start: region_start(start) as usize,
        size: (region_bytes(start, size) - HEADER_SIZE) as usize,
        state: BlockState::Free,
    }
}

/// `k` is where a block at `addr` goes to keep the list in address order.
pub open spec fn is_slot(s: Seq<Block>, addr: int, k: int) -> bool {
    &&& 0 <= k <= s.len()
    &&& forall|j: int| 0 <= j < k ==> (#[trigger] s[j]).start < addr
    &&& forall|j: int| k <= j < s.len() ==> (#[trigger] s[j]).start > addr
}

pub open spec fn slot(s: Seq<Block>, addr: int) -> int {
    choose|k: int| is_slot(s, addr, k)
}

/// Block `i` handed out `ptr`.
pub open spec fn owner(s: Seq<Block>, ptr: int, i: int) -> bool {
    0 <= i < s.len() && !is_free(s[i]) && handed_ptr(s[i]) == ptr
}

/// `ptr` lies in the payload of a free block.
pub open spec fn in_free_block(s: Seq<Block>, ptr: int) -> bool {
    exists|i: int|
        0 <= i < s.len() && is_free(#[trigger] s[i]) && s[i].start + HEADER_SIZE <= ptr < block_end(
            s[i],
        )
}

impl HeapView {
    /// The counters match the blocks, the blocks are ordered, placed and
    /// coalesced, and none overlaps the pool arena.
    pub open spec fn wf(self) -> bool {
        &&& 0 <= self.used <= self.total <= usize::MAX
        &&& ordered(self.blocks)
        &&& placed(self.blocks)
        &&& coalesced(self.blocks)
        &&& self.total == tally(self.blocks, true, true) + tally(self.blocks, false, true)
        &&& self.used == tally(self.blocks, false, true)
        &&& self.count == tally(self.blocks, false, false)
        &&& self.pool_used.len() == POOL_CLASSES
        &&& self.pool_base matches Some(a) ==> {
            &&& a % POOL_ARENA_ALIGN == 0
            &&& a + POOL_ARENA_BYTES <= usize::MAX
            &&& apart(self.blocks, a as int, a + POOL_ARENA_BYTES)
        }
    }

    /// Bytes neither handed out nor consumed.
    pub open spec fn available(self) -> int {
        self.total - self.used
    }

    /// The region is apart from every block and from the pool arena.
    pub open spec fn region_clear(self, start: int, size: int) -> bool {
        &&& apart(self.blocks, start, start + size)
        &&& self.pool_base matches Some(a) ==> a + POOL_ARENA_BYTES <= start || start + size <= a
    }

    /// The pool that would serve the request: the smallest class that can
    /// hold it, while unused.
    pub open spec fn pool_pick(self, size: int, align: int) -> Option<int> {
        if self.pool_base is Some {
            match first_class(size, align) {
                Some(i) => if !self.pool_used[i] {
                    Some(i)
                } else {
                    None
                },
                None => None,
            }
        } else {
            None
        }
    }

    /// The first address of class `i`'s pool.
    pub open spec fn pool_addr(self, i: int) -> int {
        self.pool_base.unwrap() + class_offset(i)
    }

    /// `ptr` lies in the pool arena.
    pub open spec fn in_pool(self, ptr: int) -> bool {
        self.pool_base matches Some(a) && a <= ptr < a + POOL_ARENA_BYTES
    }

    pub open spec fn after_alloc(self, size: int, align: int) -> HeapView {
        let n = need(size, align);
        if let Some(i) = self.pool_pick(size, align) {
            HeapView { pool_used: self.pool_used.update(i, true), ..self }
        } else if any_fit(self.blocks, n) {
            let i = best_fit(self.blocks, n);
            let s = carve(self.blocks, i, size, align);
            HeapView { blocks: s, used: self.used + footprint(s[i]), count: self.count + 1, ..self }
        } else {
            self
        }
    }

    pub open spec fn alloc_result(self, size: int, align: int) -> Result<usize, AllocError> {
        let n = need(size, align);
        if let Some(i) = self.pool_pick(size, align) {
            Ok(self.pool_addr(i) as usize)
        } else if any_fit(self.blocks, n) {
            Ok(payload_ptr(self.blocks[best_fit(self.blocks, n)], align) as usize)
        } else {
            Err(AllocError::NoMemory)
        }
    }

    /// The state after a region that holds a header was added.
    pub open spec fn after_add(self, start: int, size: int) -> HeapView {
        let k = slot(self.blocks, region_start(start));
        HeapView {
            blocks: coalesce_around(self.blocks.insert(k, region_block(start, size)), k),
            total: self.total + region_bytes(start, size),
            ..self
        }
    }

    /// What a hand-back of `ptr` as `size` bytes would run into, if anything.
    pub open spec fn fault(self, ptr: int, size: int) -> Option<DeallocFault> {
        if self.in_pool(ptr) {
            None
        } else if exists|i: int| owner(self.blocks, ptr, i) {
            let i = choose|i: int| owner(self.blocks, ptr, i);
            if handed_len(self.blocks[i]) == size {
                None
            } else {
                Some(DeallocFault::SizeMismatch)
            }
        } else if in_free_block(self.blocks, ptr) {
            Some(DeallocFault::DoubleFree)
        } else {
            Some(DeallocFault::UnknownPointer)
        }
    }

    /// The state after `ptr` was handed back.
    pub open spec fn after_dealloc(self, ptr: int) -> HeapView {
        if self.in_pool(ptr) {
            self
        } else {
            let i = choose|i: int| owner(self.blocks, ptr, i);
            HeapView {
                blocks: coalesce_around(self.blocks.update(i, freed(self.blocks[i])), i),
                used: self.used - footprint(self.blocks[i]),
                count: self.count - 1,
                ..self
            }
        }
    }
}

} // verus!
