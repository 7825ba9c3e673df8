//! The allocator: a free list in address order served best-fit, with
//! one-shot size-class pools in front of it.
use crate::arith::{is_pow2, lemma_round_up, round_up};
use crate::block::{block_end, is_free, lemma_tally_nonneg, lemma_tally_positive, Block, BlockState, HEADER_ALIGN, HEADER_SIZE};
use crate::lemmas::{
    lemma_add_region, lemma_best_fit_unique, lemma_carve, lemma_coalesce_around, lemma_free_at,
    lemma_merge_at, lemma_owner_unique, lemma_slot_unique,
};
use crate::model::{
    any_fit, block_ok, coalesce_around, fits, freed, holds_header, in_free_block, is_best_fit,
    merge_at, mergeable, need, ordered, owner, placed, region_block, region_bytes, region_start, AllocError, DeallocFault,
    HeapView,
};
use crate::pool::{
    class_for, lemma_first_class_from, lemma_pool_aligned, lemma_pool_layout, offset_of,
    POOL_ARENA_ALIGN, POOL_ARENA_BYTES, POOL_CLASSES,
};
use vstd::prelude::*;

verus! {

/// A byte allocator over address ranges donated by its caller.
///
/// Blocks are kept in a list ordered by address; each is free or handed out
/// as a whole. Pools, where an arena was given, serve one request each for
/// the allocator's whole life.
pub struct LabByteAllocator {
    total_size: usize,
    used_size: usize,
    blocks: Vec<Block>,
    pool_base: Option<usize>,
    pool_used: Vec<bool>,
    allocation_count: usize,
}

impl View for LabByteAllocator {
    type V = HeapView;

    closed spec fn view(&self) -> HeapView {
        HeapView {
            blocks: self.blocks@,
            total: self.total_size as int,
            used: self.used_size as int,
            count: self.allocation_count as int,
            pool_base: self.pool_base,
            pool_used: self.pool_used@,
        }
    }
}

fn unused_pools() -> (r: Vec<bool>)
    ensures
        r@.len() == POOL_CLASSES,
        forall|i: int| 0 <= i < POOL_CLASSES ==> !#[trigger] r@[i],
{
    let mut v: Vec<bool> = Vec::new();
    let mut k: usize = 0;
    while k < POOL_CLASSES
        invariant
            k <= POOL_CLASSES,
            v@.len() == k,
            forall|i: int| 0 <= i < k ==> !#[trigger] v@[i],
        decreases POOL_CLASSES - k,
    {
        v.push(false);
        k = k + 1;
    }
    v
}

/// Payload bytes a free block needs to serve a request wherever it starts;
/// `None` where that is more than the address space holds.
fn need_of(size: usize, align: usize) -> (r: Option<usize>)
    ensures
        r matches Some(n) ==> n == need(size as int, align as int),
        r is None ==> need(size as int, align as int) > usize::MAX,
{
    let pad: usize = if align > HEADER_ALIGN {
        align - HEADER_ALIGN
    } else {
        0
    };
    let want: usize = if size == 0 {
        1
    } else {
        size
    };
    if want > usize::MAX - pad {
        None
    } else {
        Some(want + pad)
    }
}

/// Whether blocks `k` and `k + 1` are both free and touch.
fn touches_next(blocks: &Vec<Block>, k: usize) -> (r: bool)
    requires
        placed(blocks@),
    ensures
        r == mergeable(blocks@, k as int),
{
    if k >= blocks.len() || blocks.len() - k < 2 {
        return false;
    }
    let a = blocks[k];
    let b = blocks[k + 1];
    proof {
        assert(block_ok(blocks@[k as int]));
    }
    match (a.state, b.state) {
        (BlockState::Free, BlockState::Free) => a.start + HEADER_SIZE + a.size == b.start,
        _ => false,
    }
}

/// Merges block `k` with block `k + 1`.
fn merge_with_next(blocks: &mut Vec<Block>, k: usize)
    requires
        ordered(old(blocks)@),
        placed(old(blocks)@),
        mergeable(old(blocks)@, k as int),
    ensures
        final(blocks)@ == merge_at(old(blocks)@, k as int),
{
    assert(k < blocks.len() - 1);
    let a = blocks[k];
    let b = blocks[k + 1];
    proof {
        assert(block_ok(blocks@[k as int + 1]));
    }
    blocks.set(k, Block { start: a.start, size: a.size + HEADER_SIZE + b.size, state: BlockState::Free });
    blocks.remove(k + 1);
}

/// Merges block `i` with its right, then its left neighbour, where they are
/// free and touch.
fn coalesce_at(blocks: &mut Vec<Block>, i: usize)
    requires
        ordered(old(blocks)@),
        placed(old(blocks)@),
        i < old(blocks)@.len(),
    ensures
        final(blocks)@ == coalesce_around(old(blocks)@, i as int),
{
    let ghost s = blocks@;
    if touches_next(blocks, i) {
        merge_with_next(blocks, i);
        proof {
            lemma_merge_at(s, i as int);
        }
    }
    if i > 0 && touches_next(blocks, i - 1) {
        merge_with_next(blocks, i - 1);
    }
}

impl LabByteAllocator {
    pub open spec fn wf(&self) -> bool {
        self@.wf()
    }

    /// An allocator with no memory and no pools.
    pub fn new() -> (r: Self)
        ensures
            r.wf(),
            r@.blocks.len() == 0,
            r@.total == 0,
            r@.used == 0,
            r@.count == 0,
            r@.pool_base is None,
            forall|i: int| 0 <= i < POOL_CLASSES ==> !#[trigger] r@.pool_used[i],
    {
        LabByteAllocator {
            total_size: 0,
            used_size: 0,
            blocks: Vec::new(),
            pool_base: None,
            pool_used: unused_pools(),
            allocation_count: 0,
        }
    }

    /// An allocator with no memory whose pools live in the arena at `base`.
    pub fn with_pool_arena(base: usize) -> (r: Self)
        requires
            base % POOL_ARENA_ALIGN == 0,
            base + POOL_ARENA_BYTES <= usize::MAX,
        ensures
            r.wf(),
            r@.blocks.len() == 0,
            r@.total == 0,
            r@.used == 0,
            r@.count == 0,
            r@.pool_base == Some(base),
            forall|i: int| 0 <= i < POOL_CLASSES ==> !#[trigger] r@.pool_used[i],
    {
        LabByteAllocator {
            total_size: 0,
            used_size: 0,
            blocks: Vec::new(),
            pool_base: Some(base),
            pool_used: unused_pools(),
            allocation_count: 0,
        }
    }

    /// The smallest multiple of `align` that is at least `size`.
    pub fn align_up(size: usize, align: usize) -> (r: usize)
        requires
            align > 0,
            round_up(size as int, align as int) <= usize::MAX,
        ensures
            r == round_up(size as int, align as int),
            r % align == 0,
            size <= r < size + align,
    {
        proof {
            lemma_round_up(size as int, align as int);
        }
        let rem = size % align;
        if rem == 0 {
            size
        } else {
            size + (align - rem)
        }
    }

    /// Index of the smallest free block of at least `need` payload bytes,
    /// the first in list order among equals; an exact fit ends the search.
    fn find_best_fit(&self, need: usize) -> (r: Option<usize>)
        requires
            self.wf(),
        ensures
            r matches Some(i) ==> is_best_fit(self@.blocks, need as int, i as int),
            r is None ==> !any_fit(self@.blocks, need as int),
    {
        let ghost s = self@.blocks;
        let mut best: Option<usize> = None;
        let mut best_size: usize = 0;
        let mut k: usize = 0;
        while k < self.blocks.len()
            invariant
                s == self@.blocks,
                k <= s.len(),
                best matches Some(b) ==> {
                    &&& b < k
                    &&& fits(s[b as int], need as int)
                    &&& s[b as int].size == best_size
                    &&& forall|j: int|
                        0 <= j < k && #[trigger] fits(s[j], need as int) ==> best_size <= s[j].size
                    &&& forall|j: int|
                        0 <= j < b && #[trigger] fits(s[j], need as int) ==> best_size < s[j].size
                },
                best is None ==> forall|j: int| 0 <= j < k ==> !#[trigger] fits(s[j], need as int),
            decreases s.len() - k,
        {
            let blk = self.blocks[k];
            let free = match blk.state {
                BlockState::Free => true,
                BlockState::Used { .. } => false,
            };
            if free && blk.size >= need {
                let better = match best {
                    None => true,
                    Some(_) => blk.size < best_size,
                };
                if better {
                    if blk.size == need {
                        return Some(k);
                    }
                    best = Some(k);
                    best_size = blk.size;
                }
            }
            k = k + 1;
        }
        best
    }

    /// Hands out the next unused pool that can hold the request, if any.
    fn allocate_from_pool(&mut self, size: usize, align: usize) -> (r: Option<usize>)
        requires
            old(self).wf(),
        ensures
            final(self).wf(),
            match old(self)@.pool_pick(size as int, align as int) {
                Some(i) => {
                    &&& r == Some(old(self)@.pool_addr(i) as usize)
                    &&& final(self)@ == (HeapView {
                        pool_used: old(self)@.pool_used.update(i, true),
                        ..old(self)@
                    })
                },
                None => r is None && final(self)@ == old(self)@,
            },
    {
        match self.pool_base {
            None => None,
            Some(a) => match class_for(size, align) {
                None => None,
                Some(i) => {
                    if self.pool_used[i] {
                        None
                    } else {
                        self.pool_used.set(i, true);
                        proof {
                            lemma_pool_layout(i as int, i as int);
                        }
                        assert(old(self)@.pool_pick(size as int, align as int) == Some(i as int));
                        Some(a + offset_of(i))
                    }
                },
            },
        }
    }

    /// Hands out block `i`, which fits `need(size, align)`, splitting off its
    /// surplus.
    fn carve_block(&mut self, i: usize, size: usize, align: usize, n: usize) -> (p: usize)
        requires
            old(self).wf(),
            n == need(size as int, align as int),
            is_best_fit(old(self)@.blocks, need(size as int, align as int), i as int),
            is_pow2(align as int),
            old(self)@.pool_pick(size as int, align as int) is None,
        ensures
            final(self).wf(),
            p % align == 0,
            final(self)@ == old(self)@.after_alloc(size as int, align as int),
            Ok::<usize, AllocError>(p) == old(self)@.alloc_result(size as int, align as int),
    {
        let ghost s = old(self)@.blocks;
        proof {
            lemma_carve(s, i as int, size as int, align as int);
            lemma_best_fit_unique(s, n as int, i as int);
        }
        let b = self.blocks[i];
        let p = Self::align_up(b.start + HEADER_SIZE, align);
        let keep = Self::align_up(n, HEADER_ALIGN);
        let state = BlockState::Used { ptr: p, len: size };
        if b.size >= keep && b.size - keep > HEADER_SIZE {
            self.blocks.set(i, Block { start: b.start, size: keep, state });
            assert(i < self.blocks.len());
            self.blocks.insert(
                i + 1,
                Block {
                    start: b.start + HEADER_SIZE + keep,
                    size: b.size - keep - HEADER_SIZE,
                    state: BlockState::Free,
                },
            );
        } else {
            self.blocks.set(i, Block { start: b.start, size: b.size, state });
        }
        proof {
            assert(self.blocks@ =~= crate::model::carve(s, i as int, size as int, align as int));
            lemma_tally_nonneg(self.blocks@, true, true);
            lemma_tally_nonneg(self.blocks@, false, true);
        }
        self.used_size = self.used_size + (HEADER_SIZE + self.blocks[i].size);
        self.allocation_count = self.allocation_count + 1;
        p
    }

    /// Serves a request of `size` bytes aligned to `align`: from an unused pool
    /// that fits, else from the best-fitting free block, else `NoMemory`.
    pub fn allocate(&mut self, size: usize, align: usize) -> (r: Result<usize, AllocError>)
        requires
            old(self).wf(),
            is_pow2(align as int),
        ensures
            final(self).wf(),
            final(self)@ == old(self)@.after_alloc(size as int, align as int),
            r == old(self)@.alloc_result(size as int, align as int),
            r matches Ok(p) ==> p % align == 0,
    {
        if let Some(p) = self.allocate_from_pool(size, align) {
            proof {
                let i = old(self)@.pool_pick(size as int, align as int).unwrap();
                lemma_first_class_from(0, size as int, align as int);
                lemma_pool_aligned(self@.pool_base.unwrap() as int, i, align as int);
            }
            return Ok(p);
        }
        let n = match need_of(size, align) {
            Some(n) => n,
            None => {
                proof {
                    assert forall|j: int| 0 <= j < self@.blocks.len() implies !#[trigger] fits(
                        self@.blocks[j],
                        need(size as int, align as int),
                    ) by {
                        assert(block_end(self@.blocks[j]) <= usize::MAX);
                    }
                }
                return Err(AllocError::NoMemory);
            },
        };
        match self.find_best_fit(n) {
            None => Err(AllocError::NoMemory),
            Some(i) => Ok(self.carve_block(i, size, align, n)),
        }
    }
}

impl LabByteAllocator {
    /// `ptr` lies in the pool arena.
    fn in_pool(&self, ptr: usize) -> (r: bool)
        requires
            self.wf(),
        ensures
            r == self@.in_pool(ptr as int),
    {
        match self.pool_base {
            Some(a) => a <= ptr && ptr - a < POOL_ARENA_BYTES,
            None => false,
        }
    }

    /// Index of the block that handed out `ptr`.
    fn find_owner(&self, ptr: usize) -> (r: Option<usize>)
        requires
            self.wf(),
        ensures
            r matches Some(i) ==> owner(self@.blocks, ptr as int, i as int),
            r is None ==> forall|i: int| !owner(self@.blocks, ptr as int, i),
    {
        let mut k: usize = 0;
        while k < self.blocks.len()
            invariant
                k <= self@.blocks.len(),
                forall|i: int| 0 <= i < k ==> !owner(self@.blocks, ptr as int, i),
            decreases self@.blocks.len() - k,
        {
            match self.blocks[k].state {
                BlockState::Used { ptr: p, len: _ } => {
                    if p == ptr {
                        return Some(k);
                    }
                },
                BlockState::Free => {},
            }
            k = k + 1;
        }
        None
    }

    /// `ptr` lies in the payload of a free block.
    fn in_free_block(&self, ptr: usize) -> (r: bool)
        requires
            self.wf(),
        ensures
            r == in_free_block(self@.blocks, ptr as int),
    {
        let ghost s = self@.blocks;
        let mut k: usize = 0;
        while k < self.blocks.len()
            invariant
                s == self@.blocks,
                placed(s),
                k <= s.len(),
                forall|i: int|
                    0 <= i < k ==> !(is_free(#[trigger] s[i]) && s[i].start + HEADER_SIZE <= ptr
                        < block_end(s[i])),
            decreases s.len() - k,
        {
            let b = self.blocks[k];
            proof {
                assert(block_ok(s[k as int]));
            }
            match b.state {
                BlockState::Free => {
                    if b.start + HEADER_SIZE <= ptr && ptr < b.start + HEADER_SIZE + b.size {
                        return true;
                    }
                },
                BlockState::Used { .. } => {},
            }
            k = k + 1;
        }
        false
    }

    /// Says whether `ptr` can be handed back as `size` bytes, and if not, why.
    pub fn validate_dealloc(&self, ptr: usize, size: usize) -> (r: Result<(), DeallocFault>)
        requires
            self.wf(),
        ensures
            r == match self@.fault(ptr as int, size as int) {
                None => Ok(()),
                Some(f) => Err(f),
            },
    {
        if self.in_pool(ptr) {
            return Ok(());
        }
        match self.find_owner(ptr) {
            Some(i) => {
                proof {
                    let j = choose|j: int| owner(self@.blocks, ptr as int, j);
                    lemma_owner_unique(self@.blocks, ptr as int, i as int, j);
                }
                match self.blocks[i].state {
                    BlockState::Used { ptr: _, len } => {
                        if len == size {
                            Ok(())
                        } else {
                            Err(DeallocFault::SizeMismatch)
                        }
                    },
                    BlockState::Free => Err(DeallocFault::UnknownPointer),
                }
            },
            None => {
                if self.in_free_block(ptr) {
                    Err(DeallocFault::DoubleFree)
                } else {
                    Err(DeallocFault::UnknownPointer)
                }
            },
        }
    }

    /// Takes back `ptr`: a pool pointer is ignored, and its pool stays used;
    /// a block is freed and merged with free neighbours that touch it.
    ///
    /// A double free, a wrong size or a foreign pointer is the caller's
    /// error, to be ruled out with `validate_dealloc`. The block records its
    /// own payload, so the alignment is not needed.
    pub fn dealloc(&mut self, ptr: usize, size: usize, _align: usize)
        requires
            old(self).wf(),
            old(self)@.fault(ptr as int, size as int) is None,
        ensures
            final(self).wf(),
            final(self)@ == old(self)@.after_dealloc(ptr as int),
    {
        if self.in_pool(ptr) {
            return;
        }
        let ghost s = self@.blocks;
        let i = match self.find_owner(ptr) {
            Some(i) => i,
            None => {
                proof {
                    assert(false);
                }
                return;
            },
        };
        proof {
            let j = choose|j: int| owner(s, ptr as int, j);
            lemma_owner_unique(s, ptr as int, i as int, j);
            lemma_free_at(s, i as int);
            lemma_coalesce_around(s.update(i as int, freed(s[i as int])), i as int);
            lemma_tally_nonneg(s.update(i as int, freed(s[i as int])), false, true);
            lemma_tally_nonneg(s.update(i as int, freed(s[i as int])), false, false);
        }
        let b = self.blocks[i];
        self.blocks.set(i, Block { start: b.start, size: b.size, state: BlockState::Free });
        coalesce_at(&mut self.blocks, i);
        self.used_size = self.used_size - (HEADER_SIZE + b.size);
        self.allocation_count = self.allocation_count - 1;
    }
}

impl LabByteAllocator {
    /// Links the free block that spans a region into the list, in address
    /// order, and merges it with free neighbours that touch it.
    #[verifier::rlimit(50)]
    fn place_region(&mut self, start: usize, size: usize)
        requires
            old(self).wf(),
            start + size <= usize::MAX,
            old(self)@.region_clear(start as int, size as int),
            holds_header(start as int, size as int),
        ensures
            final(self).wf(),
            final(self)@ == old(self)@.after_add(start as int, size as int),
    {
        let ghost s = self@.blocks;
        proof {
            lemma_round_up(start as int, HEADER_ALIGN as int);
        }
        let rem = start % HEADER_ALIGN;
        let pad: usize = if rem == 0 {
            0
        } else {
            HEADER_ALIGN - rem
        };
        let addr = start + pad;
        let nb = Block { start: addr, size: size - pad - HEADER_SIZE, state: BlockState::Free };
        assert(nb == region_block(start as int, size as int));
        let mut k: usize = 0;
        while k < self.blocks.len() && self.blocks[k].start < addr
            invariant
                s == self@.blocks,
                k <= s.len(),
                forall|j: int| 0 <= j < k ==> (#[trigger] s[j]).start < addr,
            decreases s.len() - k,
        {
            k = k + 1;
        }
        proof {
            lemma_add_region(self@, start as int, size as int, k as int);
        }
        self.blocks.insert(k, nb);
        coalesce_at(&mut self.blocks, k);
        self.total_size = self.total_size + (size - pad);
        assert(self@ == old(self)@.after_add(start as int, size as int));
    }

    /// Gives the allocator its first region.
    pub fn init(&mut self, start: usize, size: usize)
        requires
            old(self).wf(),
            old(self)@.total == 0,
            start + size <= usize::MAX,
            old(self)@.region_clear(start as int, size as int),
            holds_header(start as int, size as int),
        ensures
            final(self).wf(),
            final(self)@ == old(self)@.after_add(start as int, size as int),
            final(self)@.blocks == seq![region_block(start as int, size as int)],
            final(self)@.total == region_bytes(start as int, size as int),
            final(self)@.used == 0,
    {
        proof {
            if self@.blocks.len() > 0 {
                lemma_tally_positive(self@.blocks);
            }
            lemma_slot_unique(self@.blocks, region_start(start as int), 0);
            assert(self@.blocks.insert(0, region_block(start as int, size as int)) =~= seq![
                region_block(start as int, size as int),
            ]);
        }
        self.place_region(start, size);
    }

    /// Gives the allocator one more region; `NoMemory`, and no change, where
    /// the region cannot hold a header once aligned.
    pub fn add_memory(&mut self, start: usize, size: usize) -> (r: Result<(), AllocError>)
        requires
            old(self).wf(),
            start + size <= usize::MAX,
            old(self)@.region_clear(start as int, size as int),
        ensures
            final(self).wf(),
            holds_header(start as int, size as int) ==> r is Ok && final(self)@ == old(
                self,
            )@.after_add(start as int, size as int),
            !holds_header(start as int, size as int) ==> r == Err::<(), AllocError>(
                AllocError::NoMemory,
            ) && final(self)@ == old(self)@,
    {
        let rem = start % HEADER_ALIGN;
        let pad: usize = if rem == 0 {
            0
        } else {
            HEADER_ALIGN - rem
        };
        if size < pad || size - pad < HEADER_SIZE {
            return Err(AllocError::NoMemory);
        }
        self.place_region(start, size);
        Ok(())
    }

    /// Whether a region, once aligned, can hold a header.
    pub fn region_holds_header(start: usize, size: usize) -> (r: bool)
        ensures
            r == holds_header(start as int, size as int),
    {
        let rem = start % HEADER_ALIGN;
        let pad: usize = if rem == 0 {
            0
        } else {
            HEADER_ALIGN - rem
        };
        size >= pad && size - pad >= HEADER_SIZE
    }

    /// Whether a region is apart from every block and from the pool arena.
    pub fn region_is_clear(&self, start: usize, size: usize) -> (r: bool)
        requires
            self.wf(),
            start + size <= usize::MAX,
        ensures
            r == self@.region_clear(start as int, size as int),
    {
        if let Some(a) = self.pool_base {
            if !(a + POOL_ARENA_BYTES <= start || start + size <= a) {
                return false;
            }
        }
        let ghost s = self@.blocks;
        let mut k: usize = 0;
        while k < self.blocks.len()
            invariant
                s == self@.blocks,
                placed(s),
                start + size <= usize::MAX,
                k <= s.len(),
                forall|j: int|
                    0 <= j < k ==> block_end(#[trigger] s[j]) <= start || start + size <= s[j].start,
            decreases s.len() - k,
        {
            let b = self.blocks[k];
            proof {
                assert(block_ok(s[k as int]));
            }
            if !(b.start + HEADER_SIZE + b.size <= start || start + size <= b.start) {
                return false;
            }
            k = k + 1;
        }
        true
    }

    /// Bytes of all regions, headers included.
    pub fn total_bytes(&self) -> (r: usize)
        requires
            self.wf(),
        ensures
            r == self@.total,
    {
        self.total_size
    }

    /// Bytes of the blocks handed out, headers included.
    pub fn used_bytes(&self) -> (r: usize)
        requires
            self.wf(),
        ensures
            r == self@.used,
    {
        self.used_size
    }

    /// Bytes of the free blocks, headers included.
    pub fn available_bytes(&self) -> (r: usize)
        requires
            self.wf(),
        ensures
            r == self@.available(),
            r + self@.used == self@.total,
    {
        self.total_size - self.used_size
    }

    /// Number of blocks handed out.
    pub fn allocation_count(&self) -> (r: usize)
        requires
            self.wf(),
        ensures
            r == self@.count,
    {
        self.allocation_count
    }
}

} // verus!
