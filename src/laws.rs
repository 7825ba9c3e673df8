//! What holds of the allocator in every state its operations can reach.
use crate::arith::is_pow2;
use crate::block::{block_end, is_free, Block, HEADER_SIZE, lemma_tally_nonneg, lemma_tally_zero};
use crate::lemmas::{lemma_best_fit_exists, lemma_carve, lemma_owner_unique, lemma_release_frees};
use crate::model::{
    any_fit, best_fit, block_ok, carve, coalesce_around, coalesced, fits, freed, kept, merge_at,
    mergeable, ordered, placed, handed_len, handed_ptr, is_best_fit, need, owner,
    payload_ptr, span, AllocError, DeallocFault, HeapView,
};
use crate::pool::{class_capacity, lemma_first_class_from, lemma_pool_layout, POOL_CLASSES};
use vstd::prelude::*;

verus! {

/// Used and available bytes add up to the total bytes.
pub proof fn law_counters_balance(h: HeapView)
    requires
        h.wf(),
    ensures
        0 <= h.available(),
        h.used + h.available() == h.total,
{
}

/// Two live allocations from blocks never share a byte.
pub proof fn law_blocks_disjoint(h: HeapView, i: int, j: int)
    requires
        h.wf(),
        0 <= i < j < h.blocks.len(),
        !is_free(h.blocks[i]),
        !is_free(h.blocks[j]),
    ensures
        handed_ptr(h.blocks[i]) + span(handed_len(h.blocks[i])) <= handed_ptr(h.blocks[j]),
{
    assert(block_ok(h.blocks[i]) && block_ok(h.blocks[j]));
}

/// A pool shares no byte with another pool, nor with any block.
pub proof fn law_pools_disjoint(h: HeapView, c: int, d: int, i: int)
    requires
        h.wf(),
        h.pool_base is Some,
        0 <= c < POOL_CLASSES,
        0 <= d < POOL_CLASSES,
        c != d,
        0 <= i < h.blocks.len(),
    ensures
        h.pool_addr(c) + class_capacity(c) <= h.pool_addr(d) || h.pool_addr(d) + class_capacity(d)
            <= h.pool_addr(c),
        block_end(h.blocks[i]) <= h.pool_addr(c) || h.pool_addr(c) + class_capacity(c)
            <= h.blocks[i].start,
{
    lemma_pool_layout(c, d);
}

/// Where the request is served, the state afterwards lets the pointer be
/// handed back, and doing so restores the blocks, the used and the
/// available bytes.
pub proof fn law_round_trip(h: HeapView, size: int, align: int)
    requires
        h.wf(),
        0 <= size <= usize::MAX,
        is_pow2(align),
        align <= usize::MAX,
        h.alloc_result(size, align) is Ok,
    ensures
        ({
            let h2 = h.after_alloc(size, align);
            let p = h.alloc_result(size, align)->Ok_0;
            &&& h2.fault(p as int, size) is None
            &&& h2.after_dealloc(p as int).blocks == h.blocks
            &&& h2.after_dealloc(p as int).used == h.used
            &&& h2.after_dealloc(p as int).available() == h.available()
        }),
{
    let h2 = h.after_alloc(size, align);
    let p = h.alloc_result(size, align)->Ok_0;
    if let Some(c) = h.pool_pick(size, align) {
        lemma_first_class_from(0, size, align);
        lemma_pool_layout(c, c);
        assert(h2.in_pool(p as int));
    } else {
        let s = h.blocks;
        let n = need(size, align);
        lemma_best_fit_exists(s, n);
        let i = best_fit(s, n);
        lemma_carve(s, i, size, align);
        let t = carve(s, i, size, align);
        assert(p as int == payload_ptr(s[i], align));
        assert(owner(t, p as int, i));
        assert(block_ok(t[i]));
        assert(!h2.in_pool(p as int));
        let j = choose|j: int| owner(t, p as int, j);
        lemma_owner_unique(t, p as int, i, j);
        lemma_unsplit(s, i, size, align);
    }
}

/// Freeing a block just carved, and coalescing around it, gives back the
/// list it was carved from.
proof fn lemma_unsplit(s: Seq<Block>, i: int, size: int, align: int)
    requires
        ordered(s),
        placed(s),
        coalesced(s),
        0 <= i < s.len(),
        is_free(s[i]),
        0 <= size <= usize::MAX,
        is_pow2(align),
        align <= usize::MAX,
        s[i].size >= need(size, align),
    ensures
        coalesce_around(
            carve(s, i, size, align).update(i, freed(carve(s, i, size, align)[i])),
            i,
        ) == s,
{
    lemma_carve(s, i, size, align);
    let t = carve(s, i, size, align);
    let u = t.update(i, freed(t[i]));
    let keep = kept(size, align);
    assert(block_ok(s[i]));
    if s[i].size > keep + HEADER_SIZE {
        assert(mergeable(u, i));
        assert(merge_at(u, i) =~= s);
    } else {
        assert(u =~= s);
    }
    assert(!mergeable(s, i - 1));
    assert(!mergeable(s, i));
}

/// A second hand-back of a block's pointer is refused as a double free.
pub proof fn law_double_free_detected(h: HeapView, ptr: int, size: int)
    requires
        h.wf(),
        h.fault(ptr, size) is None,
        !h.in_pool(ptr),
    ensures
        h.after_dealloc(ptr).fault(ptr, size) == Some(DeallocFault::DoubleFree),
{
    let i = choose|i: int| owner(h.blocks, ptr, i);
    lemma_release_frees(h.blocks, i, ptr);
}

/// A request that no pool serves goes to a fitting block no larger than any
/// other fitting block, the first in list order among equals.
pub proof fn law_best_fit(h: HeapView, size: int, align: int)
    requires
        h.wf(),
        h.pool_pick(size, align) is None,
        any_fit(h.blocks, need(size, align)),
    ensures
        ({
            let i = best_fit(h.blocks, need(size, align));
            &&& is_best_fit(h.blocks, need(size, align), i)
            &&& h.alloc_result(size, align) == Ok::<usize, AllocError>(
                payload_ptr(h.blocks[i], align) as usize,
            )
        }),
{
    lemma_best_fit_exists(h.blocks, need(size, align));
}

/// With no byte available, a request that no pool serves fails with
/// `NoMemory` and changes nothing.
pub proof fn law_exhaustion(h: HeapView, size: int, align: int)
    requires
        h.wf(),
        h.available() == 0,
        h.pool_pick(size, align) is None,
    ensures
        h.alloc_result(size, align) == Err::<usize, AllocError>(AllocError::NoMemory),
        h.after_alloc(size, align) == h,
{
    lemma_tally_nonneg(h.blocks, false, true);
    assert forall|j: int| 0 <= j < h.blocks.len() implies !fits(
        #[trigger] h.blocks[j],
        need(size, align),
    ) by {
        lemma_tally_zero(h.blocks, j);
    }
}

/// A used pool stays used: handing its pointer back changes nothing, and no
/// later request gets that pointer again.
pub proof fn law_pool_one_shot(h: HeapView, c: int, len: int, size: int, align: int)
    requires
        h.wf(),
        h.pool_base is Some,
        0 <= c < POOL_CLASSES,
        h.pool_used[c],
        0 <= size <= usize::MAX,
        is_pow2(align),
        align <= usize::MAX,
    ensures
        h.fault(h.pool_addr(c), len) is None,
        h.after_dealloc(h.pool_addr(c)) == h,
        h.alloc_result(size, align) != Ok::<usize, AllocError>(h.pool_addr(c) as usize),
{
    lemma_pool_layout(c, c);
    if let Some(d) = h.pool_pick(size, align) {
        lemma_first_class_from(0, size, align);
        lemma_pool_layout(c, d);
    } else if any_fit(h.blocks, need(size, align)) {
        let s = h.blocks;
        let n = need(size, align);
        lemma_best_fit_exists(s, n);
        let i = best_fit(s, n);
        lemma_carve(s, i, size, align);
        assert(block_ok(s[i]));
    }
}

} // verus!
