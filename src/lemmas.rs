//! How splitting, freeing, inserting and merging blocks keep the free list
//! ordered, placed, coalesced and its tallies exact.
use crate::block::{
    block_end, footprint, is_free, lemma_tally_insert, lemma_tally_remove, lemma_tally_update,
    share, tally, Block, BlockState, HEADER_ALIGN, HEADER_SIZE,
};
use crate::arith::{is_pow2, lemma_divides_add, lemma_pad_bound, lemma_round_up};
use crate::model::{
    any_fit, apart, best_fit, region_bytes, block_ok, carve, coalesce_around, coalesced, fits, freed, handed_len,
    handed_ptr, is_best_fit, is_slot, kept, owner, slot, in_free_block, merge_at, merged, mergeable, need, ordered, span, payload_ptr, placed,
};
use crate::model::{holds_header, region_block, region_start, HeapView};
use crate::pool::POOL_ARENA_BYTES;
use vstd::prelude::*;

verus! {

pub proof fn lemma_merge_at(s: Seq<Block>, k: int)
    requires
        ordered(s),
        placed(s),
        mergeable(s, k),
    ensures
        ordered(merge_at(s, k)),
        placed(merge_at(s, k)),
        merge_at(s, k).len() == s.len() - 1,
        merge_at(s, k)[k] == merged(s[k], s[k + 1]),
        forall|j: int| 0 <= j < k ==> merge_at(s, k)[j] == s[j],
        forall|j: int| k < j < s.len() - 1 ==> merge_at(s, k)[j] == s[j + 1],
        forall|j: int|
            #[trigger] mergeable(merge_at(s, k), j) == if j < k {
                mergeable(s, j)
            } else {
                mergeable(s, j + 1)
            },
        forall|b: bool| #[trigger] tally(merge_at(s, k), false, b) == tally(s, false, b),
        tally(merge_at(s, k), true, true) == tally(s, true, true),
        forall|lo: int, hi: int|
            lo < hi && apart(s, lo, hi) ==> #[trigger] apart(merge_at(s, k), lo, hi),
{
    let m = merged(s[k], s[k + 1]);
    let u = s.update(k, m);
    let t = merge_at(s, k);
    assert(block_ok(s[k]) && block_ok(s[k + 1]));
    assert(block_end(m) == block_end(s[k + 1]));
    assert(block_ok(m));
    assert forall|i: int, j: int| 0 <= i < j < t.len() implies block_end(#[trigger] t[i]) <= (
    #[trigger] t[j]).start by {
        let ii = if i <= k { i } else { i + 1 };
        let jj = if j < k { j } else { j + 1 };
        if i == k {
            assert(block_end(s[k + 1]) <= s[jj].start);
        } else if j == k {
            assert(block_end(s[ii]) <= s[k].start);
        } else {
            assert(block_end(s[ii]) <= s[jj].start);
        }
    }
    assert forall|i: int| 0 <= i < t.len() implies block_ok(#[trigger] t[i]) by {
        if i != k {
            let ii = if i < k { i } else { i + 1 };
            assert(block_ok(s[ii]));
        }
    }
    assert forall|b: bool| #[trigger] tally(t, false, b) == tally(s, false, b) by {
        lemma_tally_update(s, k, m, false, b);
        lemma_tally_remove(u, k + 1, false, b);
    }
    lemma_tally_update(s, k, m, true, true);
    lemma_tally_remove(u, k + 1, true, true);
    assert forall|lo: int, hi: int| lo < hi && apart(s, lo, hi) implies #[trigger] apart(t, lo, hi) by {
        assert forall|i: int| 0 <= i < t.len() implies block_end(#[trigger] t[i]) <= lo || hi
            <= t[i].start by {
            if i < k {
                assert(t[i] == s[i]);
            } else if i > k {
                assert(t[i] == s[i + 1]);
            } else {
                assert(block_end(s[k]) <= lo || hi <= s[k].start);
                assert(block_end(s[k + 1]) <= lo || hi <= s[k + 1].start);
            }
        }
    }
}

/// Merging around block `i`, where only pairs touching it may be mergeable,
/// leaves no mergeable pair and keeps the tallies.
pub proof fn lemma_coalesce_around(s: Seq<Block>, i: int)
    requires
        ordered(s),
        placed(s),
        0 <= i < s.len(),
        forall|k: int| #[trigger] mergeable(s, k) ==> k == i - 1 || k == i,
    ensures
        ordered(coalesce_around(s, i)),
        placed(coalesce_around(s, i)),
        coalesced(coalesce_around(s, i)),
        forall|b: bool| #[trigger] tally(coalesce_around(s, i), false, b) == tally(s, false, b),
        tally(coalesce_around(s, i), true, true) == tally(s, true, true),
        forall|lo: int, hi: int|
            lo < hi && apart(s, lo, hi) ==> #[trigger] apart(coalesce_around(s, i), lo, hi),
{
    let t = if mergeable(s, i) {
        merge_at(s, i)
    } else {
        s
    };
    if mergeable(s, i) {
        lemma_merge_at(s, i);
        assert forall|k: int| #[trigger] mergeable(t, k) implies k == i - 1 by {
            if k >= i {
                assert(mergeable(s, k + 1));
                assert(!mergeable(s, i + 1)) by {
                    if mergeable(s, i + 1) {
                        assert(i + 1 == i - 1 || i + 1 == i);
                    }
                }
            } else {
                assert(mergeable(s, k));
            }
        }
    }
    assert forall|k: int| #[trigger] mergeable(t, k) implies k == i - 1 by {
        if !mergeable(s, i) {
            assert(mergeable(s, k));
        }
    }
    if mergeable(t, i - 1) {
        lemma_merge_at(t, i - 1);
        let r = merge_at(t, i - 1);
        assert forall|k: int| !#[trigger] mergeable(r, k) by {
            if k < i - 1 {
                assert(!mergeable(t, k));
            } else {
                assert(!mergeable(t, k + 1));
            }
        }
    }
}

/// Freeing block `i` keeps the list ordered and placed; only the pairs
/// around it may become mergeable.
pub proof fn lemma_free_at(s: Seq<Block>, i: int)
    requires
        ordered(s),
        placed(s),
        coalesced(s),
        0 <= i < s.len(),
        !is_free(s[i]),
    ensures
        ordered(s.update(i, freed(s[i]))),
        placed(s.update(i, freed(s[i]))),
        forall|k: int| #[trigger] mergeable(s.update(i, freed(s[i])), k) ==> k == i - 1 || k == i,
        forall|b: bool|
            #[trigger] tally(s.update(i, freed(s[i])), false, b) == tally(s, false, b) - share(
                s[i],
                false,
                b,
            ),
        tally(s.update(i, freed(s[i])), true, true) == tally(s, true, true) + footprint(s[i]),
        forall|lo: int, hi: int|
            apart(s, lo, hi) ==> #[trigger] apart(s.update(i, freed(s[i])), lo, hi),
{
    let u = s.update(i, freed(s[i]));
    assert(block_ok(s[i]));
    assert forall|k: int| #[trigger] mergeable(u, k) implies k == i - 1 || k == i by {
        if k != i - 1 && k != i {
            assert(mergeable(s, k));
        }
    }
    assert forall|b: bool|
        #[trigger] tally(u, false, b) == tally(s, false, b) - share(s[i], false, b) by {
        lemma_tally_update(s, i, freed(s[i]), false, b);
    }
    lemma_tally_update(s, i, freed(s[i]), true, true);
}

/// Inserting a free block in its place keeps the list ordered and placed;
/// only the pairs around it may be mergeable.
pub proof fn lemma_insert_free(s: Seq<Block>, k: int, b: Block)
    requires
        ordered(s),
        placed(s),
        coalesced(s),
        0 <= k <= s.len(),
        block_ok(b),
        is_free(b),
        forall|j: int| 0 <= j < k ==> block_end(#[trigger] s[j]) <= b.start,
        forall|j: int| k <= j < s.len() ==> block_end(b) <= (#[trigger] s[j]).start,
    ensures
        ordered(s.insert(k, b)),
        placed(s.insert(k, b)),
        forall|j: int| #[trigger] mergeable(s.insert(k, b), j) ==> j == k - 1 || j == k,
        forall|x: bool| #[trigger] tally(s.insert(k, b), false, x) == tally(s, false, x),
        tally(s.insert(k, b), true, true) == tally(s, true, true) + footprint(b),
{
    let u = s.insert(k, b);
    assert forall|i: int, j: int| 0 <= i < j < u.len() implies block_end(#[trigger] u[i]) <= (
    #[trigger] u[j]).start by {
        if i < k && j > k {
            assert(block_end(s[i]) <= s[j - 1].start);
        } else if i > k {
            assert(block_end(s[i - 1]) <= s[j - 1].start);
        } else if i < k && j < k {
            assert(block_end(s[i]) <= s[j].start);
        }
    }
    assert forall|i: int| 0 <= i < u.len() implies block_ok(#[trigger] u[i]) by {
        if i < k {
            assert(block_ok(s[i]));
        } else if i > k {
            assert(block_ok(s[i - 1]));
        }
    }
    assert forall|j: int| #[trigger] mergeable(u, j) implies j == k - 1 || j == k by {
        if j < k - 1 {
            assert(mergeable(s, j));
        } else if j > k {
            assert(mergeable(s, j - 1));
        }
    }
    assert forall|x: bool| #[trigger] tally(u, false, x) == tally(s, false, x) by {
        lemma_tally_insert(s, k, b, false, x);
    }
    lemma_tally_insert(s, k, b, true, true);
}

/// Handing out a block that fits keeps every property of the list, and the
/// payload pointer is aligned and inside the block.
pub proof fn lemma_carve(s: Seq<Block>, i: int, size: int, align: int)
    requires
        ordered(s),
        placed(s),
        coalesced(s),
        0 <= i < s.len(),
        is_free(s[i]),
        0 <= size <= usize::MAX,
        is_pow2(align),
        align <= usize::MAX,
        s[i].size >= need(size, align),
    ensures
        ordered(carve(s, i, size, align)),
        placed(carve(s, i, size, align)),
        coalesced(carve(s, i, size, align)),
        payload_ptr(s[i], align) % align == 0,
        s[i].start + HEADER_SIZE <= payload_ptr(s[i], align),
        payload_ptr(s[i], align) + span(size) <= block_end(s[i]),
        carve(s, i, size, align)[i].start == s[i].start,
        !is_free(carve(s, i, size, align)[i]),
        handed_ptr(carve(s, i, size, align)[i]) == payload_ptr(s[i], align),
        handed_len(carve(s, i, size, align)[i]) == size,
        tally(carve(s, i, size, align), false, true) == tally(s, false, true) + footprint(
            carve(s, i, size, align)[i],
        ),
        tally(carve(s, i, size, align), false, false) == tally(s, false, false) + 1,
        tally(carve(s, i, size, align), true, true) + tally(carve(s, i, size, align), false, true)
            == tally(s, true, true) + tally(s, false, true),
        forall|lo: int, hi: int|
            apart(s, lo, hi) ==> #[trigger] apart(carve(s, i, size, align), lo, hi),
{
    let b = s[i];
    let x = b.start + HEADER_SIZE;
    assert(block_ok(b));
    lemma_round_up(x, align);
    lemma_pad_bound(x, align);
    let p = payload_ptr(b, align);
    let keep = kept(size, align);
    lemma_round_up(need(size, align), HEADER_ALIGN as int);
    let t = carve(s, i, size, align);
    let state = BlockState::Used { ptr: p as usize, len: size as usize };
    if b.size > keep + HEADER_SIZE {
        let a = Block { start: b.start, size: keep as usize, state };
        let c = Block {
            start: (b.start + HEADER_SIZE + keep) as usize,
            size: (b.size - keep - HEADER_SIZE) as usize,
            state: BlockState::Free,
        };
        let u = s.update(i, a);
        assert(block_ok(a));
        assert(block_ok(c)) by {
            lemma_divides_add(b.start + HEADER_SIZE, keep, HEADER_ALIGN as int);
        }
        assert(t == u.insert(i + 1, c));
        assert forall|m: int, j: int| 0 <= m < j < t.len() implies block_end(#[trigger] t[m]) <= (
        #[trigger] t[j]).start by {
            if m < i && j > i + 1 {
                assert(block_end(s[m]) <= s[j - 1].start);
            } else if m < i && j <= i + 1 {
                assert(block_end(s[m]) <= s[i].start);
            } else if m > i + 1 {
                assert(block_end(s[m - 1]) <= s[j - 1].start);
            } else if j > i + 1 {
                assert(block_end(s[i]) <= s[j - 1].start);
            }
        }
        assert forall|m: int| 0 <= m < t.len() implies block_ok(#[trigger] t[m]) by {
            if m < i {
                assert(block_ok(s[m]));
            } else if m > i + 1 {
                assert(block_ok(s[m - 1]));
            }
        }
        assert forall|k: int| !#[trigger] mergeable(t, k) by {
            if k < i {
                assert(!mergeable(s, k));
            } else if k == i + 1 {
                assert(!mergeable(s, i));
            } else if k > i + 1 {
                assert(!mergeable(s, k - 1));
            }
        }
        lemma_tally_update(s, i, a, false, true);
        lemma_tally_update(s, i, a, false, false);
        lemma_tally_update(s, i, a, true, true);
        lemma_tally_insert(u, i + 1, c, false, true);
        lemma_tally_insert(u, i + 1, c, false, false);
        lemma_tally_insert(u, i + 1, c, true, true);
        assert forall|lo: int, hi: int| apart(s, lo, hi) implies #[trigger] apart(t, lo, hi) by {
            assert forall|m: int| 0 <= m < t.len() implies block_end(#[trigger] t[m]) <= lo || hi
                <= t[m].start by {
                if m < i {
                    assert(t[m] == s[m]);
                } else if m > i + 1 {
                    assert(t[m] == s[m - 1]);
                } else {
                    assert(block_end(s[i]) <= lo || hi <= s[i].start);
                }
            }
        }
    } else {
        let a = Block { start: b.start, size: b.size, state };
        assert(block_ok(a));
        assert forall|m: int, j: int| 0 <= m < j < t.len() implies block_end(#[trigger] t[m]) <= (
        #[trigger] t[j]).start by {
            assert(block_end(s[m]) <= s[j].start);
        }
        assert forall|m: int| 0 <= m < t.len() implies block_ok(#[trigger] t[m]) by {
            if m != i {
                assert(block_ok(s[m]));
            }
        }
        assert forall|k: int| !#[trigger] mergeable(t, k) by {
            assert(!mergeable(s, k));
        }
        lemma_tally_update(s, i, a, false, true);
        lemma_tally_update(s, i, a, false, false);
        lemma_tally_update(s, i, a, true, true);
        assert forall|lo: int, hi: int| apart(s, lo, hi) implies #[trigger] apart(t, lo, hi) by {
            assert forall|m: int| 0 <= m < t.len() implies block_end(#[trigger] t[m]) <= lo || hi
                <= t[m].start by {
                assert(block_end(s[m]) <= lo || hi <= s[m].start);
            }
        }
    }
}

/// There is at most one best fit, so `best_fit` names it.
pub proof fn lemma_best_fit_unique(s: Seq<Block>, n: int, i: int)
    requires
        is_best_fit(s, n, i),
    ensures
        best_fit(s, n) == i,
        any_fit(s, n),
{
    let k = best_fit(s, n);
    assert(is_best_fit(s, n, k));
    if k < i {
        assert(fits(s[k], n));
    } else if i < k {
        assert(fits(s[i], n));
    }
    assert(fits(s[i], n));
}

/// At most one block handed out a given pointer.
pub proof fn lemma_owner_unique(s: Seq<Block>, ptr: int, i: int, j: int)
    requires
        ordered(s),
        placed(s),
        owner(s, ptr, i),
        owner(s, ptr, j),
    ensures
        i == j,
{
    assert(block_ok(s[i]) && block_ok(s[j]));
    if i < j {
        assert(block_end(s[i]) <= s[j].start);
    } else if j < i {
        assert(block_end(s[j]) <= s[i].start);
    }
}

/// There is at most one slot for an address, so `slot` names it.
pub proof fn lemma_slot_unique(s: Seq<Block>, addr: int, k: int)
    requires
        is_slot(s, addr, k),
    ensures
        slot(s, addr) == k,
{
    let m = slot(s, addr);
    assert(is_slot(s, addr, m));
    if m < k {
        assert(s[m].start < addr);
    } else if k < m {
        assert(s[k].start < addr);
    }
}

/// The blocks of an ordered list take no more bytes than they span.
pub proof fn lemma_span(s: Seq<Block>)
    requires
        ordered(s),
        placed(s),
        s.len() > 0,
    ensures
        tally(s, true, true) + tally(s, false, true) <= block_end(s.last()) - s[0].start,
    decreases s.len(),
{
    let t = s.drop_last();
    if t.len() > 0 {
        assert(ordered(t));
        assert(placed(t)) by {
            assert forall|i: int| 0 <= i < t.len() implies block_ok(#[trigger] t[i]) by {
                assert(block_ok(s[i]));
            }
        }
        lemma_span(t);
        assert(block_end(s[t.len() - 1]) <= s.last().start);
    } else {
        assert(tally(t, true, true) == 0 && tally(t, false, true) == 0);
    }
}

/// Adding a region that is apart from every block and from the pool arena,
/// at the slot of its address, keeps the allocator well formed.
#[verifier::rlimit(60)]
pub proof fn lemma_add_region(h: HeapView, start: int, size: int, k: int)
    requires
        h.wf(),
        0 <= start,
        0 <= size,
        start + size <= usize::MAX,
        h.region_clear(start, size),
        holds_header(start, size),
        0 <= k <= h.blocks.len(),
        forall|j: int| 0 <= j < k ==> (#[trigger] h.blocks[j]).start < region_start(start),
        k < h.blocks.len() ==> h.blocks[k].start >= region_start(start),
    ensures
        slot(h.blocks, region_start(start)) == k,
        h.after_add(start, size).wf(),
        h.after_add(start, size).total == h.total + region_bytes(start, size),
{
    let s = h.blocks;
    let addr = region_start(start);
    let nb = region_block(start, size);
    lemma_round_up(start, HEADER_ALIGN as int);
    assert(block_end(nb) == start + size);
    assert(block_ok(nb));
    assert forall|j: int| k <= j < s.len() implies (#[trigger] s[j]).start > addr by {
        assert(block_end(s[k]) <= start || start + size <= s[k].start);
        if j > k {
            assert(block_end(s[k]) <= s[j].start);
        }
    }
    assert(is_slot(s, addr, k));
    lemma_slot_unique(s, addr, k);
    assert forall|j: int| 0 <= j < k implies block_end(#[trigger] s[j]) <= nb.start by {
        assert(block_end(s[j]) <= start || start + size <= s[j].start);
    }
    assert forall|j: int| k <= j < s.len() implies block_end(nb) <= (#[trigger] s[j]).start by {
        assert(block_end(s[j]) <= start || start + size <= s[j].start);
    }
    lemma_insert_free(s, k, nb);
    let t = s.insert(k, nb);
    lemma_span(t);
    lemma_coalesce_around(t, k);
    if let Some(a) = h.pool_base {
        assert forall|j: int| 0 <= j < t.len() implies block_end(#[trigger] t[j]) <= a || a
            + POOL_ARENA_BYTES <= t[j].start by {
            if j < k {
                assert(t[j] == s[j]);
            } else if j > k {
                assert(t[j] == s[j - 1]);
            }
        }
        assert(apart(t, a as int, a + POOL_ARENA_BYTES));
    }
}

/// Where some block fits, `best_fit` names a best fit.
pub proof fn lemma_best_fit_exists(s: Seq<Block>, n: int)
    requires
        any_fit(s, n),
    ensures
        is_best_fit(s, n, best_fit(s, n)),
    decreases s.len(),
{
    let t = s.drop_last();
    let l = s.len() - 1;
    if any_fit(t, n) {
        lemma_best_fit_exists(t, n);
        let b = best_fit(t, n);
        if fits(s[l], n) && s[l].size < t[b].size {
            assert(is_best_fit(s, n, l)) by {
                assert forall|j: int| 0 <= j < s.len() && #[trigger] fits(s[j], n) implies s[l].size
                    <= s[j].size by {
                    if j < l {
                        assert(fits(t[j], n));
                    }
                }
                assert forall|j: int| 0 <= j < l && #[trigger] fits(s[j], n) implies s[l].size
                    < s[j].size by {
                    assert(fits(t[j], n));
                }
            }
        } else {
            assert(is_best_fit(s, n, b)) by {
                assert forall|j: int| 0 <= j < s.len() && #[trigger] fits(s[j], n) implies s[b].size
                    <= s[j].size by {
                    if j < l {
                        assert(fits(t[j], n));
                    }
                }
                assert forall|j: int| 0 <= j < b && #[trigger] fits(s[j], n) implies s[b].size
                    < s[j].size by {
                    assert(fits(t[j], n));
                }
            }
        }
    } else {
        assert(fits(s[l], n)) by {
            let j = choose|j: int| 0 <= j < s.len() && #[trigger] fits(s[j], n);
            if j < l {
                assert(fits(t[j], n));
            }
        }
        assert(is_best_fit(s, n, l)) by {
            assert forall|j: int| 0 <= j < s.len() && #[trigger] fits(s[j], n) implies s[l].size
                <= s[j].size by {
                if j < l {
                    assert(fits(t[j], n));
                }
            }
            assert forall|j: int| 0 <= j < l && #[trigger] fits(s[j], n) implies s[l].size
                < s[j].size by {
                assert(fits(t[j], n));
            }
        }
    }
    lemma_best_fit_unique(s, n, best_fit(s, n));
}

/// Merging keeps a pointer that no block owns unowned, and one inside a
/// free block inside a free block.
pub proof fn lemma_merge_keeps_freed(s: Seq<Block>, k: int, ptr: int)
    requires
        ordered(s),
        placed(s),
        mergeable(s, k),
        forall|j: int| !owner(s, ptr, j),
        in_free_block(s, ptr),
    ensures
        forall|j: int| !owner(merge_at(s, k), ptr, j),
        in_free_block(merge_at(s, k), ptr),
{
    lemma_merge_at(s, k);
    let t = merge_at(s, k);
    assert forall|j: int| !owner(t, ptr, j) by {
        if 0 <= j < k {
            assert(!owner(s, ptr, j));
        } else if k < j < t.len() {
            assert(!owner(s, ptr, j + 1));
        }
    }
    let i = choose|i: int|
        0 <= i < s.len() && is_free(#[trigger] s[i]) && s[i].start + HEADER_SIZE <= ptr < block_end(
            s[i],
        );
    let w = if i < k {
        i
    } else if i <= k + 1 {
        k
    } else {
        i - 1
    };
    assert(is_free(t[w]) && t[w].start + HEADER_SIZE <= ptr < block_end(t[w]));
}

/// Freeing and coalescing around the owner of `ptr` leaves `ptr` owned by
/// no block and inside a free one.
pub proof fn lemma_release_frees(s: Seq<Block>, i: int, ptr: int)
    requires
        ordered(s),
        placed(s),
        coalesced(s),
        owner(s, ptr, i),
    ensures
        forall|j: int| !owner(coalesce_around(s.update(i, freed(s[i])), i), ptr, j),
        in_free_block(coalesce_around(s.update(i, freed(s[i])), i), ptr),
{
    let u = s.update(i, freed(s[i]));
    lemma_free_at(s, i);
    assert(block_ok(s[i]));
    assert forall|j: int| !owner(u, ptr, j) by {
        if owner(u, ptr, j) {
            assert(owner(s, ptr, j));
            lemma_owner_unique(s, ptr, i, j);
        }
    }
    assert(is_free(u[i]) && u[i].start + HEADER_SIZE <= ptr < block_end(u[i]));
    let t = if mergeable(u, i) {
        merge_at(u, i)
    } else {
        u
    };
    if mergeable(u, i) {
        lemma_merge_keeps_freed(u, i, ptr);
        lemma_merge_at(u, i);
    }
    if mergeable(t, i - 1) {
        lemma_merge_keeps_freed(t, i - 1, ptr);
    }
}

} // verus!
