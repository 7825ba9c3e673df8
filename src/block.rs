//! Block headers and the free list as a sequence ordered by address.
use vstd::prelude::*;

verus! {

/// Bytes taken by one block header.
pub const HEADER_SIZE: usize = 16;

/// Alignment of every block header.
pub const HEADER_ALIGN: usize = 8;

/// Whether a block is free, or handed out and to whom.
#[derive(Clone, Copy, Debug, PartialEq, Eq, Structural)]
pub enum BlockState {
    Free,
    /// Allocated: the payload pointer returned to the caller and the size asked for.
    Used { ptr: usize, len: usize },
}

/// A block: a header at `start`, then `size` payload bytes.
#[derive(Clone, Copy, Debug, PartialEq, Eq, Structural)]
pub struct Block {
    pub start: usize,
    pub size: usize,
    pub state: BlockState,
}

pub open spec fn is_free(b: Block) -> bool {
    b.state == BlockState::Free
}

/// Bytes the block occupies, header included.
pub open spec fn footprint(b: Block) -> int {
    HEADER_SIZE + b.size
}

/// First address past the block.
pub open spec fn block_end(b: Block) -> int {
    b.start + HEADER_SIZE + b.size
}

/// What one block adds to a tally of free (`free`) or allocated blocks,
/// counted in bytes (`bytes`) or as one each.
pub open spec fn share(b: Block, free: bool, bytes: bool) -> int {
    if is_free(b) == free {
        if bytes {
            footprint(b)
        } else {
            1
        }
    } else {
        0
    }
}

/// Bytes (or number) of the free (or allocated) blocks of `s`.
pub open spec fn tally(s: Seq<Block>, free: bool, bytes: bool) -> int
    decreases s.len(),
{
    if s.len() == 0 {
        0
    } else {
        tally(s.drop_last(), free, bytes) + share(s.last(), free, bytes)
    }
}

pub proof fn lemma_tally_nonneg(s: Seq<Block>, free: bool, bytes: bool)
    ensures
        0 <= tally(s, free, bytes),
        tally(s, free, false) <= tally(s, free, true),
    decreases s.len(),
{
    if s.len() > 0 {
        lemma_tally_nonneg(s.drop_last(), free, bytes);
    }
}

/// Every block takes at least a header's bytes.
pub proof fn lemma_tally_positive(s: Seq<Block>)
    requires
        s.len() > 0,
    ensures
        tally(s, true, true) + tally(s, false, true) >= HEADER_SIZE,
{
    lemma_tally_nonneg(s.drop_last(), true, true);
    lemma_tally_nonneg(s.drop_last(), false, true);
}

/// A tally of no bytes of free blocks means there is no free block.
pub proof fn lemma_tally_zero(s: Seq<Block>, i: int)
    requires
        tally(s, true, true) == 0,
        0 <= i < s.len(),
    ensures
        !is_free(s[i]),
    decreases s.len(),
{
    lemma_tally_nonneg(s.drop_last(), true, true);
    if i < s.len() - 1 {
        lemma_tally_zero(s.drop_last(), i);
    }
}

pub proof fn lemma_tally_update(s: Seq<Block>, i: int, b: Block, free: bool, bytes: bool)
    requires
        0 <= i < s.len(),
    ensures
        tally(s.update(i, b), free, bytes) == tally(s, free, bytes) - share(s[i], free, bytes)
            + share(b, free, bytes),
    decreases s.len(),
{
    let t = s.update(i, b);
    if i == s.len() - 1 {
        assert(t.drop_last() =~= s.drop_last());
    } else {
        assert(t.drop_last() =~= s.drop_last().update(i, b));
        lemma_tally_update(s.drop_last(), i, b, free, bytes);
    }
}

pub proof fn lemma_tally_insert(s: Seq<Block>, i: int, b: Block, free: bool, bytes: bool)
    requires
        0 <= i <= s.len(),
    ensures
        tally(s.insert(i, b), free, bytes) == tally(s, free, bytes) + share(b, free, bytes),
    decreases s.len(),
{
    let t = s.insert(i, b);
    if i == s.len() {
        assert(t.drop_last() =~= s);
    } else {
        assert(t.drop_last() =~= s.drop_last().insert(i, b));
        lemma_tally_insert(s.drop_last(), i, b, free, bytes);
    }
}

pub proof fn lemma_tally_remove(s: Seq<Block>, i: int, free: bool, bytes: bool)
    requires
        0 <= i < s.len(),
    ensures
        tally(s.remove(i), free, bytes) == tally(s, free, bytes) - share(s[i], free, bytes),
    decreases s.len(),
{
    let t = s.remove(i);
    if i == s.len() - 1 {
        assert(t =~= s.drop_last());
    } else {
        assert(t.drop_last() =~= s.drop_last().remove(i));
        lemma_tally_remove(s.drop_last(), i, free, bytes);
    }
}

} // verus!
