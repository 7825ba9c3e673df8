//! Size classes of the one-shot pools and their layout in the pool arena.
//!
//! The classes are laid out from the largest down, so that each pool starts
//! at a multiple of its own capacity when the arena starts at a multiple of
//! the largest one.
use crate::arith::{is_pow2, lemma_divides_add, lemma_divides_trans, lemma_pow2_divides};
use vstd::prelude::*;

verus! {

/// Number of size classes.
pub const POOL_CLASSES: usize = 8;

/// Bytes of the arena that holds all pools.
pub const POOL_ARENA_BYTES: usize = 699040;

/// Alignment the arena must have: the capacity of the largest class.
pub const POOL_ARENA_ALIGN: usize = 524288;

/// Capacity of class `i`, ascending: 32 B up to 512 KiB.
pub open spec fn class_capacity(i: int) -> int {
    if i == 0 {
        32
    } else if i == 1 {
        128
    } else if i == 2 {
        512
    } else if i == 3 {
        2048
    } else if i == 4 {
        8192
    } else if i == 5 {
        32768
    } else if i == 6 {
        131072
    } else {
        524288
    }
}

/// Offset of class `i`'s pool in the arena.
pub open spec fn class_offset(i: int) -> int {
    if i == 0 {
        699008
    } else if i == 1 {
        698880
    } else if i == 2 {
        698368
    } else if i == 3 {
        696320
    } else if i == 4 {
        688128
    } else if i == 5 {
        655360
    } else if i == 6 {
        524288
    } else {
        0
    }
}

/// Class `i` can hold a request of `size` bytes aligned to `align`.
pub open spec fn class_fits(i: int, size: int, align: int) -> bool {
    class_capacity(i) >= size && class_capacity(i) >= align
}

/// The smallest class, from `k` on, that can hold the request.
pub open spec fn first_class_from(k: int, size: int, align: int) -> Option<int>
    decreases POOL_CLASSES - k,
{
    if k < 0 || k >= POOL_CLASSES {
        None
    } else if class_fits(k, size, align) {
        Some(k)
    } else {
        first_class_from(k + 1, size, align)
    }
}

/// The smallest class that can hold the request.
pub open spec fn first_class(size: int, align: int) -> Option<int> {
    first_class_from(0, size, align)
}

pub fn capacity_of(i: usize) -> (r: usize)
    requires
        i < POOL_CLASSES,
    ensures
        r == class_capacity(i as int),
{
    if i == 0 {
        32
    } else if i == 1 {
        128
    } else if i == 2 {
        512
    } else if i == 3 {
        2048
    } else if i == 4 {
        8192
    } else if i == 5 {
        32768
    } else if i == 6 {
        131072
    } else {
        524288
    }
}

pub fn offset_of(i: usize) -> (r: usize)
    requires
        i < POOL_CLASSES,
    ensures
        r == class_offset(i as int),
{
    if i == 0 {
        699008
    } else if i == 1 {
        698880
    } else if i == 2 {
        698368
    } else if i == 3 {
        696320
    } else if i == 4 {
        688128
    } else if i == 5 {
        655360
    } else if i == 6 {
        524288
    } else {
        0
    }
}

/// Finds the smallest size class whose capacity covers both the size and the
/// alignment of a request.
pub fn class_for(size: usize, align: usize) -> (r: Option<usize>)
    ensures
        match first_class(size as int, align as int) {
            Some(i) => r == Some(i as usize) && 0 <= i < POOL_CLASSES && class_fits(
                i,
                size as int,
                align as int,
            ),
            None => r is None,
        },
{
    let mut k: usize = 0;
    while k < POOL_CLASSES
        invariant
            k <= POOL_CLASSES,
            first_class(size as int, align as int) == first_class_from(k as int, size as int, align as int),
        decreases POOL_CLASSES - k,
    {
        proof {
            lemma_first_class_from(k as int, size as int, align as int);
        }
        let cap = capacity_of(k);
        if cap >= size && cap >= align {
            return Some(k);
        }
        k = k + 1;
    }
    None
}

pub proof fn lemma_first_class_from(k: int, size: int, align: int)
    requires
        0 <= k,
    ensures
        first_class_from(k, size, align) matches Some(i) ==> k <= i < POOL_CLASSES && class_fits(
            i,
            size,
            align,
        ),
    decreases POOL_CLASSES - k,
{
    if k < POOL_CLASSES && !class_fits(k, size, align) {
        lemma_first_class_from(k + 1, size, align);
    }
}

/// The pools lie inside the arena, apart from each other.
pub proof fn lemma_pool_layout(i: int, j: int)
    requires
        0 <= i < POOL_CLASSES,
        0 <= j < POOL_CLASSES,
    ensures
        0 <= class_offset(i),
        class_offset(i) + class_capacity(i) <= POOL_ARENA_BYTES,
        i != j ==> class_offset(i) + class_capacity(i) <= class_offset(j) || class_offset(j)
            + class_capacity(j) <= class_offset(i),
{
}

/// A pool in an aligned arena is aligned to every power of two up to its
/// capacity.
pub proof fn lemma_pool_aligned(arena: int, i: int, align: int)
    requires
        arena % (POOL_ARENA_ALIGN as int) == 0,
        0 <= i < POOL_CLASSES,
        is_pow2(align),
        align <= class_capacity(i),
    ensures
        (arena + class_offset(i)) % align == 0,
{
    let c = class_capacity(i);
    lemma_class_pow2(i);
    lemma_pow2_divides(align, c);
    lemma_pow2_divides(c, POOL_ARENA_ALIGN as int);
    lemma_divides_trans(arena, POOL_ARENA_ALIGN as int, c);
    assert(class_offset(i) % c == 0);
    lemma_divides_add(arena, class_offset(i), c);
    lemma_divides_trans(arena + class_offset(i), c, align);
}

/// Every capacity is a power of two.
proof fn lemma_class_pow2(i: int)
    requires
        0 <= i < POOL_CLASSES,
    ensures
        is_pow2(class_capacity(i)),
        is_pow2(POOL_ARENA_ALIGN as int),
{
    assert(is_pow2(1));
    assert(is_pow2(2));
    assert(is_pow2(4));
    assert(is_pow2(8));
    assert(is_pow2(16));
    assert(is_pow2(32));
    assert(is_pow2(64));
    assert(is_pow2(128));
    assert(is_pow2(256));
    assert(is_pow2(512));
    assert(is_pow2(1024));
    assert(is_pow2(2048));
    assert(is_pow2(4096));
    assert(is_pow2(8192));
    assert(is_pow2(16384));
    assert(is_pow2(32768));
    assert(is_pow2(65536));
    assert(is_pow2(131072));
    assert(is_pow2(262144));
    assert(is_pow2(524288));
}

} // verus!
