//! Bit layout of the packed words: object state words and object handles.
//!
//! An object's mutable state is a single `u64`:
//!
//! - semaphore: high half = maximum, low half = count
//! - mutex: high half = recursion count (31 bits) with the abandoned flag in
//!   the top bit, low half = owner
//! - event: high half = manual-reset flag, low half = signaled flag
//!
//! A handle is a `u32`: the slot index in the low 14 bits and the low 18 bits
//! of the slot's generation above them.
use vstd::prelude::*;

verus! {

/// Number of object slots in the region.
pub const SLOT_COUNT: u32 = 16384;

/// Number of handle bits that hold the slot index (log2 of `SLOT_COUNT`).
pub const INDEX_BITS: u32 = 14;

/// Mask that extracts the slot index from a handle.
pub const INDEX_MASK: u32 = 0x3fff;

/// Number of generations that a handle can tell apart.
pub const HANDLE_GENERATIONS: u32 = 0x4_0000;

/// Largest recursion count a mutex can reach.
pub const MAX_RECURSION: u32 = 0x7fff_ffff;

/// Low half of a state word.
pub open spec fn lo_of(w: u64) -> u32 {
    (w % 0x1_0000_0000) as u32
}

/// High half of a state word.
pub open spec fn hi_of(w: u64) -> u32 {
    (w / 0x1_0000_0000) as u32
}

/// The word with the given halves.
pub open spec fn join(hi: u32, lo: u32) -> u64 {
    (hi * 0x1_0000_0000 + lo) as u64
}

/// The high half of a mutex word.
pub open spec fn mutex_hi(count: u32, abandoned: bool) -> u32 {
    (count % 0x8000_0000 + if abandoned { 0x8000_0000int } else { 0int }) as u32
}

/// Slot index named by a handle.
pub open spec fn index_of(handle: u32) -> int {
    handle as int % SLOT_COUNT as int
}

/// Generation named by a handle.
pub open spec fn generation_of(handle: u32) -> int {
    handle as int / SLOT_COUNT as int
}

/// The handle of slot `index` in generation `generation`; generations beyond
/// 18 bits lose their high bits.
pub open spec fn handle_for(generation: u32, index: u32) -> u32 {
    ((generation % HANDLE_GENERATIONS) * SLOT_COUNT + index) as u32
}

/// The two halves determine the word, and every word is made of its halves.
pub proof fn lemma_join_halves(hi: u32, lo: u32)
    ensures
        lo_of(join(hi, lo)) == lo,
        hi_of(join(hi, lo)) == hi,
{
}

pub proof fn lemma_halves_join(w: u64)
    ensures
        join(hi_of(w), lo_of(w)) == w,
{
}

/// The fields of a mutex's high half can be read back.
pub proof fn lemma_mutex_hi_fields(count: u32, abandoned: bool)
    requires
        count <= MAX_RECURSION,
    ensures
        mutex_hi(count, abandoned) % 0x8000_0000 == count,
        (mutex_hi(count, abandoned) / 0x8000_0000 != 0) == abandoned,
{
}

/// A handle gives back the slot index it was made of, and the generation too
/// as long as that fits the handle.
pub proof fn lemma_handle_fields(generation: u32, index: u32)
    requires
        index < SLOT_COUNT,
    ensures
        index_of(handle_for(generation, index)) == index,
        generation_of(handle_for(generation, index)) == generation % HANDLE_GENERATIONS,
{
}

/// Low half of a word.
pub fn lo32(w: u64) -> (r: u32)
    ensures
        r == lo_of(w),
{
    proof {
        assert(w as u32 == w % 0x1_0000_0000) by (bit_vector);
    }
    #[verifier::truncate]
    (w as u32)
}

/// High half of a word.
pub fn hi32(w: u64) -> (r: u32)
    ensures
        r == hi_of(w),
{
    proof {
        assert((w >> 32) == w / 0x1_0000_0000) by (bit_vector);
    }
    (w >> 32) as u32
}

/// Packs a semaphore's state word.
pub fn pack_sem(count: u32, max: u32) -> (w: u64)
    ensures
        w == join(max, count),
{
    proof {
        assert(((max as u64) << 32) | (count as u64) == max * 0x1_0000_0000 + count)
            by (bit_vector);
    }
    ((max as u64) << 32) | count as u64
}

/// Packs a mutex's state word. Only the low 31 bits of `count` are kept.
pub fn pack_mutex(owner: u32, count: u32, ownerdead: bool) -> (w: u64)
    ensures
        w == join(mutex_hi(count, ownerdead), owner),
{
    let flag: u64 = if ownerdead {
        1
    } else {
        0
    };
    proof {
        assert(flag <= 1 ==> ((((count as u64) & 0x7fff_ffff) | (flag << 31)) << 32) | (
        owner as u64) == (count % 0x8000_0000 + flag * 0x8000_0000) * 0x1_0000_0000 + owner)
            by (bit_vector);
    }
    ((((count as u64) & 0x7fff_ffff) | (flag << 31)) << 32) | owner as u64
}

/// Packs an event's state word.
pub fn pack_event(signaled: bool, manual: bool) -> (w: u64)
    ensures
        w == join(
            if manual {
                1
            } else {
                0
            },
            if signaled {
                1
            } else {
                0
            },
        ),
{
    let hi: u64 = if manual {
        1
    } else {
        0
    };
    let lo: u64 = if signaled {
        1
    } else {
        0
    };
    proof {
        assert(hi <= 1 && lo <= 1 ==> (hi << 32) | lo == hi * 0x1_0000_0000 + lo) by (bit_vector);
    }
    (hi << 32) | lo
}

/// Recursion count held in a mutex's high half.
pub fn mutex_count(hi: u32) -> (r: u32)
    ensures
        r == hi % 0x8000_0000,
{
    proof {
        assert(hi & 0x7fff_ffff == hi % 0x8000_0000) by (bit_vector);
    }
    hi & 0x7fff_ffff
}

/// Abandoned flag held in a mutex's high half.
pub fn mutex_abandoned(hi: u32) -> (r: bool)
    ensures
        r == (hi / 0x8000_0000 != 0),
{
    proof {
        assert(hi >> 31 == hi / 0x8000_0000) by (bit_vector);
    }
    hi >> 31 != 0
}

/// Slot index named by a handle.
pub fn handle_index(handle: u32) -> (r: u32)
    ensures
        r == index_of(handle),
        r < SLOT_COUNT,
{
    proof {
        assert(handle & 0x3fff == handle % 16384) by (bit_vector);
    }
    handle & INDEX_MASK
}

/// Generation named by a handle.
pub fn handle_generation(handle: u32) -> (r: u32)
    ensures
        r == generation_of(handle),
{
    proof {
        assert(handle >> 14 == handle / 16384) by (bit_vector);
    }
    handle >> INDEX_BITS
}

/// Makes a handle.
pub fn make_handle(generation: u32, index: u32) -> (h: u32)
    requires
        index < SLOT_COUNT,
    ensures
        h == handle_for(generation, index),
{
    proof {
        assert(index < 16384 ==> (generation << 14) | index == (generation % 0x4_0000) * 16384
            + index) by (bit_vector);
    }
    (generation << INDEX_BITS) | index
}

} // verus!
