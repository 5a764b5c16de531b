//! Global lock ranks.
//!
//! Acquire increasing rank, release reverse. Never take a lower rank
//! while holding a higher one. Rank 0 is untracked.

use vstd::prelude::*;

verus! {

/// Page tables / KVA / ioremap.
pub const RANK_PT: u8 = 1;
/// Buddy physical allocator.
pub const RANK_BUDDY: u8 = 2;
/// Kernel heap.
pub const RANK_HEAP: u8 = 3;
/// Scheduler (TCB table, timeouts, wait queues).
pub const RANK_SCHED: u8 = 4;
/// Device / driver locks.
pub const RANK_DEVICE: u8 = 5;
/// Serial TX. Last so any holder can still log.
pub const RANK_SERIAL: u8 = 6;

/// The bit that stands for `rank` in a held mask; rank 0 has none, and a
/// rank past the eighth has none either.
pub open spec fn spec_rank_bit(rank: u8) -> u8 {
    if rank == 0 || rank > 8 { 0 } else { (1u8 << ((rank - 1) as u8)) as u8 }
}

/// Bit for `rank` in a held mask. Rank 0 gives 0.
pub fn rank_bit(rank: u8) -> (r: u8)
    requires
        rank <= 8,
    ensures
        r == spec_rank_bit(rank),
        rank == 0 <==> r == 0,
{
    if rank == 0 {
        0
    } else {
        let s: u8 = rank - 1;
        assert(s < 8 ==> (1u8 << s) != 0) by (bit_vector);
        1u8 << s
    }
}

/// No held rank is strictly above `rank`. Rank 0 is always allowed.
pub fn can_acquire(held: u8, rank: u8) -> (r: bool)
    requires
        rank < 8,
    ensures
        r == (rank == 0 || held >> rank == 0),
{
    if rank == 0 { true } else { held >> rank == 0 }
}

/// `held` with `rank` added.
pub fn acquire_mask(held: u8, rank: u8) -> (r: u8)
    requires
        rank <= 8,
    ensures
        r == held | spec_rank_bit(rank),
{
    held | rank_bit(rank)
}

/// `held` with `rank` removed.
pub fn release_mask(held: u8, rank: u8) -> (r: u8)
    requires
        rank <= 8,
    ensures
        r == held & !spec_rank_bit(rank),
{
    held & !rank_bit(rank)
}

/// Two CPU-local locks: lower `cpu_id` first.
pub fn cpu_lock_order(a: u32, b: u32) -> (r: (u32, u32))
    ensures
        r.0 <= r.1,
        (r.0 == a && r.1 == b) || (r.0 == b && r.1 == a),
{
    if a <= b { (a, b) } else { (b, a) }
}

} // verus!
