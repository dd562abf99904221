//! Page frame allocator.
use vstd::prelude::*;

use vstd::arithmetic::power2::{lemma2_to64, pow2};

pub mod id;
pub mod bitfield;
pub mod lower;
pub mod util;
pub mod atomic;
pub mod trees;
pub mod local;

verus! {

/// Number of huge frames in tree
pub const TREE_HUGE: usize = 8;
/// Order for huge frames
pub const HUGE_ORDER: usize = 9;
/// Number of small frames in tree
pub const TREE_FRAMES: usize = 4096;
/// Order of an entire tree
pub const TREE_ORDER: usize = 12;
/// Number of small frames in huge frame
pub const HUGE_FRAMES: usize = 512;
/// Maximum order the llfree supports
pub const MAX_ORDER: usize = 10;
/// Bit size of the atomic ints that comprise the bitfields
pub const BITFIELD_ROW: usize = 64;
/// Number of rows of a bitfield
pub const ROWS: usize = 8;
/// Maximum number of frames accepted by `Allocator::new`:
/// `(usize::MAX / u16::MAX / TREE_HUGE) * TREE_FRAMES`.
pub const MAX_FRAMES: usize = usize::MAX / 65535 / 8 * 4096;
/// Number of retries if an atomic operation fails.
pub const RETRIES: usize = 4;

/// Allocation error
#[derive(Debug, Clone, Copy, PartialEq, Eq, Structural)]
pub enum Error {
    /// Not enough memory
    Memory,
    /// Failed atomic operation, retry procedure
    Retry,
    /// Invalid address
    Address,
    /// Allocator not initialized or initialization failed
    Initialization,
    /// Undoing a toggle failed
    FailedUndoToggle,
    /// Undoing a search failed
    FailedUndoSearch,
    /// Undoing an update failed
    UndoFailed,
    /// Invalid argument
    InvalidArgument,
    /// Order not supported
    OrderNotSuported,
    /// Incrementing a counter failed
    FailedToIncrement,
}

/// Allocation request: the order and whether the frames can be moved.
#[derive(Debug, Clone, Copy, PartialEq, Eq, Structural)]
pub struct Flags {
    /// Order of the allocation
    pub order: usize,
    /// The frames can be moved
    pub movable: bool,
}

impl Flags {
    /// Unmovable frames of `order`.
    pub fn o(order: usize) -> (r: Flags)
        ensures
            r.order == order && !r.movable,
    {
        Flags { order, movable: false }
    }
}

/// Allocation statistics of allocator
#[derive(Debug, Clone, Copy, PartialEq, Eq, Structural)]
pub struct Stats {
    /// Number of free frames
    pub free_frames: usize,
    /// Number of entirely free huge frames
    pub free_huge: usize,
    /// Number of entirely free trees
    pub free_trees: usize,
}

impl Stats {
    /// All counters zero.
    pub fn zero() -> (r: Stats)
        ensures
            r.free_frames == 0 && r.free_huge == 0 && r.free_trees == 0,
    {
        Stats { free_frames: 0, free_huge: 0, free_trees: 0 }
    }
}

/// The geometry of the allocator: a row covers 64 frames, a huge frame is
/// `2^HUGE_ORDER` frames made of `ROWS` rows, a tree is `2^TREE_ORDER`
/// frames made of `TREE_HUGE` huge frames, and the largest order lies
/// between a huge frame's order and a tree's.
pub proof fn law_geometry()
    ensures
        HUGE_FRAMES == pow2(HUGE_ORDER as nat),
        TREE_FRAMES == pow2(TREE_ORDER as nat),
        BITFIELD_ROW == pow2(6),
        HUGE_FRAMES == BITFIELD_ROW * ROWS,
        TREE_FRAMES == HUGE_FRAMES * TREE_HUGE,
        MAX_ORDER < TREE_ORDER,
        HUGE_ORDER <= MAX_ORDER,
{
    lemma2_to64();
}

} // verus!
