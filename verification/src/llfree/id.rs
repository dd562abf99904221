//! Typed indices of frames, bitfield rows, huge frames and trees.
use vstd::prelude::*;

use vstd::arithmetic::power2::pow2;
use vstd::bits::{lemma_usize_low_bits_mask_is_mod, lemma_usize_pow2_no_overflow, lemma_usize_shl_is_mul};

use super::{BITFIELD_ROW, HUGE_FRAMES, ROWS, TREE_FRAMES, TREE_HUGE};

verus! {

/// Index of a 64-bit bitfield row (global over all bitfields).
#[derive(Debug, Clone, Copy, PartialEq, Eq, Structural, PartialOrd, Ord)]
pub struct RowId(pub usize);

/// Index of a tree (a chunk of `TREE_FRAMES` frames).
#[derive(Debug, Clone, Copy, PartialEq, Eq, Structural, PartialOrd, Ord)]
pub struct TreeId(pub usize);

/// Index of a base frame.
#[derive(Debug, Clone, Copy, PartialEq, Eq, Structural, PartialOrd, Ord)]
pub struct FrameId(pub usize);

/// Index of a huge frame (a chunk of `HUGE_FRAMES` frames).
#[derive(Debug, Clone, Copy, PartialEq, Eq, Structural, PartialOrd, Ord)]
pub struct HugeId(pub usize);

/// A frame index is aligned to `order` if it is a multiple of `2^order`.
pub open spec fn aligned(frame: int, order: nat) -> bool {
    frame % (pow2(order) as int) == 0
}

/// `1 << order` is `2^order` for the orders that fit a machine word.
pub proof fn lemma_shl_pow2(order: usize)
    requires
        order < usize::BITS,
    ensures
        (1usize << order) as nat == pow2(order as nat),
        0 < pow2(order as nat) <= usize::MAX,
{
    lemma_usize_pow2_no_overflow(order as nat);
    lemma_usize_shl_is_mul(1, order);
}

/// For `n = 2^order`, masking with `n - 1` computes the remainder.
pub proof fn lemma_mask_is_mod(x: usize, order: usize)
    requires
        order < usize::BITS,
    ensures
        (x & (((1usize << order) - 1) as usize)) == x % (pow2(order as nat) as usize),
{
    lemma_shl_pow2(order);
    lemma_usize_low_bits_mask_is_mod(x, order as nat);
}

impl RowId {
    /// First frame of this row, if representable.
    pub fn as_frame(self) -> (r: Option<FrameId>)
        ensures
            r == (if self.0 * BITFIELD_ROW <= usize::MAX {
                Some(FrameId((self.0 * BITFIELD_ROW) as usize))
            } else {
                None::<FrameId>
            }),
    {
        match self.0.checked_mul(BITFIELD_ROW) {
            Some(frame) => Some(FrameId(frame)),
            None => None,
        }
    }

    /// Huge frame containing this row.
    pub fn as_huge(self) -> (r: HugeId)
        ensures
            r.0 == self.0 / ROWS,
    {
        HugeId(self.0 / ROWS)
    }

    /// Tree containing this row.
    pub fn as_tree(self) -> (r: TreeId)
        ensures
            r.0 == self.0 / (TREE_FRAMES / BITFIELD_ROW),
    {
        TreeId(self.0 / (TREE_FRAMES / BITFIELD_ROW))
    }

    /// Index of this row inside its bitfield.
    pub fn huge_idx(self) -> (r: usize)
        ensures
            r == self.0 % ROWS,
            r < ROWS,
    {
        self.0 % ROWS
    }

    /// Raw bits of this index.
    pub fn into_bits(self) -> (r: u64)
        ensures
            r == self.0,
    {
        self.0 as u64
    }

    /// Index from raw bits, if they fit a `usize`.
    pub fn from_bits(bits: u64) -> (r: Option<Self>)
        ensures
            r == (if bits <= usize::MAX { Some(RowId(bits as usize)) } else { None::<RowId> }),
    {
        if bits > usize::MAX as u64 {
            None
        } else {
            Some(RowId(bits as usize))
        }
    }
}

impl TreeId {
    /// First frame of this tree, if representable.
    pub fn as_frame(self) -> (r: Option<FrameId>)
        ensures
            r == (if self.0 * TREE_FRAMES <= usize::MAX {
                Some(FrameId((self.0 * TREE_FRAMES) as usize))
            } else {
                None::<FrameId>
            }),
    {
        match self.0.checked_mul(TREE_FRAMES) {
            Some(frame) => Some(FrameId(frame)),
            None => None,
        }
    }

    /// First huge frame of this tree, if representable.
    pub fn as_huge(self) -> (r: Option<HugeId>)
        ensures
            r == (if self.0 * TREE_HUGE <= usize::MAX {
                Some(HugeId((self.0 * TREE_HUGE) as usize))
            } else {
                None::<HugeId>
            }),
    {
        match self.0.checked_mul(TREE_HUGE) {
            Some(huge) => Some(HugeId(huge)),
            None => None,
        }
    }

    /// First row of this tree, if representable.
    pub fn as_row(self) -> (r: Option<RowId>)
        ensures
            r == (if self.0 * (TREE_FRAMES / BITFIELD_ROW) <= usize::MAX {
                Some(RowId((self.0 * (TREE_FRAMES / BITFIELD_ROW)) as usize))
            } else {
                None::<RowId>
            }),
    {
        match self.0.checked_mul(TREE_FRAMES / BITFIELD_ROW) {
            Some(row) => Some(RowId(row)),
            None => None,
        }
    }

    /// Index from raw bits, if they fit a `usize`.
    pub fn from_bits(value: u64) -> (r: Option<Self>)
        ensures
            r == (if value <= usize::MAX { Some(TreeId(value as usize)) } else { None::<TreeId> }),
    {
        if value > usize::MAX as u64 {
            None
        } else {
            Some(TreeId(value as usize))
        }
    }

    /// Raw bits of this index.
    pub fn into_bits(self) -> (r: u64)
        ensures
            r == self.0,
    {
        self.0 as u64
    }
}

impl FrameId {
    /// Raw bits of this index.
    pub fn into_bits(self) -> (r: u64)
        ensures
            r == self.0,
    {
        self.0 as u64
    }

    /// Index from raw bits, if they fit a `usize`.
    pub fn from_bits(bits: u64) -> (r: Option<Self>)
        ensures
            r == (if bits <= usize::MAX { Some(FrameId(bits as usize)) } else { None::<FrameId> }),
    {
        if bits > usize::MAX as u64 {
            None
        } else {
            Some(FrameId(bits as usize))
        }
    }

    /// Tree containing this frame.
    pub fn as_tree(self) -> (r: TreeId)
        ensures
            r.0 == self.0 / TREE_FRAMES,
    {
        TreeId(self.0 / TREE_FRAMES)
    }

    /// Huge frame containing this frame.
    pub fn as_huge(self) -> (r: HugeId)
        ensures
            r.0 == self.0 / HUGE_FRAMES,
    {
        HugeId(self.0 / HUGE_FRAMES)
    }

    /// Row containing this frame.
    pub fn as_row(self) -> (r: RowId)
        ensures
            r.0 == self.0 / BITFIELD_ROW,
    {
        RowId(self.0 / BITFIELD_ROW)
    }

    /// Bit position of this frame inside its row.
    pub fn row_bit_idx(self) -> (r: usize)
        ensures
            r == self.0 % BITFIELD_ROW,
            r < BITFIELD_ROW,
    {
        self.0 % BITFIELD_ROW
    }

    /// Whether this frame is a multiple of `2^order`; false for orders of
    /// `usize::BITS` and more.
    pub fn is_aligned(self, order: usize) -> (r: bool)
        ensures
            r == (order < usize::BITS && aligned(self.0 as int, order as nat)),
    {
        if order >= usize::BITS as usize {
            return false;
        }
        proof {
            lemma_shl_pow2(order);
            lemma_mask_is_mod(self.0, order);
        }
        let size: usize = 1usize << order;
        self.0 & (size - 1) == 0
    }
}

impl HugeId {
    /// First frame of this huge frame, if representable.
    pub fn as_frame(self) -> (r: Option<FrameId>)
        ensures
            r == (if self.0 * HUGE_FRAMES <= usize::MAX {
                Some(FrameId((self.0 * HUGE_FRAMES) as usize))
            } else {
                None::<FrameId>
            }),
    {
        match self.0.checked_mul(HUGE_FRAMES) {
            Some(frame) => Some(FrameId(frame)),
            None => None,
        }
    }

    /// Tree containing this huge frame.
    pub fn as_tree(self) -> (r: TreeId)
        ensures
            r.0 == self.0 / TREE_HUGE,
    {
        TreeId(self.0 / TREE_HUGE)
    }

    /// First row of this huge frame, if representable.
    pub fn as_row(self) -> (r: Option<RowId>)
        ensures
            r == (if self.0 * ROWS <= usize::MAX {
                Some(RowId((self.0 * ROWS) as usize))
            } else {
                None::<RowId>
            }),
    {
        match self.0.checked_mul(ROWS) {
            Some(row) => Some(RowId(row)),
            None => None,
        }
    }

    /// Index of this huge frame inside its tree.
    pub fn child_idx(self) -> (r: usize)
        ensures
            r == self.0 % TREE_HUGE,
            r < TREE_HUGE,
    {
        self.0 % TREE_HUGE
    }
}

} // verus!
