//! Bitfield of one huge frame: one bit per base frame, set if allocated.
use vstd::prelude::*;
use vstd::std_specs::bits::{axiom_u64_trailing_ones, axiom_u64_trailing_zeros, u64_trailing_ones, u64_trailing_zeros};

use vstd::arithmetic::power2::{lemma2_to64, pow2};

use super::id::{aligned, lemma_shl_pow2, FrameId, RowId};
use super::{Error, BITFIELD_ROW, HUGE_ORDER, ROWS};

verus! {

/// Bit `i` of a row (false outside `0..64`).
pub open spec fn bit(x: u64, i: int) -> bool {
    0 <= i < 64 && (x >> (i as u64)) & 1 == 1
}

/// Mask of the `n` lowest bits (`1 <= n <= 64`).
pub open spec fn low_mask(n: u64) -> u64 {
    if n >= 64 {
        0xffff_ffff_ffff_ffffu64
    } else {
        ((1u64 << n) - 1) as u64
    }
}

/// Mask of the `n` bits starting at bit `off`.
pub open spec fn block(off: u64, n: u64) -> u64 {
    low_mask(n) << off
}

/// The `n` bits of `x` starting at `start` are all zero.
pub open spec fn zeros(x: u64, start: int, n: int) -> bool {
    forall|j: int| start <= j < start + n ==> !#[trigger] bit(x, j)
}

/// `start` is an `n`-aligned slot of a row whose `n` bits are all zero.
pub open spec fn free_slot(x: u64, start: int, n: int) -> bool {
    &&& 0 <= start
    &&& start + n <= 64
    &&& start % n == 0
    &&& zeros(x, start, n)
}

/// `start` is the lowest `n`-aligned free slot of `x`.
pub open spec fn first_free_slot(x: u64, start: int, n: int) -> bool {
    &&& free_slot(x, start, n)
    &&& forall|k: int| 0 <= k < start && k % n == 0 ==> !#[trigger] zeros(x, k, n)
}

// ---- bit-vector facts ------------------------------------------------------

proof fn bv_mask_bits(v: u64, k: u64, n: u64, j: u64, w: u64, tz: u64)
    by (bit_vector)
    ensures
        (1 <= n <= 64 && k + n <= 64 && (v >> k) & low_mask(n) == 0 && k <= j && j < k + n)
            ==> (v >> j) & 1 == 0,
        (1 <= n <= 64 && k + n <= 64 && w == (v >> k) & low_mask(n) && tz < 64 && (w >> tz) & 1
            == 1) ==> (tz < n && (v >> ((k + tz) as u64)) & 1 == 1),
{
}

proof fn bv_block_bits(v: u64, k: u64, n: u64, j: u64)
    by (bit_vector)
    requires
        1 <= n <= 64,
        k + n <= 64,
        j < 64,
    ensures
        ((v | (low_mask(n) << k)) >> j) & 1 == 1 <==> ((v >> j) & 1 == 1 || (k <= j && j < k + n)),
        ((v & !(low_mask(n) << k)) >> j) & 1 == 1 <==> ((v >> j) & 1 == 1 && !(k <= j && j < k
            + n)),
{
}

/// A row slot is free exactly when the masked bits are zero.
pub proof fn lemma_zeros_mask(v: u64, k: u64, n: u64)
    requires
        1 <= n <= 64,
        k + n <= 64,
    ensures
        zeros(v, k as int, n as int) <==> (v >> k) & low_mask(n) == 0,
{
    if (v >> k) & low_mask(n) == 0 {
        assert forall|j: int| k <= j < k + n implies !#[trigger] bit(v, j) by {
            bv_mask_bits(v, k, n, j as u64, 0, 0);
        }
    } else {
        let w = (v >> k) & low_mask(n);
        axiom_u64_trailing_zeros(w);
        let tz = u64_trailing_zeros(w) as u64;
        bv_mask_bits(v, k, n, 0, w, tz);
        assert(bit(v, k + tz));
    }
}

/// Setting or clearing a block of bits changes exactly these bits.
pub proof fn lemma_block_bits(v: u64, k: u64, n: u64)
    requires
        1 <= n <= 64,
        k + n <= 64,
    ensures
        forall|j: int| #[trigger] bit(v | block(k, n), j) == (bit(v, j) || (0 <= j && k <= j < k + n)),
        forall|j: int| #[trigger] bit(v & !block(k, n), j) == (bit(v, j) && !(k <= j < k + n)),
{
    assert forall|j: int| #[trigger] bit(v | block(k, n), j) == (bit(v, j) || (0 <= j && k <= j < k + n)) by {
        if 0 <= j < 64 {
            bv_block_bits(v, k, n, j as u64);
        }
    }
    assert forall|j: int| #[trigger] bit(v & !block(k, n), j) == (bit(v, j) && !(k <= j < k + n)) by {
        if 0 <= j < 64 {
            bv_block_bits(v, k, n, j as u64);
        }
    }
}

// ---- first_zeros_aligned --------------------------------------------------

/// Orders of allocations that fit into a single row.
#[derive(Debug, Clone, Copy, PartialEq, Eq, Structural)]
pub enum SmallOrder {
    O0,
    O1,
    O2,
    O3,
    O4,
    O5,
    O6,
}

impl SmallOrder {
    /// The order as a number.
    pub open spec fn order(self) -> nat {
        match self {
            SmallOrder::O0 => 0,
            SmallOrder::O1 => 1,
            SmallOrder::O2 => 2,
            SmallOrder::O3 => 3,
            SmallOrder::O4 => 4,
            SmallOrder::O5 => 5,
            SmallOrder::O6 => 6,
        }
    }

    /// Number of bits of an allocation of this order.
    pub open spec fn size(self) -> u64 {
        match self {
            SmallOrder::O0 => 1,
            SmallOrder::O1 => 2,
            SmallOrder::O2 => 4,
            SmallOrder::O3 => 8,
            SmallOrder::O4 => 16,
            SmallOrder::O5 => 32,
            SmallOrder::O6 => 64,
        }
    }

    /// The order if it is at most 6, else the order itself as error.
    pub fn new(v: usize) -> (r: Result<Self, usize>)
        ensures
            v <= 6 ==> r is Ok && r->Ok_0.order() == v,
            v > 6 ==> r == Err::<Self, usize>(v),
    {
        match v {
            0 => Ok(SmallOrder::O0),
            1 => Ok(SmallOrder::O1),
            2 => Ok(SmallOrder::O2),
            3 => Ok(SmallOrder::O3),
            4 => Ok(SmallOrder::O4),
            5 => Ok(SmallOrder::O5),
            6 => Ok(SmallOrder::O6),
            v => Err(v),
        }
    }
}

/// What `first_zeros_aligned` returns: the row with its lowest free aligned
/// slot set and the slot's offset, or `None` if there is no free slot.
pub open spec fn first_zeros_result(v: u64, n: u64, r: Option<(u64, usize)>) -> bool {
    match r {
        Some((nv, off)) => first_free_slot(v, off as int, n as int) && nv == v | block(
            off as u64,
            n,
        ),
        None => forall|k: int| !#[trigger] free_slot(v, k, n as int),
    }
}

proof fn bv_consts()
    by (bit_vector)
    ensures
        low_mask(1) == 1,
        low_mask(2) == 3,
        low_mask(4) == 0xf,
        low_mask(8) == 0xff,
        low_mask(16) == 0xffff,
        low_mask(32) == 0xffff_ffff,
        low_mask(64) == 0xffff_ffff_ffff_ffff,
        0xffff_ffffu64 << 0u64 == 0xffff_ffffu64,
        0xffff_ffff_ffff_ffffu64 << 0u64 == 0xffff_ffff_ffff_ffffu64,
        0u64 | 0xffff_ffff_ffff_ffffu64 == 0xffff_ffff_ffff_ffffu64,
{
}

proof fn bv_shl_mono(t: u64, k: u64, tz: u64)
    by (bit_vector)
    requires
        k <= tz <= 64,
        t << ((64 - tz) as u64) == 0,
    ensures
        t << ((64 - k) as u64) == 0,
{
}

/// Zero detection for pairs: the bit at `k` of `(v | v >> 1) | 0xaa..` is
/// clear exactly for even `k` whose pair of bits is zero.
proof fn bv_pairs(v: u64, k: u64)
    by (bit_vector)
    requires
        k < 64,
    ensures
        ((((v | (v >> 1u64)) | 0xaaaa_aaaa_aaaa_aaaau64) >> k) & 1 == 0) <==> (k % 2 == 0 && (v
            >> k) & 3 == 0),
{
}

/// The flag word of the zero-nibble detection, for group sizes 4, 8 and 16.
pub open spec fn group_flags(v: u64, n: u64) -> u64 {
    if n == 4 {
        ((v.wrapping_sub(0x1111_1111_1111_1111u64) & !v) >> 3u64) & 0x1111_1111_1111_1111u64
    } else if n == 8 {
        ((v.wrapping_sub(0x0101_0101_0101_0101u64) & !v) >> 7u64) & 0x0101_0101_0101_0101u64
    } else {
        ((v.wrapping_sub(0x0001_0001_0001_0001u64) & !v) >> 15u64) & 0x0001_0001_0001_0001u64
    }
}

proof fn bv_groups4(v: u64, j: u64, k: u64)
    by (bit_vector)
    ensures
        (j < 64 && (group_flags(v, 4) >> j) & 1 == 1) ==> j % 4 == 0,
        (k < 64 && k % 4 == 0 && group_flags(v, 4) << ((64 - k) as u64) == 0) ==> (((group_flags(
            v,
            4,
        ) >> k) & 1 == 1) <==> ((v >> k) & 0xf == 0)),
{
}

proof fn bv_groups8(v: u64, j: u64, k: u64)
    by (bit_vector)
    ensures
        (j < 64 && (group_flags(v, 8) >> j) & 1 == 1) ==> j % 8 == 0,
        (k < 64 && k % 8 == 0 && group_flags(v, 8) << ((64 - k) as u64) == 0) ==> (((group_flags(
            v,
            8,
        ) >> k) & 1 == 1) <==> ((v >> k) & 0xff == 0)),
{
}

proof fn bv_groups16(v: u64, j: u64, k: u64)
    by (bit_vector)
    ensures
        (j < 64 && (group_flags(v, 16) >> j) & 1 == 1) ==> j % 16 == 0,
        (k < 64 && k % 16 == 0 && group_flags(v, 16) << ((64 - k) as u64) == 0) ==> (((
        group_flags(v, 16) >> k) & 1 == 1) <==> ((v >> k) & 0xffff == 0)),
{
}

proof fn bv_halves(v: u64)
    by (bit_vector)
    ensures
        ((v >> 0u64) & 0xffff_ffff == 0) <==> (v as u32 == 0),
        ((v >> 32u64) & 0xffff_ffff == 0) <==> (v >> 32u64 == 0),
        ((v >> 0u64) & 0xffff_ffff_ffff_ffff == 0) <==> (v == 0),
{
}

/// Group detection facts at one position.
proof fn lemma_group_at(v: u64, n: u64, j: u64, k: u64)
    requires
        n == 4 || n == 8 || n == 16,
    ensures
        (j < 64 && (group_flags(v, n) >> j) & 1 == 1) ==> j % n == 0,
        (k < 64 && k % n == 0 && group_flags(v, n) << ((64 - k) as u64) == 0) ==> (((group_flags(
            v,
            n,
        ) >> k) & 1 == 1) <==> ((v >> k) & low_mask(n) == 0)),
{
    bv_consts();
    if n == 4 {
        bv_groups4(v, j, k);
    } else if n == 8 {
        bv_groups8(v, j, k);
    } else {
        bv_groups16(v, j, k);
    }
}

/// The lowest flag of the zero-group detection marks the first free slot.
proof fn lemma_groups(v: u64, n: u64)
    requires
        n == 4 || n == 8 || n == 16,
    ensures
        ({
            let t = group_flags(v, n);
            let tz = u64_trailing_zeros(t);
            &&& tz <= 64
            &&& tz < 64 ==> first_free_slot(v, tz as int, n as int)
            &&& tz == 64 ==> forall|k: int| !#[trigger] free_slot(v, k, n as int)
        }),
{
    let t = group_flags(v, n);
    axiom_u64_trailing_zeros(t);
    let tz = u64_trailing_zeros(t) as u64;
    if tz < 64 {
        lemma_group_at(v, n, tz, tz);
        bv_shl_mono(t, tz, tz);
        lemma_zeros_mask(v, tz, n);
        assert forall|k: int| 0 <= k < tz && k % (n as int) == 0 implies !#[trigger] zeros(
            v,
            k,
            n as int,
        ) by {
            let ku = k as u64;
            bv_shl_mono(t, ku, tz);
            assert((t >> ku) & 1u64 == 0u64);
            lemma_group_at(v, n, ku, ku);
            lemma_zeros_mask(v, ku, n);
        }
    } else {
        assert forall|k: int| !#[trigger] free_slot(v, k, n as int) by {
            if free_slot(v, k, n as int) {
                let ku = k as u64;
                bv_shl_mono(t, ku, 64);
                lemma_group_at(v, n, ku, ku);
                lemma_zeros_mask(v, ku, n);
                assert((t >> ku) & 1u64 == 0u64);
            }
        }
    }
}

proof fn lemma_single(v: u64)
    ensures
        ({
            let to = u64_trailing_ones(v);
            &&& to <= 64
            &&& to < 64 ==> first_free_slot(v, to as int, 1)
            &&& to == 64 ==> forall|k: int| !#[trigger] free_slot(v, k, 1)
        }),
{
    axiom_u64_trailing_ones(v);
    let to = u64_trailing_ones(v) as u64;
    if to < 64 {
        assert(zeros(v, to as int, 1));
        assert forall|k: int| 0 <= k < to && k % 1 == 0 implies !#[trigger] zeros(v, k, 1) by {
            assert((v >> (k as u64)) & 1u64 == 1u64);
            assert(bit(v, k));
        }
    } else {
        assert forall|k: int| !#[trigger] free_slot(v, k, 1) by {
            if 0 <= k < 64 {
                assert((v >> (k as u64)) & 1u64 == 1u64);
                assert(bit(v, k));
            }
        }
    }
}

proof fn lemma_pairs(v: u64)
    ensures
        ({
            let w = (v | (v >> 1u64)) | 0xaaaa_aaaa_aaaa_aaaau64;
            let to = u64_trailing_ones(w);
            &&& to <= 64
            &&& to < 64 ==> first_free_slot(v, to as int, 2)
            &&& to == 64 ==> forall|k: int| !#[trigger] free_slot(v, k, 2)
        }),
{
    let w = (v | (v >> 1u64)) | 0xaaaa_aaaa_aaaa_aaaau64;
    axiom_u64_trailing_ones(w);
    bv_consts();
    let to = u64_trailing_ones(w) as u64;
    if to < 64 {
        bv_pairs(v, to);
        lemma_zeros_mask(v, to, 2);
        assert forall|k: int| 0 <= k < to && k % 2 == 0 implies !#[trigger] zeros(v, k, 2) by {
            let ku = k as u64;
            assert((w >> ku) & 1u64 == 1u64);
            bv_pairs(v, ku);
            lemma_zeros_mask(v, ku, 2);
        }
    } else {
        assert forall|k: int| !#[trigger] free_slot(v, k, 2) by {
            if free_slot(v, k, 2) {
                let ku = k as u64;
                assert((w >> ku) & 1u64 == 1u64);
                bv_pairs(v, ku);
                lemma_zeros_mask(v, ku, 2);
            }
        }
    }
}

/// Set the first aligned `2^order` zero bits of `v`, returning the new row
/// and the bit offset.
///
/// Uses the zero-in-word detection of
/// <https://graphics.stanford.edu/~seander/bithacks.html#ZeroInWord>.
pub fn first_zeros_aligned(v: u64, order: SmallOrder) -> (r: Option<(u64, usize)>)
    ensures
        first_zeros_result(v, order.size(), r),
{
    proof {
        bv_consts();
    }
    match order {
        SmallOrder::O0 => {
            let off = v.trailing_ones();
            proof {
                lemma_single(v);
            }
            if off < 64 {
                Some((v | (1u64 << (off as u64)), off as usize))
            } else {
                None
            }
        },
        SmallOrder::O1 => {
            let mask = 0xaaaa_aaaa_aaaa_aaaa_u64;
            let off = ((v | (v >> 1u64)) | mask).trailing_ones();
            proof {
                lemma_pairs(v);
            }
            if off < 64 {
                Some((v | (0b11u64 << (off as u64)), off as usize))
            } else {
                None
            }
        },
        SmallOrder::O2 => {
            let mask = 0x1111_1111_1111_1111_u64;
            let off = (((v.wrapping_sub(mask) & !v) >> 3u64) & mask).trailing_zeros();
            proof {
                lemma_groups(v, 4);
            }
            if off < 64 {
                Some((v | (0b1111u64 << (off as u64)), off as usize))
            } else {
                None
            }
        },
        SmallOrder::O3 => {
            let mask = 0x0101_0101_0101_0101_u64;
            let off = (((v.wrapping_sub(mask) & !v) >> 7u64) & mask).trailing_zeros();
            proof {
                lemma_groups(v, 8);
            }
            if off < 64 {
                Some((v | (0xffu64 << (off as u64)), off as usize))
            } else {
                None
            }
        },
        SmallOrder::O4 => {
            let mask = 0x0001_0001_0001_0001_u64;
            let off = (((v.wrapping_sub(mask) & !v) >> 15u64) & mask).trailing_zeros();
            proof {
                lemma_groups(v, 16);
            }
            if off < 64 {
                Some((v | (0xffffu64 << (off as u64)), off as usize))
            } else {
                None
            }
        },
        SmallOrder::O5 => {
            let mask = 0xffff_ffff_u64;
            proof {
                bv_halves(v);
                lemma_zeros_mask(v, 0, 32);
                lemma_zeros_mask(v, 32, 32);
                assert forall|k: int| #[trigger] free_slot(v, k, 32) implies k == 0 || k == 32 by {}
            }
            if v as u32 == 0 {
                Some((v | mask, 0))
            } else if v >> 32u64 == 0 {
                Some((v | (mask << 32u64), 32))
            } else {
                None
            }
        },
        SmallOrder::O6 => {
            proof {
                bv_halves(v);
                lemma_zeros_mask(v, 0, 64);
                assert forall|k: int| #[trigger] free_slot(v, k, 64) implies k == 0 by {}
            }
            if v == 0 {
                Some((u64::MAX, 0))
            } else {
                None
            }
        },
    }
}

proof fn bv_row_facts(e: u64, k: u64, n: u64, j: u64)
    by (bit_vector)
    ensures
        (1 <= n <= 64) ==> 0xffff_ffff_ffff_ffffu64 >> ((64 - n) as u64) == low_mask(n),
        (1 <= n <= 64 && k + n <= 64) ==> ((e & (low_mask(n) << k) == 0) <==> ((e >> k) & low_mask(
            n,
        ) == 0)),
        (1 <= n <= 64 && k + n <= 64) ==> ((e & (low_mask(n) << k) == (low_mask(n) << k)) <==> ((
        !e >> k) & low_mask(n) == 0)),
        j < 64 ==> (((!e >> j) & 1 == 1) <==> !((e >> j) & 1 == 1)),
        j < 64 ==> (0u64 >> j) & 1 == 0,
        j < 64 ==> (0xffff_ffff_ffff_ffffu64 >> j) & 1 == 1,
        !0xffff_ffff_ffff_ffffu64 == 0u64,
        !0u64 == 0xffff_ffff_ffff_ffffu64,
        (!e == 0) <==> (e == 0xffff_ffff_ffff_ffffu64),
{
}

/// A row is zero exactly when none of its bits is set, and all ones exactly
/// when all are set.
pub proof fn lemma_row_bits(x: u64)
    ensures
        (x == 0) <==> zeros(x, 0, 64),
        (x == 0xffff_ffff_ffff_ffffu64) <==> zeros(!x, 0, 64),
        forall|j: int| 0 <= j < 64 ==> #[trigger] bit(!x, j) == !bit(x, j),
{
    bv_halves(x);
    bv_halves(!x);
    bv_consts();
    lemma_zeros_mask(x, 0, 64);
    lemma_zeros_mask(!x, 0, 64);
    bv_row_facts(x, 0, 1, 0);
    assert forall|j: int| 0 <= j < 64 implies #[trigger] bit(!x, j) == !bit(x, j) by {
        bv_row_facts(x, 0, 1, j as u64);
    }
}

/// Bit `i` of a bitfield given as its rows.
pub open spec fn is_set(rows: Seq<u64>, i: int) -> bool {
    bit(rows[i / 64], i % 64)
}

/// All bits of the block `start..start + n` are `v`.
pub open spec fn all_bits(rows: Seq<u64>, start: int, n: int, v: bool) -> bool {
    forall|i: int| start <= i < start + n ==> #[trigger] is_set(rows, i) == v
}

/// An aligned block of `n` free frames starting at `start`.
pub open spec fn free_block(rows: Seq<u64>, start: int, n: int) -> bool {
    &&& 0 <= start
    &&& start + n <= 512
    &&& start % n == 0
    &&& all_bits(rows, start, n, false)
}

/// Bits of a row viewed as bits of the bitfield.
pub proof fn lemma_row_is_set(rows: Seq<u64>, r: int)
    requires
        0 <= r < 8,
    ensures
        forall|j: int| 0 <= j < 64 ==> #[trigger] bit(rows[r], j) == is_set(rows, r * 64 + j),
{
    assert forall|j: int| 0 <= j < 64 implies #[trigger] bit(rows[r], j) == is_set(rows, r * 64 + j) by {
        assert((r * 64 + j) / 64 == r);
        assert((r * 64 + j) % 64 == j);
    }
}

/// `new` equals `old` with the bits of the block `start..start + n` set to `v`.
pub open spec fn with_block(old: Seq<u64>, new: Seq<u64>, start: int, n: int, v: bool) -> bool {
    &&& new.len() == 8
    &&& forall|i: int|
        0 <= i < 512 ==> #[trigger] is_set(new, i) == (if start <= i < start + n {
            v
        } else {
            is_set(old, i)
        })
}

/// A row of all `v` bits.
pub open spec fn full_row(v: bool) -> u64 {
    if v {
        0xffff_ffff_ffff_ffffu64
    } else {
        0u64
    }
}

/// A block inside one row is all `v` exactly when the row's slot is.
pub proof fn lemma_block_in_row(rows: Seq<u64>, s: int, n: int)
    requires
        0 <= s,
        1 <= n,
        s % 64 + n <= 64,
        s + n <= 512,
        rows.len() == 8,
    ensures
        all_bits(rows, s, n, false) <==> zeros(rows[s / 64], s % 64, n),
        all_bits(rows, s, n, true) <==> zeros(!rows[s / 64], s % 64, n),
{
    let r = s / 64;
    let x = rows[r];
    lemma_row_is_set(rows, r);
    lemma_row_bits(x);
    assert(s == r * 64 + s % 64);
    if zeros(x, s % 64, n) {
        assert forall|i: int| s <= i < s + n implies #[trigger] is_set(rows, i) == false by {
            assert(bit(x, i - r * 64) == is_set(rows, r * 64 + (i - r * 64)));
        }
    }
    if all_bits(rows, s, n, false) {
        assert forall|j: int| s % 64 <= j < s % 64 + n implies !#[trigger] bit(x, j) by {
            assert(is_set(rows, r * 64 + j) == false);
        }
    }
    if zeros(!x, s % 64, n) {
        assert forall|i: int| s <= i < s + n implies #[trigger] is_set(rows, i) == true by {
            assert(bit(!x, i - r * 64) == !bit(x, i - r * 64));
            assert(bit(x, i - r * 64) == is_set(rows, r * 64 + (i - r * 64)));
        }
    }
    if all_bits(rows, s, n, true) {
        assert forall|j: int| s % 64 <= j < s % 64 + n implies !#[trigger] bit(!x, j) by {
            assert(is_set(rows, r * 64 + j) == true);
        }
    }
}

/// A block of whole rows is all `v` exactly when the rows are full.
pub proof fn lemma_block_rows(rows: Seq<u64>, r0: int, m: int, v: bool)
    requires
        0 <= r0,
        r0 + m <= 8,
        rows.len() == 8,
    ensures
        all_bits(rows, r0 * 64, m * 64, v) <==> (forall|r: int|
            r0 <= r < r0 + m ==> #[trigger] rows[r] == full_row(v)),
{
    if forall|r: int| r0 <= r < r0 + m ==> #[trigger] rows[r] == full_row(v) {
        assert forall|i: int| r0 * 64 <= i < r0 * 64 + m * 64 implies #[trigger] is_set(rows, i)
            == v by {
            let r = i / 64;
            assert(r0 <= r < r0 + m);
            assert(rows[r] == full_row(v));
            bv_row_facts(0, 0, 1, (i % 64) as u64);
        }
    }
    if all_bits(rows, r0 * 64, m * 64, v) {
        assert forall|r: int| r0 <= r < r0 + m implies #[trigger] rows[r] == full_row(v) by {
            let x = rows[r];
            lemma_row_is_set(rows, r);
            lemma_row_bits(x);
            if v {
                assert forall|j: int| 0 <= j < 0 + 64 implies !#[trigger] bit(!x, j) by {
                    assert(is_set(rows, r * 64 + j) == true);
                }
            } else {
                assert forall|j: int| 0 <= j < 0 + 64 implies !#[trigger] bit(x, j) by {
                    assert(is_set(rows, r * 64 + j) == false);
                }
            }
        }
    }
}

/// Result of toggling `2^order` bits at `i` that are expected to be `expected`.
pub open spec fn toggle_result(
    old: Seq<u64>,
    new: Seq<u64>,
    i: int,
    order: int,
    expected: bool,
    r: Result<(), Error>,
) -> bool {
    if order > 9 || !aligned(i, order as nat) {
        r == Err::<(), Error>(Error::InvalidArgument) && new == old
    } else {
        let s = i % 512;
        let n = pow2(order as nat) as int;
        if all_bits(old, s, n, expected) {
            r == Ok::<(), Error>(()) && with_block(old, new, s, n, !expected)
        } else {
            r == Err::<(), Error>(Error::Address) && new == old
        }
    }
}

/// Row visited in the `i`-th step of a search starting at row `start`.
pub open spec fn rotated(start: int, i: int) -> int {
    (start % 8 + i) % 8
}

/// The row has a free aligned slot of `n` bits.
pub open spec fn row_has_slot(x: u64, n: int) -> bool {
    exists|k: int| #[trigger] free_slot(x, k, n)
}

/// The block chosen by `set_first_zeros`: for single-row orders the first
/// free slot of the first row, in search order from `start`, that has one;
/// for larger orders the first free block.
pub open spec fn first_choice(rows: Seq<u64>, start: int, n: int, f: int) -> bool {
    if n <= 64 {
        &&& exists|i: int|
            0 <= i < 8 && f / 64 == rotated(start, i) && forall|i2: int|
                0 <= i2 < i ==> !#[trigger] row_has_slot(rows[rotated(start, i2)], n)
        &&& first_free_slot(rows[f / 64], f % 64, n)
    } else {
        forall|s: int| 0 <= s < f ==> !#[trigger] free_block(rows, s, n)
    }
}

/// Setting or clearing a block inside one row, seen on the bits.
pub proof fn lemma_row_update(before: Seq<u64>, after: Seq<u64>, r: int, k: u64, n: u64, v: bool)
    requires
        before.len() == 8,
        0 <= r < 8,
        1 <= n <= 64,
        k + n <= 64,
        after == before.update(
            r,
            if v {
                before[r] | block(k, n)
            } else {
                before[r] & !block(k, n)
            },
        ),
    ensures
        with_block(before, after, r * 64 + k, n as int, v),
{
    lemma_block_bits(before[r], k, n);
    lemma_row_is_set(before, r);
    lemma_row_is_set(after, r);
    assert forall|j: int| 0 <= j < 512 implies #[trigger] is_set(after, j) == (if r * 64 + k <= j
        < r * 64 + k + n {
        v
    } else {
        is_set(before, j)
    }) by {
        if j / 64 == r {
            let b = j % 64;
            assert(j == r * 64 + b);
            assert(bit(after[r], b) == is_set(after, j));
            assert(bit(before[r], b) == is_set(before, j));
        } else {
            assert(after[j / 64] == before[j / 64]);
        }
    }
}

/// A free slot of a row is a free block of the bitfield and back.
pub proof fn lemma_slot_block(rows: Seq<u64>, r: int, k: int, n: int)
    requires
        rows.len() == 8,
        0 <= r < 8,
        n == 1 || n == 2 || n == 4 || n == 8 || n == 16 || n == 32 || n == 64,
    ensures
        free_slot(rows[r], k, n) <==> free_block(rows, r * 64 + k, n) && 0 <= k < 64,
{
    if 0 <= k < 64 && k % n == 0 {
        assert(k + n <= 64) by (nonlinear_arith)
            requires
                0 <= k < 64,
                k % n == 0,
                n == 1 || n == 2 || n == 4 || n == 8 || n == 16 || n == 32 || n == 64,
        ;
        assert((r * 64 + k) % n == 0) by (nonlinear_arith)
            requires
                k % n == 0,
                n == 1 || n == 2 || n == 4 || n == 8 || n == 16 || n == 32 || n == 64,
        ;
        assert((r * 64 + k) / 64 == r);
        assert((r * 64 + k) % 64 == k);
        lemma_block_in_row(rows, r * 64 + k, n);
    }
    if free_block(rows, r * 64 + k, n) && 0 <= k < 64 {
        assert(k % n == 0) by (nonlinear_arith)
            requires
                (r * 64 + k) % n == 0,
                n == 1 || n == 2 || n == 4 || n == 8 || n == 16 || n == 32 || n == 64,
        ;
    }
}

/// Number of clear bits among the first `k` bits.
pub open spec fn free_count(rows: Seq<u64>, k: int) -> nat
    decreases k,
{
    if k <= 0 {
        0
    } else {
        free_count(rows, k - 1) + if is_set(rows, k - 1) {
            0nat
        } else {
            1nat
        }
    }
}

/// Size of the part of the block `s..s + n` below `k`.
pub open spec fn overlap(s: int, n: int, k: int) -> int {
    if k <= s {
        0
    } else if k >= s + n {
        n
    } else {
        k - s
    }
}

/// Counting clear bits after a block of `!v` bits became `v`.
pub proof fn lemma_count_block(old: Seq<u64>, new: Seq<u64>, s: int, n: int, v: bool, k: int)
    requires
        with_block(old, new, s, n, v),
        all_bits(old, s, n, !v),
        0 <= s,
        0 <= n,
        s + n <= 512,
        0 <= k <= 512,
    ensures
        v ==> free_count(new, k) == free_count(old, k) - overlap(s, n, k),
        !v ==> free_count(new, k) == free_count(old, k) + overlap(s, n, k),
    decreases k,
{
    if k > 0 {
        lemma_count_block(old, new, s, n, v, k - 1);
        assert(is_set(new, k - 1) == (if s <= k - 1 < s + n {
            v
        } else {
            is_set(old, k - 1)
        }));
        if s <= k - 1 < s + n {
            assert(is_set(old, k - 1) == !v);
        }
    }
}

/// There are at most `k` clear bits among `k` bits.
pub proof fn lemma_count_le(rows: Seq<u64>, k: int)
    requires
        0 <= k,
    ensures
        free_count(rows, k) <= k,
    decreases k,
{
    if k > 0 {
        lemma_count_le(rows, k - 1);
    }
}

/// A clear block contributes its clear bits to the count.
pub proof fn lemma_count_ge_block(rows: Seq<u64>, s: int, n: int, k: int)
    requires
        all_bits(rows, s, n, false),
        0 <= s,
        0 <= n,
        0 <= k,
    ensures
        free_count(rows, k) >= overlap(s, n, k),
    decreases k,
{
    if k > 0 {
        lemma_count_ge_block(rows, s, n, k - 1);
        if s <= k - 1 < s + n {
            assert(!is_set(rows, k - 1));
        }
    }
}

/// Bits past a set tail do not add to the count.
pub proof fn lemma_count_tail(rows: Seq<u64>, c: int, k: int)
    requires
        0 <= c <= k,
        all_bits(rows, c, k - c, true),
    ensures
        free_count(rows, k) == free_count(rows, c),
    decreases k,
{
    if k > c {
        assert(all_bits(rows, c, k - 1 - c, true));
        lemma_count_tail(rows, c, k - 1);
        assert(is_set(rows, k - 1));
    }
}

/// A set block leaves at most the other bits clear.
pub proof fn lemma_count_le_block(rows: Seq<u64>, s: int, n: int, k: int)
    requires
        all_bits(rows, s, n, true),
        0 <= s,
        0 <= n,
        0 <= k,
    ensures
        free_count(rows, k) <= k - overlap(s, n, k),
    decreases k,
{
    if k > 0 {
        lemma_count_le_block(rows, s, n, k - 1);
        if s <= k - 1 < s + n {
            assert(is_set(rows, k - 1));
        }
    }
}

/// All `k` bits are clear exactly when `k` bits are counted.
pub proof fn lemma_count_all(rows: Seq<u64>, k: int)
    requires
        0 <= k,
    ensures
        free_count(rows, k) == k <==> all_bits(rows, 0, k, false),
    decreases k,
{
    if k > 0 {
        lemma_count_all(rows, k - 1);
        lemma_count_le(rows, k - 1);
        if free_count(rows, k) == k {
            assert(!is_set(rows, k - 1));
            assert forall|i: int| 0 <= i < k implies #[trigger] is_set(rows, i) == false by {
                if i < k - 1 {
                    assert(all_bits(rows, 0, k - 1, false));
                }
            }
        }
        if all_bits(rows, 0, k, false) {
            assert(all_bits(rows, 0, k - 1, false));
            assert(!is_set(rows, k - 1));
        }
    }
}

/// No bit is clear when all are set.
pub proof fn lemma_count_none(rows: Seq<u64>, k: int)
    requires
        0 <= k,
        all_bits(rows, 0, k, true),
    ensures
        free_count(rows, k) == 0,
    decreases k,
{
    if k > 0 {
        assert(all_bits(rows, 0, k - 1, true));
        lemma_count_none(rows, k - 1);
        assert(is_set(rows, k - 1));
    }
}

/// Bitfield replacing the level one table: bit `i` is set if frame `i` of
/// the huge frame is allocated.
#[derive(Debug)]
pub struct Bitfield {
    data: [u64; 8],
}

impl View for Bitfield {
    type V = Seq<u64>;

    closed spec fn view(&self) -> Seq<u64> {
        self.data@
    }
}

impl Default for Bitfield {
    fn default() -> (r: Self)
        ensures
            r@ == Seq::new(8, |i: int| 0u64),
    {
        Bitfield::new()
    }
}

impl Bitfield {
    /// Number of bits of a row.
    pub const ROW_BITS: usize = 64;
    /// Number of bits.
    pub const LEN: usize = 512;
    /// Order of the number of bits.
    pub const ORDER: usize = 9;

    /// An empty bitfield: all frames free.
    pub fn new() -> (r: Self)
        ensures
            r@ == Seq::new(8, |i: int| 0u64),
    {
        let r = Bitfield { data: [0u64; 8] };
        assert(r@ =~= Seq::new(8, |i: int| 0u64));
        r
    }

    /// The bitfield has its eight rows.
    pub proof fn lemma_len(&self)
        ensures
            self@.len() == 8,
    {
    }

    /// Return the `i`-th row (modulo the number of rows).
    pub fn get_row(&self, i: RowId) -> (r: u64)
        ensures
            r == self@[(i.0 % ROWS) as int],
    {
        self.data[i.huge_idx()]
    }

    /// Fill this bitset with `v` ignoring any previous data.
    pub fn fill(&mut self, v: bool)
        ensures
            final(self)@ == Seq::new(8, |i: int| if v { 0xffff_ffff_ffff_ffffu64 } else { 0u64 }),
            forall|i: int| 0 <= i < 512 ==> #[trigger] is_set(final(self)@, i) == v,
    {
        let x: u64 = if v { u64::MAX } else { 0 };
        let mut k: usize = 0;
        while k < ROWS
            invariant
                k <= 8,
                self@.len() == 8,
                forall|j: int| 0 <= j < k ==> self@[j] == x,
            decreases 8 - k,
        {
            self.data[k] = x;
            k = k + 1;
        }
        assert(self@ =~= Seq::new(8, |i: int| if v { 0xffff_ffff_ffff_ffffu64 } else { 0u64 }));
        assert forall|i: int| 0 <= i < 512 implies #[trigger] is_set(self@, i) == v by {
            bv_row_facts(0, 0, 1, (i % 64) as u64);
        }
    }

    /// Overwrite the `range` of bits with `v`; ranges that are empty or
    /// reach beyond the bitfield are ignored.
    pub fn set(&mut self, range: core::ops::Range<FrameId>, v: bool)
        ensures
            final(self)@.len() == 8,
            forall|i: int|
                0 <= i < 512 ==> #[trigger] is_set(final(self)@, i) == (if range.start.0 <= i
                    < range.end.0 <= 512 {
                    v
                } else {
                    is_set(old(self)@, i)
                }),
    {
        let start = range.start.0;
        let end = range.end.0;
        if start >= end || end > Self::LEN {
            return;
        }
        let last = FrameId(end - 1);
        if range.start.as_huge() != last.as_huge() {
            return;
        }
        let first_row = range.start.as_row().0;
        let last_row = last.as_row().0;
        let mut ei = first_row;
        while ei <= last_row
            invariant
                start == range.start.0,
                end == range.end.0,
                start < end <= 512,
                first_row == start / 64,
                last_row == (end - 1) / 64,
                first_row <= ei <= last_row + 1,
                self@.len() == 8,
                forall|i: int|
                    0 <= i < 512 ==> #[trigger] is_set(self@, i) == (if start <= i < end && i / 64
                        < ei {
                        v
                    } else {
                        is_set(old(self)@, i)
                    }),
            decreases last_row + 1 - ei,
        {
            let bit_off = ei * Self::ROW_BITS;
            let bit_start = if ei == first_row {
                let b = range.start.row_bit_idx();
                b
            } else {
                0
            };
            assert(ei == first_row ==> bit_start == start % 64);
            let rest = end - bit_off;
            let bit_end = if rest < Self::ROW_BITS {
                rest
            } else {
                Self::ROW_BITS
            };
            assert(ei * 64 <= end - 1) by (nonlinear_arith)
                requires
                    ei <= (end - 1) / 64,
                    end >= 1,
            ;
            assert(ei == first_row ==> bit_start == start - ei * 64) by (nonlinear_arith)
                requires
                    first_row == start / 64,
                    ei == first_row ==> bit_start == start % 64,
            ;
            let bits = bit_end - bit_start;
            assert(1 <= bits && bit_start + bits <= 64);
            let row_mask = (u64::MAX >> ((Self::ROW_BITS - bits) as u64)) << (bit_start as u64);
            let ghost before = self@;
            proof {
                bv_row_facts(0, 0, bits as u64, 0);
                lemma_block_bits(before[ei as int], bit_start as u64, bits as u64);
                lemma_row_is_set(before, ei as int);
                assert(row_mask == block(bit_start as u64, bits as u64));
            }
            let old_row = self.data[ei];
            if v {
                self.data[ei] = old_row | row_mask;
            } else {
                self.data[ei] = old_row & !row_mask;
            }
            proof {
                lemma_row_is_set(self@, ei as int);
                assert forall|i: int| 0 <= i < 512 implies #[trigger] is_set(self@, i) == (if start
                    <= i < end && i / 64 < ei + 1 {
                    v
                } else {
                    is_set(old(self)@, i)
                }) by {
                    if i / 64 == ei {
                        let j = i % 64;
                        assert(i == ei * 64 + j);
                        assert((bit_start <= j < bit_start + bits) == (start <= i < end));
                        assert(bit(self@[ei as int], j) == is_set(self@, i));
                        assert(bit(before[ei as int], j) == is_set(before, i));
                        if v {
                            assert(self@[ei as int] == before[ei as int] | block(bit_start as u64, bits as u64));
                            assert(bit(self@[ei as int], j) == (bit(before[ei as int], j) || (bit_start <= j < bit_start + bits)));
                        } else {
                            assert(self@[ei as int] == before[ei as int] & !block(bit_start as u64, bits as u64));
                            assert(bit(self@[ei as int], j) == (bit(before[ei as int], j) && !(bit_start <= j < bit_start + bits)));
                        }
                        assert(is_set(before, i) == is_set(old(self)@, i));
                        assert(is_set(self@, i) == (if start <= i < end { v } else { is_set(old(self)@, i) }));
                    } else {
                        assert(self@[i / 64] == before[i / 64]);
                        assert(is_set(self@, i) == is_set(before, i));
                    }
                }
            }
            ei = ei + 1;
        }
    }

    /// Toggle `2^order` bits at `i` (modulo the bitfield size) if they all
    /// are `expected`.
    ///
    /// Orders above 6 claim rows one at a time and roll back on contention.
    #[verifier::loop_isolation(false)]
    pub fn toggle(&mut self, i: FrameId, order: usize, expected: bool) -> (r: Result<(), Error>)
        ensures
            final(self)@.len() == 8,
            toggle_result(old(self)@, final(self)@, i.0 as int, order as int, expected, r),
    {
        if order > Self::ORDER || !i.is_aligned(order) {
            return Err(Error::InvalidArgument);
        }
        let i0 = i;
        let i = FrameId(i0.0 % Self::LEN);
        proof {
            lemma_shl_pow2(order);
            lemma2_to64();
            let n = pow2(order as nat) as int;
            assert((i.0 as int) % n == 0) by (nonlinear_arith)
                requires
                    (i0.0 as int) % n == 0,
                    i.0 == i0.0 % 512,
                    n == 1 || n == 2 || n == 4 || n == 8 || n == 16 || n == 32 || n == 64 || n
                        == 128 || n == 256 || n == 512,
            ;
        }
        let num_bits: usize = 1usize << order;
        let ghost s = i.0 as int;
        let ghost n = num_bits as int;
        if order <= 6 {
            let bit_idx = i.row_bit_idx();
            let ri = i.as_row().huge_idx();
            let mask = (u64::MAX >> ((Self::ROW_BITS - num_bits) as u64)) << (bit_idx as u64);
            proof {
                assert(ri == s / 64);
                assert(bit_idx + n <= 64);
                bv_row_facts(0, 0, num_bits as u64, 0);
                assert(mask == block(bit_idx as u64, num_bits as u64));
                bv_row_facts(self@[ri as int], bit_idx as u64, num_bits as u64, 0);
                lemma_zeros_mask(self@[ri as int], bit_idx as u64, num_bits as u64);
                lemma_zeros_mask(!self@[ri as int], bit_idx as u64, num_bits as u64);
                lemma_block_in_row(self@, s, n);
                lemma_block_bits(self@[ri as int], bit_idx as u64, num_bits as u64);
            }
            let e = self.data[ri];
            let ghost before = self@;
            if expected {
                if e & mask == mask {
                    self.data[ri] = e & !mask;
                } else {
                    return Err(Error::Address);
                }
            } else {
                if e & mask == 0 {
                    self.data[ri] = e | mask;
                } else {
                    return Err(Error::Address);
                }
            }
            proof {
                lemma_row_is_set(before, ri as int);
                lemma_row_is_set(self@, ri as int);
                assert forall|j: int| 0 <= j < 512 implies #[trigger] is_set(self@, j) == (if s
                    <= j < s + n {
                    !expected
                } else {
                    is_set(before, j)
                }) by {
                    if j / 64 == ri {
                        let b = j % 64;
                        assert(j == ri * 64 + b);
                        assert(bit(self@[ri as int], b) == is_set(self@, j));
                        assert(bit(before[ri as int], b) == is_set(before, j));
                        assert((bit_idx <= b < bit_idx + n) == (s <= j < s + n));
                    } else {
                        assert(self@[j / 64] == before[j / 64]);
                    }
                }
            }
            Ok(())
        } else {
            let num_rows = num_bits / Self::ROW_BITS;
            let di = i.as_row().huge_idx();
            let exp: u64 = if expected { u64::MAX } else { 0 };
            proof {
                assert(n == 128 || n == 256 || n == 512);
                assert(di == s / 64);
                assert(di * 64 == s);
                assert(di + num_rows <= 8);
                assert(num_rows * 64 == n);
                lemma_block_rows(self@, di as int, num_rows as int, expected);
                bv_row_facts(0, 0, 1, 0);
            }
            let mut k = di;
            while k < di + num_rows
                invariant
                    di <= k <= di + num_rows <= 8,
                    self@.len() == 8,
                    exp == full_row(expected),
                    !exp == full_row(!expected),
                    forall|r: int| di <= r < k ==> #[trigger] old(self)@[r] == exp,
                    forall|r: int| 0 <= r < 8 ==> #[trigger] self@[r] == (if di <= r < k {
                        !exp
                    } else {
                        old(self)@[r]
                    }),
                decreases di + num_rows - k,
            {
                if self.data[k] != exp {
                    let mut j = k;
                    while j > di
                        invariant
                            di <= j <= k < di + num_rows <= 8,
                            self@.len() == 8,
                            exp == full_row(expected),
                            !exp == full_row(!expected),
                            forall|r: int| di <= r < k ==> #[trigger] old(self)@[r] == exp,
                            forall|r: int| 0 <= r < 8 ==> #[trigger] self@[r] == (if di <= r < j {
                                !exp
                            } else {
                                old(self)@[r]
                            }),
                        decreases j,
                    {
                        j = j - 1;
                        if self.data[j] != !exp {
                            return Err(Error::UndoFailed);
                        }
                        self.data[j] = exp;
                    }
                    proof {
                        assert(self@ =~= old(self)@);
                        assert(!all_bits(old(self)@, s, n, expected)) by {
                            lemma_block_rows(old(self)@, di as int, num_rows as int, expected);
                            assert(old(self)@[k as int] != full_row(expected));
                        }
                    }
                    return Err(Error::Address);
                }
                self.data[k] = !exp;
                k = k + 1;
            }
            proof {
                lemma_block_rows(old(self)@, di as int, num_rows as int, expected);
                assert forall|j: int| 0 <= j < 512 implies #[trigger] is_set(self@, j) == (if s
                    <= j < s + n {
                    !expected
                } else {
                    is_set(old(self)@, j)
                }) by {
                    let r = j / 64;
                    bv_row_facts(0, 0, 1, (j % 64) as u64);
                    if di <= r < di + num_rows {
                        assert(self@[r] == full_row(!expected));
                    } else {
                        assert(self@[r] == old(self)@[r]);
                    }
                }
            }
            Ok(())
        }
    }

    /// Whether the `2^order` bits at `i` (modulo the bitfield size) are all
    /// zero; false for unsupported orders and unaligned `i`.
    #[verifier::loop_isolation(false)]
    pub fn is_zero(&self, i: FrameId, order: usize) -> (r: bool)
        ensures
            r == (order <= 9 && aligned(i.0 as int, order as nat) && all_bits(
                self@,
                (i.0 % 512) as int,
                pow2(order as nat) as int,
                false,
            )),
    {
        if order > Self::ORDER || !i.is_aligned(order) {
            return false;
        }
        let i0 = i;
        let i = FrameId(i0.0 % Self::LEN);
        proof {
            lemma_shl_pow2(order);
            lemma2_to64();
            let n = pow2(order as nat) as int;
            assert((i.0 as int) % n == 0) by (nonlinear_arith)
                requires
                    (i0.0 as int) % n == 0,
                    i.0 == i0.0 % 512,
                    n == 1 || n == 2 || n == 4 || n == 8 || n == 16 || n == 32 || n == 64 || n
                        == 128 || n == 256 || n == 512,
            ;
        }
        let num_bits: usize = 1usize << order;
        let ghost s = i.0 as int;
        let ghost n = num_bits as int;
        let row_i = i.as_row();
        if num_bits > Self::ROW_BITS {
            let end_i = FrameId(i.0 + num_bits).as_row();
            proof {
                assert(row_i.0 * 64 == s);
                assert(end_i.0 == row_i.0 + num_bits / 64);
                assert(end_i.0 <= 8);
                lemma_block_rows(self@, row_i.0 as int, (num_bits / 64) as int, false);
            }
            let mut k = row_i.0;
            while k < end_i.0
                invariant
                    row_i.0 <= k <= end_i.0 <= 8,
                    self@.len() == 8,
                    forall|r: int| row_i.0 <= r < k ==> #[trigger] self@[r] == 0u64,
                decreases end_i.0 - k,
            {
                if self.get_row(RowId(k)) != 0 {
                    assert(self@[k as int] != full_row(false));
                    return false;
                }
                k = k + 1;
            }
            true
        } else {
            let row = self.get_row(row_i);
            let bit_idx = i.row_bit_idx();
            let mask = (u64::MAX >> ((64 - num_bits) as u64)) << (bit_idx as u64);
            proof {
                assert(bit_idx + n <= 64);
                bv_row_facts(0, 0, num_bits as u64, 0);
                bv_row_facts(row, bit_idx as u64, num_bits as u64, 0);
                lemma_zeros_mask(row, bit_idx as u64, num_bits as u64);
                lemma_block_in_row(self@, s, n);
            }
            (row & mask) == 0
        }
    }

    /// Set the first aligned `2^order` zero bits, returning the bit offset.
    ///
    /// Orders up to 6 search the rows starting at `start_row`; larger orders
    /// claim whole rows.
    #[verifier::loop_isolation(false)]
    pub fn set_first_zeros(&mut self, start_row: RowId, order: usize) -> (r: Result<FrameId, Error>)
        ensures
            final(self)@.len() == 8,
            order > 9 ==> r == Err::<FrameId, Error>(Error::OrderNotSuported) && final(self)@ == old(
                self,
            )@,
            order <= 9 ==> match r {
                Ok(f) => {
                    &&& free_block(old(self)@, f.0 as int, pow2(order as nat) as int)
                    &&& with_block(old(self)@, final(self)@, f.0 as int, pow2(order as nat) as int, true)
                    &&& first_choice(old(self)@, start_row.0 as int, pow2(order as nat) as int, f.0 as int)
                },
                Err(e) => {
                    &&& e == Error::Memory
                    &&& final(self)@ == old(self)@
                    &&& forall|s: int| !#[trigger] free_block(old(self)@, s, pow2(order as nat) as int)
                },
            },
    {
        if order > Self::ORDER {
            return Err(Error::OrderNotSuported);
        }
        proof {
            lemma2_to64();
        }
        let small_order = match SmallOrder::new(order) {
            Ok(v) => v,
            Err(order) => {
                return match self.set_first_zero_rows(order) {
                    Ok(row) => match row.as_frame() {
                        Some(f) => Ok(f),
                        None => Err(Error::InvalidArgument),
                    },
                    Err(e) => Err(e),
                };
            },
        };
        let ghost n = pow2(order as nat) as int;
        assert(small_order.size() == n);
        let start = start_row.huge_idx();
        let mut i: usize = 0;
        while i < ROWS
            invariant
                i <= 8,
                self@ == old(self)@,
                forall|i2: int| 0 <= i2 < i ==> !#[trigger] row_has_slot(old(self)@[rotated(start_row.0 as int, i2)], n),
            decreases 8 - i,
        {
            let ri = (i + start) % ROWS;
            assert(ri == rotated(start_row.0 as int, i as int));
            match first_zeros_aligned(self.data[ri], small_order) {
                Some((val, o)) => {
                    let ghost before = self@;
                    self.data[ri] = val;
                    proof {
                        assert(self@ == before.update(ri as int, before[ri as int] | block(o as u64, n as u64)));
                        lemma_row_update(before, self@, ri as int, o as u64, n as u64, true);
                        lemma_slot_block(before, ri as int, o as int, n);
                        assert((ri * 64 + o) / 64 == ri);
                        assert((ri * 64 + o) % 64 == o);
                    }
                    return Ok(FrameId(ri * Self::ROW_BITS + o));
                },
                None => {
                    assert(!row_has_slot(old(self)@[ri as int], n));
                },
            }
            i = i + 1;
        }
        proof {
            assert forall|s: int| !#[trigger] free_block(old(self)@, s, n) by {
                if free_block(old(self)@, s, n) {
                    let r = s / 64;
                    let k = s % 64;
                    assert(s == r * 64 + k);
                    lemma_slot_block(old(self)@, r, k, n);
                    let i2 = (r - start as int + 8) % 8;
                    assert(rotated(start_row.0 as int, i2) == r);
                    assert(free_slot(old(self)@[r], k, n));
                    assert(row_has_slot(old(self)@[rotated(start_row.0 as int, i2)], n));
                }
            }
        }
        Err(Error::Memory)
    }

    /// Allocate `2^order` (7 to 9) frames as whole rows, returning the first
    /// row of the first free block.
    #[verifier::loop_isolation(false)]
    fn set_first_zero_rows(&mut self, order: usize) -> (r: Result<RowId, Error>)
        ensures
            final(self)@.len() == 8,
            !(7 <= order <= 9) ==> r == Err::<RowId, Error>(Error::OrderNotSuported) && final(self)@
                == old(self)@,
            7 <= order <= 9 ==> match r {
                Ok(row) => {
                    &&& row.0 * 64 <= usize::MAX
                    &&& free_block(old(self)@, row.0 * 64, pow2(order as nat) as int)
                    &&& with_block(old(self)@, final(self)@, row.0 * 64, pow2(order as nat) as int, true)
                    &&& forall|s: int| 0 <= s < row.0 * 64 ==> !#[trigger] free_block(old(self)@, s, pow2(order as nat) as int)
                },
                Err(e) => {
                    &&& e == Error::Memory
                    &&& final(self)@ == old(self)@
                    &&& forall|s: int| !#[trigger] free_block(old(self)@, s, pow2(order as nat) as int)
                },
            },
    {
        let num_rows: usize = match order {
            7 => 2,
            8 => 4,
            9 => 8,
            _ => return Err(Error::OrderNotSuported),
        };
        proof {
            lemma2_to64();
        }
        let ghost n = pow2(order as nat) as int;
        assert(n == num_rows * 64);
        let mut c: usize = 0;
        while c * num_rows < ROWS
            invariant
                c * num_rows <= 8,
                self@ == old(self)@,
                forall|s: int| 0 <= s < c * num_rows * 64 ==> !#[trigger] free_block(old(self)@, s, n),
            decreases 8 - c * num_rows,
        {
            let row = RowId(c * num_rows);
            let frame = match row.as_frame() {
                Some(f) => f,
                None => return Err(Error::InvalidArgument),
            };
            assert(frame.0 == c * num_rows * 64);
            proof {
                assert(frame.0 == c * n) by (nonlinear_arith)
                    requires
                        frame.0 == c * num_rows * 64,
                        n == num_rows * 64,
                ;
                vstd::arithmetic::div_mod::lemma_mod_multiples_basic(c as int, n);
            }
            if self.is_zero(frame, order) && self.toggle(frame, order, false).is_ok() {
                return Ok(row);
            }
            proof {
                assert(c * num_rows + num_rows <= 8) by (nonlinear_arith)
                    requires
                        c * num_rows < 8,
                        num_rows == 2 || num_rows == 4 || num_rows == 8,
                ;
                assert forall|s: int| 0 <= s < (c + 1) * num_rows * 64 implies !#[trigger] free_block(old(self)@, s, n) by {
                    if s >= c * num_rows * 64 && free_block(old(self)@, s, n) {
                        assert(c * num_rows * 64 == c * n && (c + 1) * num_rows * 64 == c * n + n)
                            by (nonlinear_arith)
                            requires
                                n == num_rows * 64,
                        ;
                        vstd::arithmetic::div_mod::lemma_fundamental_div_mod(s, n);
                        assert(s / n == c) by (nonlinear_arith)
                            requires
                                c * n <= s < c * n + n,
                                n > 0,
                        ;
                        assert(s == c * n);
                    }
                }
            }
            c = c + 1;
        }
        proof {
            assert forall|s: int| !#[trigger] free_block(old(self)@, s, n) by {
                if free_block(old(self)@, s, n) {
                    assert(s < c * num_rows * 64);
                }
            }
        }
        Err(Error::Memory)
    }
}

/// Toggling a block and then toggling it back with the opposite
/// expectation succeeds and restores every bit of the bitfield.
pub proof fn law_toggle_roundtrip(
    a: Seq<u64>,
    b: Seq<u64>,
    c: Seq<u64>,
    i: int,
    order: int,
    expected: bool,
    r: Result<(), Error>,
)
    requires
        a.len() == 8,
        0 <= i,
        0 <= order,
        toggle_result(a, b, i, order, expected, Ok(())),
        toggle_result(b, c, i, order, !expected, r),
    ensures
        r == Ok::<(), Error>(()),
        forall|j: int| 0 <= j < 512 ==> #[trigger] is_set(c, j) == is_set(a, j),
{
    let s = i % 512;
    let n = pow2(order as nat) as int;
    lemma2_to64();
    assert(n == 1 || n == 2 || n == 4 || n == 8 || n == 16 || n == 32 || n == 64 || n == 128 || n
        == 256 || n == 512) by {
        assert(0 <= order <= 9);
        if order == 0 {
        } else if order == 1 {
        } else if order == 2 {
        } else if order == 3 {
        } else if order == 4 {
        } else if order == 5 {
        } else if order == 6 {
        } else if order == 7 {
        } else if order == 8 {
        } else {
        }
    }
    assert(s + n <= 512) by (nonlinear_arith)
        requires
            0 <= i,
            s == i % 512,
            i % n == 0,
            n == 1 || n == 2 || n == 4 || n == 8 || n == 16 || n == 32 || n == 64 || n == 128 || n
                == 256 || n == 512,
    ;
    assert(all_bits(b, s, n, !expected)) by {
        assert forall|j: int| s <= j < s + n implies #[trigger] is_set(b, j) == !expected by {
            assert(0 <= j < 512);
        }
    }
    assert forall|j: int| 0 <= j < 512 implies #[trigger] is_set(c, j) == is_set(a, j) by {
        if s <= j < s + n {
            assert(is_set(a, j) == expected);
        }
    }
}

/// A block that `set_first_zeros` took is given back by toggling it with
/// `expected` set, which restores every bit of the bitfield.
pub proof fn law_first_zeros_then_toggle(a: Seq<u64>, b: Seq<u64>, c: Seq<u64>, f: int, order: int, r: Result<(), Error>)
    requires
        a.len() == 8,
        0 <= order <= 9,
        free_block(a, f, pow2(order as nat) as int),
        with_block(a, b, f, pow2(order as nat) as int, true),
        toggle_result(b, c, f, order, true, r),
    ensures
        r == Ok::<(), Error>(()),
        forall|j: int| 0 <= j < 512 ==> #[trigger] is_set(c, j) == is_set(a, j),
{
    let n = pow2(order as nat) as int;
    lemma2_to64();
    assert(f % 512 == f) by {
        assert(0 <= f < 512);
    }
    assert(aligned(f, order as nat));
    assert(all_bits(b, f, n, true));
    assert forall|j: int| 0 <= j < 512 implies #[trigger] is_set(c, j) == is_set(a, j) by {
        if f <= j < f + n {
            assert(is_set(a, j) == false);
        }
    }
}

} // verus!
