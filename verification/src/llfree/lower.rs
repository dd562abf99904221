//! Lower allocator: a bitfield per huge frame and a table of huge-frame
//! counters per tree.
use vstd::arithmetic::power2::{lemma2_to64, pow2};
use vstd::prelude::*;

use super::bitfield::{
    all_bits, free_block, free_count, is_set, lemma_count_all, lemma_count_block,
    lemma_count_ge_block, lemma_count_le, lemma_count_le_block, lemma_count_none, lemma_count_tail, overlap, with_block, Bitfield,
};
use super::util::spin_wait;
use super::id::{aligned, lemma_shl_pow2, FrameId, HugeId, RowId, TreeId};
use super::{
    Error, Stats, BITFIELD_ROW, HUGE_FRAMES, HUGE_ORDER, MAX_FRAMES, MAX_ORDER, RETRIES,
    TREE_FRAMES, TREE_HUGE,
};

verus! {

/// Counter of a huge frame: the number of free base frames, or `u16::MAX`
/// if the huge frame is allocated as a whole.
#[derive(Debug, Clone, Copy, PartialEq, Eq, Structural)]
pub struct HugeEntry(pub u16);

impl HugeEntry {
    /// The entry marks an allocated huge frame.
    pub open spec fn is_huge(self) -> bool {
        self.0 == 0xffff
    }

    /// Free frames counted by the entry.
    pub open spec fn free_frames(self) -> nat {
        if self.is_huge() {
            0
        } else {
            self.0 as nat
        }
    }

    /// What `mark_huge` returns.
    pub open spec fn mark_huge_result(self) -> Option<HugeEntry> {
        if self.free_frames() == 512 {
            Some(HugeEntry(0xffff))
        } else {
            None
        }
    }

    /// What `dec` returns.
    pub open spec fn dec_result(self, num_frames: int) -> Option<HugeEntry> {
        if !self.is_huge() && self.free_frames() >= num_frames {
            Some(HugeEntry((self.0 - num_frames) as u16))
        } else {
            None
        }
    }

    /// What `inc` returns.
    pub open spec fn inc_result(self, num_frames: int) -> Option<HugeEntry> {
        if !self.is_huge() && num_frames <= 512 && self.free_frames() + num_frames <= 512 {
            Some(HugeEntry((self.0 + num_frames) as u16))
        } else {
            None
        }
    }

    /// An entry with no free frames.
    pub fn new() -> (r: Self)
        ensures
            r.0 == 0,
    {
        HugeEntry(0)
    }

    /// Creates an entry marked as allocated huge frame.
    pub fn new_huge() -> (r: Self)
        ensures
            r.0 == 0xffff,
    {
        HugeEntry(u16::MAX)
    }

    /// Creates a new entry with the given free counter (truncated to 16 bits).
    pub fn new_with(free: usize) -> (r: Self)
        ensures
            r.0 == free as u16,
    {
        HugeEntry(free as u16)
    }

    /// Returns wether this entry is allocated as huge frame.
    pub fn huge(self) -> (r: bool)
        ensures
            r == self.is_huge(),
    {
        self.0 == u16::MAX
    }

    /// Returns the free frames counter.
    pub fn free(self) -> (r: usize)
        ensures
            r == self.free_frames(),
    {
        if self.huge() {
            0
        } else {
            self.0 as usize
        }
    }

    /// Try to allocate this entry as huge frame.
    pub fn mark_huge(self) -> (r: Option<Self>)
        ensures
            r == self.mark_huge_result(),
    {
        if self.free() == Bitfield::LEN {
            Some(Self::new_huge())
        } else {
            None
        }
    }

    /// Decrement the free frames counter.
    pub fn dec(self, num_frames: usize) -> (r: Option<Self>)
        ensures
            r == self.dec_result(num_frames as int),
    {
        if !self.huge() && self.free() >= num_frames {
            Some(Self::new_with(self.free() - num_frames))
        } else {
            None
        }
    }

    /// Increments the free frames counter, up to the size of a huge frame.
    pub fn inc(self, num_frames: usize) -> (r: Option<Self>)
        ensures
            r == self.inc_result(num_frames as int),
    {
        if num_frames > Bitfield::LEN {
            return None;
        }
        if !self.huge() && self.free() <= Bitfield::LEN - num_frames {
            Some(Self::new_with(self.free() + num_frames))
        } else {
            None
        }
    }
}

/// Pair of huge entries that can be changed at once.
#[derive(Debug, Clone, Copy, PartialEq, Eq, Structural)]
pub struct HugePair(pub HugeEntry, pub HugeEntry);

/// What marking both entries of a pair as huge frames gives.
pub open spec fn pair_mark_huge(v: HugePair) -> Option<HugePair> {
    if v.0.free_frames() == 512 && v.1.free_frames() == 512 {
        Some(HugePair(HugeEntry(0xffff), HugeEntry(0xffff)))
    } else {
        None
    }
}

impl HugePair {
    /// Apply `f` to both entries.
    pub fn map<F: Fn(HugeEntry) -> Option<HugeEntry>>(self, f: F) -> (r: Option<HugePair>)
        requires
            f.requires((self.0,)),
            f.requires((self.1,)),
        ensures
            r matches Some(p) ==> f.ensures((self.0,), Some(p.0)) && f.ensures((self.1,), Some(p.1)),
            r is None ==> f.ensures((self.0,), None::<HugeEntry>) || exists|a: HugeEntry|
                f.ensures((self.0,), Some(a)) && f.ensures((self.1,), None::<HugeEntry>),
    {
        let a = match f(self.0) {
            Some(a) => a,
            None => return None,
        };
        let b = match f(self.1) {
            Some(b) => b,
            None => return None,
        };
        Some(HugePair(a, b))
    }

    /// Check if `f` is true for both entries.
    pub fn all<F: Fn(HugeEntry) -> bool>(self, f: F) -> (r: bool)
        requires
            f.requires((self.0,)),
            f.requires((self.1,)),
        ensures
            r ==> f.ensures((self.0,), true) && f.ensures((self.1,), true),
            !r ==> f.ensures((self.0,), false) || f.ensures((self.1,), false),
    {
        f(self.0) && f(self.1)
    }

    /// Both entries packed in an integer, the first in the low half.
    pub fn into_bits(self) -> (r: u32)
        ensures
            r == self.0.0 as u32 + 65536 * (self.1.0 as u32),
    {
        let lo = self.0.0 as u32;
        let hi = self.1.0 as u32;
        let r = lo | (hi << 16u32);
        assert(r == lo + 65536 * hi) by (bit_vector)
            requires
                lo < 65536,
                hi < 65536,
                r == lo | (hi << 16u32),
        ;
        r
    }

    /// Entries unpacked from an integer, the first from the low half.
    pub fn from_bits(value: u32) -> (r: Self)
        ensures
            r.0.0 == value % 65536,
            r.1.0 == value / 65536,
    {
        let lo = (value & 0xffff) as u16;
        let hi = (value >> 16u32) as u16;
        assert(value & 0xffff == value % 65536 && value >> 16u32 == value / 65536) by (bit_vector);
        HugePair(HugeEntry(lo), HugeEntry(hi))
    }
}

/// The table of a tree: the counters of its huge frames, stored in pairs.
#[derive(Debug, Clone, Copy)]
pub struct Table {
    pairs: [HugePair; 4],
}

/// A counter view into a table: one half of a pair.
#[derive(Debug, Clone, Copy, PartialEq, Eq, Structural)]
pub struct Child {
    /// Index of the pair in the table.
    pub pair: usize,
    /// Whether the counter is the second of the pair.
    pub second: bool,
}

impl Table {
    /// Entry `i` (`0..TREE_HUGE`) of the table.
    pub closed spec fn entry(self, i: int) -> HugeEntry {
        if i % 2 == 0 {
            self.pairs@[i / 2].0
        } else {
            self.pairs@[i / 2].1
        }
    }

    /// Pair `i` (`0..TREE_HUGE / 2`) of the table.
    pub closed spec fn pair(self, i: int) -> HugePair {
        self.pairs@[i]
    }

    /// A table with all counters zero.
    pub fn new() -> (r: Self)
        ensures
            forall|i: int| 0 <= i < 8 ==> #[trigger] r.entry(i) == HugeEntry(0),
    {
        Table { pairs: [HugePair(HugeEntry(0), HugeEntry(0)); 4] }
    }

    /// The view of counter `index`, if in range.
    pub fn get(&self, index: usize) -> (r: Option<Child>)
        ensures
            index < 8 ==> r == Some(Child { pair: index / 2, second: index % 2 == 1 }),
            index >= 8 ==> r is None,
    {
        if index / 2 < 4 {
            Some(Child { pair: index / 2, second: index % 2 == 1 })
        } else {
            None
        }
    }

    /// Views of all counters.
    pub fn iter(&self) -> (r: Vec<Child>)
        ensures
            r@.len() == 8,
            forall|i: int| 0 <= i < 8 ==> #[trigger] r@[i] == (Child { pair: (i / 2) as usize, second: i % 2 == 1 }),
    {
        let mut r: Vec<Child> = Vec::new();
        let mut p: usize = 0;
        while p < 4
            invariant
                p <= 4,
                r@.len() == 2 * p,
                forall|i: int| 0 <= i < 2 * p ==> #[trigger] r@[i] == (Child { pair: (i / 2) as usize, second: i % 2 == 1 }),
            decreases 4 - p,
        {
            r.push(Child { pair: p, second: false });
            r.push(Child { pair: p, second: true });
            p = p + 1;
        }
        r
    }

    /// Replace pair `i` by `f` of it if that is `Some`, returning the
    /// previous pair (`Err` if `f` refused).
    pub fn fetch_update_pair<F: Fn(HugePair) -> Option<HugePair>>(&mut self, i: usize, f: F) -> (r: Result<HugePair, HugePair>)
        requires
            i < 4,
            f.requires((old(self).pair(i as int),)),
        ensures
            ({
                let p = old(self).pair(i as int);
                match r {
                    Ok(v) => v == p && exists|n: HugePair| f.ensures((p,), Some(n)) && final(self).pair(i as int) == n
                        && forall|j: int| 0 <= j < 4 && j != i ==> #[trigger] final(self).pair(j) == old(self).pair(j),
                    Err(v) => v == p && f.ensures((p,), None::<HugePair>) && *final(self) == *old(self),
                }
            }),
    {
        let p = self.pairs[i];
        match f(p) {
            Some(n) => {
                self.pairs[i] = n;
                Ok(p)
            },
            None => Err(p),
        }
    }

    /// Replace pair `i` by `new` if it is `current`.
    pub fn compare_exchange_pair(&mut self, i: usize, current: HugePair, new: HugePair) -> (r: Result<HugePair, HugePair>)
        requires
            i < 4,
        ensures
            ({
                let p = old(self).pair(i as int);
                if p == current {
                    r == Ok::<HugePair, HugePair>(p) && final(self).pair(i as int) == new
                        && forall|j: int| 0 <= j < 4 && j != i ==> #[trigger] final(self).pair(j) == old(self).pair(j)
                } else {
                    r == Err::<HugePair, HugePair>(p) && *final(self) == *old(self)
                }
            }),
    {
        let p = self.pairs[i];
        if p == current {
            self.pairs[i] = new;
            Ok(p)
        } else {
            Err(p)
        }
    }

    /// Entries are the halves of the pairs.
    pub proof fn lemma_entry_pair(self, i: int)
        requires
            0 <= i < 8,
        ensures
            self.entry(i) == if i % 2 == 0 {
                self.pair(i / 2).0
            } else {
                self.pair(i / 2).1
            },
    {
    }

    /// Load pair `i`.
    pub fn load_pair(&self, i: usize) -> (r: HugePair)
        requires
            i < 4,
        ensures
            r == self.pair(i as int),
    {
        self.pairs[i]
    }
}

impl Child {
    /// Index of the counter in its table.
    pub open spec fn index(self) -> int {
        2 * self.pair + if self.second {
            1int
        } else {
            0
        }
    }

    /// The counter inside a pair.
    pub fn entry(&self, pair: HugePair) -> (r: HugeEntry)
        ensures
            r == (if self.second {
                pair.1
            } else {
                pair.0
            }),
    {
        if self.second {
            pair.1
        } else {
            pair.0
        }
    }

    /// Load the counter.
    pub fn load(&self, table: &Table) -> (r: HugeEntry)
        requires
            self.pair < 4,
        ensures
            r == table.entry(self.index()),
    {
        self.entry(table.pairs[self.pair])
    }

    /// Store the counter.
    pub fn store(&self, table: &mut Table, value: HugeEntry)
        requires
            self.pair < 4,
        ensures
            forall|i: int| 0 <= i < 8 ==> #[trigger] final(table).entry(i) == if i == self.index() {
                value
            } else {
                old(table).entry(i)
            },
    {
        let p = table.pairs[self.pair];
        table.pairs[self.pair] = if self.second {
            HugePair(p.0, value)
        } else {
            HugePair(value, p.1)
        };
    }

    /// Replace the counter by `f` of it if that is `Some`, returning the
    /// previous counter (`Err` if `f` refused).
    pub fn fetch_update<F: Fn(HugeEntry) -> Option<HugeEntry>>(&self, table: &mut Table, f: F) -> (r: Result<HugeEntry, HugeEntry>)
        requires
            self.pair < 4,
            f.requires((old(table).entry(self.index()),)),
        ensures
            ({
                let e = old(table).entry(self.index());
                match r {
                    Ok(v) => v == e && exists|n: HugeEntry| f.ensures((e,), Some(n)) && forall|i: int| 0 <= i < 8 ==> #[trigger] final(table).entry(i) == if i == self.index() {
                        n
                    } else {
                        old(table).entry(i)
                    },
                    Err(v) => v == e && f.ensures((e,), None::<HugeEntry>) && *final(table) == *old(table),
                }
            }),
    {
        let e = self.load(table);
        match f(e) {
            Some(n) => {
                self.store(table, n);
                Ok(e)
            },
            None => Err(e),
        }
    }

    /// Replace the counter by `new` if it is `current`.
    pub fn compare_exchange(&self, table: &mut Table, current: HugeEntry, new: HugeEntry) -> (r: Result<HugeEntry, HugeEntry>)
        requires
            self.pair < 4,
        ensures
            ({
                let e = old(table).entry(self.index());
                if e == current {
                    r == Ok::<HugeEntry, HugeEntry>(e) && forall|i: int| 0 <= i < 8 ==> #[trigger] final(table).entry(i) == if i == self.index() {
                        new
                    } else {
                        old(table).entry(i)
                    }
                } else {
                    r == Err::<HugeEntry, HugeEntry>(e) && *final(table) == *old(table)
                }
            }),
    {
        let e = self.load(table);
        if e == current {
            self.store(table, new);
            Ok(e)
        } else {
            Err(e)
        }
    }
}

/// Size in bytes of the metadata of one huge frame and of one tree:
/// each occupies a cache line.
pub const CACHE_LINE: usize = 64;

/// Size of the dynamic metadata
#[derive(Debug, Clone, Copy)]
pub struct Metadata {
    /// Number of bitfields (huge frames)
    pub bitfield_len: usize,
    /// Bytes of the bitfields
    pub bitfield_size: usize,
    /// Number of tables (trees)
    pub table_len: usize,
    /// Total bytes
    pub size: usize,
}

/// Number of `unit`-sized chunks needed to cover `n` items.
pub open spec fn chunks(n: int, unit: int) -> int {
    (n + unit - 1) / unit
}

/// Metadata layout for `frames` frames, if supported.
pub open spec fn metadata_for(frames: int) -> Option<Metadata> {
    if frames > MAX_FRAMES {
        None
    } else {
        let bl = chunks(frames, 512);
        let tl = chunks(frames, 4096);
        let size = bl * 64 + tl * 64;
        if size <= isize::MAX {
            Some(
                Metadata {
                    bitfield_len: bl as usize,
                    bitfield_size: (bl * 64) as usize,
                    table_len: tl as usize,
                    size: size as usize,
                },
            )
        } else {
            None
        }
    }
}

proof fn lemma_max_frames_bounds(frames: int)
    requires
        0 <= frames <= MAX_FRAMES,
    ensures
        chunks(frames, 512) * 64 + chunks(frames, 4096) * 64 <= usize::MAX,
        chunks(frames, 4096) * 8 >= chunks(frames, 512),
        chunks(frames, 4096) * 4096 * 8 <= usize::MAX,
        frames + 4095 <= usize::MAX,
{
    assert(usize::MAX == 0xffff_ffff || usize::MAX == 0xffff_ffff_ffff_ffff);
    if usize::MAX == 0xffff_ffff {
        assert(MAX_FRAMES == 33554432);
    } else {
        assert(MAX_FRAMES == 144117387132665856);
    }
    assert(MAX_FRAMES <= usize::MAX / 16);
    assert(chunks(frames, 512) <= frames / 512 + 1);
    assert(chunks(frames, 4096) <= frames / 4096 + 1);
    assert(chunks(frames, 4096) * 8 >= chunks(frames, 512));
}

impl Metadata {
    /// Layout for `frames` frames; `None` above `MAX_FRAMES`.
    pub fn new(frames: usize) -> (r: Option<Self>)
        ensures
            r == metadata_for(frames as int),
    {
        if frames > MAX_FRAMES {
            return None;
        }
        proof {
            lemma_max_frames_bounds(frames as int);
        }
        let bitfield_len = (frames + (Bitfield::LEN - 1)) / Bitfield::LEN;
        let table_len = (frames + (TREE_FRAMES - 1)) / TREE_FRAMES;
        let bitfield_size = match bitfield_len.checked_mul(CACHE_LINE) {
            Some(size) => size,
            None => return None,
        };
        let table_size = match table_len.checked_mul(CACHE_LINE) {
            Some(size) => size,
            None => return None,
        };
        let size = match bitfield_size.checked_add(table_size) {
            Some(size) => size,
            None => return None,
        };
        if size > isize::MAX as usize {
            return None;
        }
        Some(Metadata { bitfield_len, bitfield_size, table_len, size })
    }

    /// Total bytes of the metadata.
    pub fn size(&self) -> (r: usize)
        ensures
            r == self.size,
    {
        self.size
    }
}

/// Lower-level frame allocator.
///
/// This level implements the actual allocation/free operations, each limited
/// to a chunk of `2^MAX_ORDER` frames. Every huge frame has a bitfield with
/// one bit per base frame, and every tree a table with a counter per huge
/// frame.
#[derive(Debug)]
pub struct Lower {
    len: usize,
    bitfields: Vec<Bitfield>,
    children: Vec<Table>,
}

impl Lower {
    /// Number of managed frames.
    pub closed spec fn frames_view(&self) -> nat {
        self.len as nat
    }

    /// Number of trees.
    pub closed spec fn trees(&self) -> nat {
        self.children@.len()
    }

    /// Number of huge frames with a bitfield.
    pub closed spec fn huges(&self) -> nat {
        self.bitfields@.len()
    }

    /// Counter of huge frame `h`.
    pub closed spec fn entry(&self, h: int) -> HugeEntry {
        self.children@[h / 8].entry(h % 8)
    }

    /// Bitfield rows of huge frame `h`.
    pub closed spec fn rows(&self, h: int) -> Seq<u64> {
        self.bitfields@[h]@
    }

    /// Consistency of the metadata.
    pub closed spec fn wf(&self) -> bool {
        &&& 1 <= self.len <= MAX_FRAMES
        &&& self.bitfields@.len() == chunks(self.len as int, 512)
        &&& self.children@.len() == chunks(self.len as int, 4096)
        &&& forall|h: int| 0 <= h < 8 * self.children@.len() ==> #[trigger] self.entry_ok(h)
    }

    /// Consistency of huge frame `h`: padding counters are zero, huge
    /// entries cover a full huge frame with a clear bitfield, and otherwise
    /// the counter is the number of clear bits while bits past the end are set.
    pub closed spec fn entry_ok(&self, h: int) -> bool {
        let e = self.entry(h);
        if h >= self.bitfields@.len() {
            e.0 == 0
        } else {
            &&& self.rows(h).len() == 8
            &&& e.is_huge() ==> h * 512 + 512 <= self.len && all_bits(self.rows(h), 0, 512, false)
            &&& !e.is_huge() ==> e.0 == free_count(self.rows(h), 512)
            &&& forall|i: int| 0 <= i < 512 && h * 512 + i >= self.len ==> #[trigger] is_set(self.rows(h), i)
        }
    }

    /// Frame `f` is managed and free.
    pub open spec fn is_free_frame(&self, f: int) -> bool {
        &&& 0 <= f < self.frames_view()
        &&& !self.entry(f / 512).is_huge()
        &&& !is_set(self.rows(f / 512), f % 512)
    }

    /// All frames of `f..f + n` are free.
    pub open spec fn free_range(&self, f: int, n: int) -> bool {
        forall|i: int| f <= i < f + n ==> #[trigger] self.is_free_frame(i)
    }

    /// `new` equals `old` in its frames, with `f..f + n` set to `free`.
    pub open spec fn frames_changed(old: &Lower, new: &Lower, f: int, n: int, free: bool) -> bool {
        &&& new.frames_view() == old.frames_view()
        &&& new.trees() == old.trees()
        &&& forall|i: int| 0 <= i < old.frames_view() ==> #[trigger] new.is_free_frame(i) == (if f <= i < f + n {
            free
        } else {
            old.is_free_frame(i)
        })
    }

    /// Well-formed metadata has counters of at most a huge frame.
    proof fn lemma_entry_bound(&self, h: int)
        requires
            self.wf(),
            0 <= h < 8 * self.children@.len(),
        ensures
            self.entry(h).free_frames() <= 512,
            h >= self.bitfields@.len() ==> self.entry(h).free_frames() == 0,
    {
        assert(self.entry_ok(h));
        if h < self.bitfields@.len() && !self.entry(h).is_huge() {
            lemma_count_le(self.rows(h), 512);
        }
    }

    /// The frames of a huge frame are free exactly as the bits are clear.
    proof fn lemma_range_bits(&self, h: int, s: int, n: int)
        requires
            self.wf(),
            0 <= h < self.bitfields@.len(),
            0 <= s,
            0 < n,
            s + n <= 512,
            h * 512 + s + n <= self.len,
        ensures
            self.free_range(h * 512 + s, n) <==> !self.entry(h).is_huge() && all_bits(self.rows(h), s, n, false),
    {
        assert(self.entry_ok(h));
        if self.free_range(h * 512 + s, n) {
            assert(self.is_free_frame(h * 512 + s));
            assert((h * 512 + s) / 512 == h);
            assert forall|i: int| s <= i < s + n implies #[trigger] is_set(self.rows(h), i) == false by {
                assert(self.is_free_frame(h * 512 + i));
                assert((h * 512 + i) / 512 == h);
                assert((h * 512 + i) % 512 == i);
            }
        }
        if !self.entry(h).is_huge() && all_bits(self.rows(h), s, n, false) {
            assert forall|i: int| h * 512 + s <= i < h * 512 + s + n implies #[trigger] self.is_free_frame(i) by {
                assert(i / 512 == h);
                assert(i % 512 == i - h * 512);
            }
        }
    }

    /// A free range inside a huge frame is counted by its counter.
    proof fn lemma_free_counted(&self, h: int, s: int, n: int)
        requires
            self.wf(),
            0 <= h < self.bitfields@.len(),
            0 <= s,
            0 < n,
            s + n <= 512,
            h * 512 + s + n <= self.len,
            self.free_range(h * 512 + s, n),
        ensures
            !self.entry(h).is_huge(),
            self.entry(h).free_frames() >= n,
    {
        self.lemma_range_bits(h, s, n);
        assert(self.entry_ok(h));
        lemma_count_ge_block(self.rows(h), s, n, 512);
    }

    /// A huge frame inside the managed frames is entirely free exactly when
    /// its counter is full.
    proof fn lemma_huge_free(&self, h: int)
        requires
            self.wf(),
            0 <= h < self.bitfields@.len(),
            h * 512 + 512 <= self.len,
        ensures
            self.free_range(h * 512, 512) <==> self.entry(h).free_frames() == 512,
    {
        self.lemma_range_bits(h, 0, 512);
        assert(self.entry_ok(h));
        if !self.entry(h).is_huge() {
            lemma_count_all(self.rows(h), 512);
        }
    }

    /// Number of managed frames.
    pub fn frames(&self) -> (r: usize)
        ensures
            r == self.frames_view(),
    {
        self.len
    }

    /// Number of frames of an allocation of `order`.
    pub fn allocation_size(order: usize) -> (r: Result<usize, Error>)
        ensures
            order > MAX_ORDER ==> r == Err::<usize, Error>(Error::OrderNotSuported),
            order <= MAX_ORDER ==> r == Ok::<usize, Error>(pow2(order as nat) as usize),
    {
        if order > MAX_ORDER {
            return Err(Error::OrderNotSuported);
        }
        proof {
            lemma_shl_pow2(order);
        }
        Ok(1usize << order)
    }

    /// Checks that `2^order` frames at `frame` are aligned and managed,
    /// returning their number.
    pub fn validate_range(&self, frame: FrameId, order: usize) -> (r: Result<usize, Error>)
        ensures
            order > MAX_ORDER ==> r == Err::<usize, Error>(Error::OrderNotSuported),
            order <= MAX_ORDER ==> r == if aligned(frame.0 as int, order as nat) && frame.0 + pow2(order as nat) <= self.frames_view() {
                Ok::<usize, Error>(pow2(order as nat) as usize)
            } else {
                Err::<usize, Error>(Error::Address)
            },
    {
        let size = match Self::allocation_size(order) {
            Ok(size) => size,
            Err(e) => return Err(e),
        };
        proof {
            lemma_shl_pow2(order);
        }
        if !frame.is_aligned(order) {
            return Err(Error::Address);
        }
        match frame.0.checked_add(size) {
            Some(end) => if end > self.frames() {
                Err(Error::Address)
            } else {
                Ok(size)
            },
            None => Err(Error::Address),
        }
    }

    /// The table of `tree`.
    fn children(&self, tree: TreeId) -> (r: Result<&Table, Error>)
        ensures
            tree.0 < self.trees() ==> r == Ok::<&Table, Error>(&self.children@[tree.0 as int]),
            tree.0 >= self.trees() ==> r == Err::<&Table, Error>(Error::InvalidArgument),
    {
        if tree.0 < self.children.len() {
            Ok(&self.children[tree.0])
        } else {
            Err(Error::InvalidArgument)
        }
    }

    /// The bitfield of `huge`.
    fn bitfield(&self, huge: HugeId) -> (r: Result<&Bitfield, Error>)
        ensures
            huge.0 < self.huges() ==> r == Ok::<&Bitfield, Error>(&self.bitfields@[huge.0 as int]),
            huge.0 >= self.huges() ==> r == Err::<&Bitfield, Error>(Error::InvalidArgument),
    {
        if huge.0 < self.bitfields.len() {
            Ok(&self.bitfields[huge.0])
        } else {
            Err(Error::InvalidArgument)
        }
    }

    /// Free ranges of consecutive huge frames.
    proof fn lemma_huges_free(&self, h0: int, k: int)
        requires
            self.wf(),
            0 <= h0,
            0 < k,
            h0 + k <= self.bitfields@.len(),
            (h0 + k) * 512 <= self.len,
        ensures
            self.free_range(h0 * 512, k * 512) <==> forall|j: int| 0 <= j < k ==> #[trigger] self.entry(h0 + j).free_frames() == 512,
    {
        assert forall|j: int| 0 <= j < k implies #[trigger] self.free_range((h0 + j) * 512, 512) == (self.entry(h0 + j).free_frames() == 512) by {
            self.lemma_huge_free(h0 + j);
        }
        if self.free_range(h0 * 512, k * 512) {
            assert forall|j: int| 0 <= j < k implies #[trigger] self.entry(h0 + j).free_frames() == 512 by {
                assert forall|i: int| (h0 + j) * 512 <= i < (h0 + j) * 512 + 512 implies #[trigger] self.is_free_frame(i) by {
                    assert(h0 * 512 <= i < h0 * 512 + k * 512);
                }
                assert(self.free_range((h0 + j) * 512, 512));
            }
        }
        if forall|j: int| 0 <= j < k ==> #[trigger] self.entry(h0 + j).free_frames() == 512 {
            assert forall|i: int| h0 * 512 <= i < h0 * 512 + k * 512 implies #[trigger] self.is_free_frame(i) by {
                let j = i / 512 - h0;
                assert(0 <= j < k);
                assert(self.entry(h0 + j).free_frames() == 512);
                assert(self.free_range((h0 + j) * 512, 512));
                assert((h0 + j) * 512 <= i < (h0 + j) * 512 + 512);
            }
        }
    }

    /// Returns if the `2^order` frames at `frame` are free.
    #[verifier::loop_isolation(false)]
    pub fn is_free(&self, frame: FrameId, order: usize) -> (r: bool)
        requires
            self.wf(),
        ensures
            r == ((order <= MAX_ORDER || order == 12) && aligned(frame.0 as int, order as nat)
                && frame.0 + pow2(order as nat) <= self.frames_view() && self.free_range(
                frame.0 as int,
                pow2(order as nat) as int,
            )),
    {
        if order >= usize::BITS as usize {
            return false;
        }
        proof {
            lemma_shl_pow2(order);
            lemma2_to64();
        }
        let size: usize = 1usize << order;
        if order > 12 || !frame.is_aligned(order) {
            return false;
        }
        match frame.0.checked_add(size) {
            Some(end) => if end > self.frames() {
                return false;
            },
            None => return false,
        }
        let ghost n = size as int;
        let ghost f = frame.0 as int;
        let i = frame.as_huge().child_idx();
        let tree = frame.as_tree();
        let ghost h = f / 512;
        proof {
            assert(h == tree.0 * 8 + i);
            assert(f + n <= self.len);
            assert(self.bitfields@.len() == chunks(self.len as int, 512));
            assert(h < self.bitfields@.len());
            assert(tree.0 < self.children@.len());
        }
        let children = match self.children(tree) {
            Ok(c) => c,
            Err(_) => return false,
        };
        if size == TREE_FRAMES {
            proof {
                assert(i == 0);
                assert(f == tree.0 * 8 * 512);
                assert(tree.0 * 8 + 8 <= self.bitfields@.len());
                self.lemma_huges_free(tree.0 * 8, 8);
            }
            let all = children.iter();
            let mut k: usize = 0;
            while k < 8
                invariant
                    k <= 8,
                    all@.len() == 8,
                    forall|j: int| 0 <= j < 8 ==> #[trigger] all@[j] == (Child { pair: (j / 2) as usize, second: j % 2 == 1 }),
                    forall|j: int| 0 <= j < k ==> #[trigger] children.entry(j).free_frames() == 512,
                decreases 8 - k,
            {
                let c = all[k];
                assert(c.index() == k);
                if c.load(children).free() != Bitfield::LEN {
                    proof {
                        assert(self.entry(tree.0 * 8 + k) == children.entry(k as int));
                    }
                    return false;
                }
                k = k + 1;
            }
            proof {
                assert forall|j: int| 0 <= j < 8 implies #[trigger] self.entry(tree.0 * 8 + j).free_frames() == 512 by {
                    assert(self.entry(tree.0 * 8 + j) == children.entry(j));
                }
                assert(self.free_range(f, n));
            }
            true
        } else if order == MAX_ORDER {
            proof {
                assert(h % 2 == 0 && f == h * 512) by (nonlinear_arith)
                    requires
                        f % 1024 == 0,
                        h == f / 512,
                ;
                assert(i % 2 == 0);
                self.lemma_huges_free(h, 2);
                assert(self.entry(h) == children.entry(i as int));
                assert(self.entry(h + 1) == children.entry(i + 1));
            }
            let pair = children.load_pair(i / 2);
            let ghost p = pair;
            assert(children.entry(i as int) == p.0 && children.entry(i + 1) == p.1);
            let r = pair.all(|e: HugeEntry| -> (b: bool)
                ensures
                    b == (e.free_frames() == 512),
                { e.free() == Bitfield::LEN });
            assert(r == (p.0.free_frames() == 512 && p.1.free_frames() == 512));
            assert(self.entry(h + 0) == self.entry(h));
            assert(r == (forall|j: int| 0 <= j < 2 ==> #[trigger] self.entry(h + j).free_frames() == 512));
            assert(r == self.free_range(f, n));
            r
        } else if order == HUGE_ORDER {
            proof {
                assert(f == h * 512) by (nonlinear_arith)
                    requires
                        f % 512 == 0,
                        h == f / 512,
                ;
                self.lemma_huge_free(h);
                assert(self.entry(h) == children.entry(i as int));
            }
            match children.get(i) {
                Some(child) => child.load(children).free() == Bitfield::LEN,
                None => false,
            }
        } else if order <= Bitfield::ORDER {
            let child = match children.get(i) {
                Some(c) => c.load(children),
                None => return false,
            };
            proof {
                assert(self.entry(h) == children.entry(i as int));
                assert(f == h * 512 + f % 512);
                assert((f % 512) + n <= 512) by (nonlinear_arith)
                    requires
                        f % n == 0,
                        n == 1 || n == 2 || n == 4 || n == 8 || n == 16 || n == 32 || n == 64 || n == 128 || n == 256,
                ;
                self.lemma_range_bits(h, f % 512, n);
                assert(self.entry_ok(h));
            }
            if child.free() < size {
                proof {
                    if self.free_range(f, n) {
                        self.lemma_free_counted(h, f % 512, n);
                    }
                }
                false
            } else if child.free() == Bitfield::LEN {
                proof {
                    lemma_count_all(self.rows(h), 512);
                }
                true
            } else {
                match self.bitfield(frame.as_huge()) {
                    Ok(bf) => bf.is_zero(frame, order),
                    Err(_) => false,
                }
            }
        } else {
            false
        }
    }

    /// Sum of the counters of the huge frames `lo..k`.
    pub closed spec fn sum_free(&self, lo: int, k: int) -> nat
        decreases k - lo,
    {
        if k <= lo {
            0
        } else {
            self.sum_free(lo, k - 1) + self.entry(k - 1).free_frames()
        }
    }

    /// Number of entirely free huge frames among `lo..k`.
    pub closed spec fn count_huge(&self, lo: int, k: int) -> nat
        decreases k - lo,
    {
        if k <= lo {
            0
        } else {
            self.count_huge(lo, k - 1) + if self.entry(k - 1).free_frames() == 512 {
                1nat
            } else {
                0nat
            }
        }
    }

    /// Sum of the counters of huge frames `lo..k`, each divided by the huge frame size.
    pub closed spec fn sum_huge_parts(&self, lo: int, k: int) -> nat
        decreases k - lo,
    {
        if k <= lo {
            0
        } else {
            self.sum_huge_parts(lo, k - 1) + self.entry(k - 1).free_frames() / 512
        }
    }

    /// Number of entirely free trees among the first `k`.
    pub closed spec fn count_trees(&self, k: int) -> nat
        decreases k,
    {
        if k <= 0 {
            0
        } else {
            self.count_trees(k - 1) + if self.sum_free(8 * (k - 1), 8 * k) == 4096 {
                1nat
            } else {
                0nat
            }
        }
    }

    proof fn lemma_count_trees_le(&self, k: int)
        requires
            0 <= k,
        ensures
            self.count_trees(k) <= k,
        decreases k,
    {
        if k > 0 {
            self.lemma_count_trees_le(k - 1);
        }
    }

    proof fn lemma_sums_bounded(&self, lo: int, k: int)
        requires
            self.wf(),
            0 <= lo <= k <= 8 * self.children@.len(),
        ensures
            self.sum_free(lo, k) <= 512 * (k - lo),
            self.count_huge(lo, k) <= k - lo,
            self.sum_huge_parts(lo, k) <= k - lo,
        decreases k - lo,
    {
        if k > lo {
            self.lemma_sums_bounded(lo, k - 1);
            self.lemma_entry_bound(k - 1);
        }
    }

    /// Returns statistics: the sum of the counters, the number of entirely
    /// free huge frames and of entirely free trees.
    pub fn stats(&self) -> (r: Stats)
        requires
            self.wf(),
        ensures
            r.free_frames == self.sum_free(0, 8 * self.trees() as int),
            r.free_huge == self.count_huge(0, 8 * self.trees() as int),
            r.free_trees == self.count_trees(self.trees() as int),
    {
        let mut stats = Stats::zero();
        let nt = self.children.len();
        proof {
            lemma_max_frames_bounds(self.len as int);
        }
        let mut t: usize = 0;
        while t < nt
            invariant
                self.wf(),
                nt == self.children@.len(),
                t <= nt,
                stats.free_frames == self.sum_free(0, 8 * t),
                stats.free_huge == self.count_huge(0, 8 * t),
                stats.free_trees == self.count_trees(t as int),
                nt * 4096 * 8 <= usize::MAX,
            decreases nt - t,
        {
            let table = &self.children[t];
            let mut free: usize = 0;
            let mut k: usize = 0;
            proof {
                self.lemma_sums_bounded(0, 8 * t + 8);
            }
            while k < 8
                invariant
                    self.wf(),
                    nt == self.children@.len(),
                    t < nt,
                    k <= 8,
                    *table == self.children@[t as int],
                    stats.free_frames == self.sum_free(0, 8 * t + k),
                    stats.free_huge == self.count_huge(0, 8 * t + k),
                    stats.free_trees == self.count_trees(t as int),
                    free == self.sum_free(8 * t, 8 * t + k),
                    self.sum_free(0, 8 * t + 8) <= 512 * (8 * t + 8),
                    self.count_huge(0, 8 * t + 8) <= 8 * t + 8,
                    nt * 4096 * 8 <= usize::MAX,
                decreases 8 - k,
            {
                let child = Child { pair: k / 2, second: k % 2 == 1 };
                let f = child.load(table);
                proof {
                    assert(f == self.entry(8 * t + k));
                    self.lemma_sums_bounded(0, 8 * t + k + 1);
                    self.lemma_sums_bounded(8 * t, 8 * t + k + 1);
                    assert(8 * t + 8 <= 8 * nt);
                }
                let fv = f.free();
                stats.free_frames = stats.free_frames + fv;
                if fv == HUGE_FRAMES {
                    stats.free_huge = stats.free_huge + 1;
                }
                free = free + fv;
                k = k + 1;
            }
            proof {
                self.lemma_count_trees_le(t as int);
            }
            if free == TREE_FRAMES {
                stats.free_trees = stats.free_trees + 1;
            }
            t = t + 1;
        }
        stats
    }

    /// Returns statistics of a single frame (order 0), huge frame (order 9)
    /// or tree (order 12) containing `frame`; zero for other orders.
    pub fn stats_at(&self, frame: FrameId, order: usize) -> (r: Result<Stats, Error>)
        requires
            self.wf(),
        ensures
            frame.0 >= self.frames_view() ==> r == Err::<Stats, Error>(Error::Address),
            frame.0 < self.frames_view() ==> r is Ok && ({
                let s = r->Ok_0;
                let h = (frame.0 / 512) as int;
                let t = (frame.0 / 4096) as int;
                if order == 0 {
                    s.free_frames == (if self.is_free_frame(frame.0 as int) { 1int } else { 0 })
                        && s.free_huge == 0 && s.free_trees == 0
                } else if order == 9 {
                    s.free_frames == self.entry(h).free_frames() && s.free_huge == self.entry(h).free_frames() / 512
                        && s.free_trees == 0
                } else if order == 12 {
                    s.free_frames == self.sum_free(8 * t, 8 * t + 8) && s.free_huge == self.sum_huge_parts(8 * t, 8 * t + 8)
                        && s.free_trees == self.sum_free(8 * t, 8 * t + 8) / 4096
                } else {
                    s.free_frames == 0 && s.free_huge == 0 && s.free_trees == 0
                }
            }),
    {
        if frame.0 >= self.frames() {
            return Err(Error::Address);
        }
        let tree = frame.as_tree();
        let i = frame.as_huge();
        proof {
            assert(i.0 == tree.0 * 8 + i.0 % 8);
            assert(i.0 < self.bitfields@.len());
            assert(tree.0 < self.children@.len());
            assert(self.entry_ok(i.0 as int));
        }
        let children = match self.children(tree) {
            Ok(c) => c,
            Err(e) => return Err(e),
        };
        if order == 0 {
            let child = match children.get(i.child_idx()) {
                Some(c) => c,
                None => return Err(Error::InvalidArgument),
            };
            let e = child.load(children);
            assert(e == self.entry(i.0 as int));
            let free = if e.free() > 0 {
                let bf = match self.bitfield(i) {
                    Ok(b) => b,
                    Err(e) => return Err(e),
                };
                proof {
                    lemma2_to64();
                    assert(frame.0 % 512 == frame.0 - i.0 * 512);
                }
                bf.is_zero(frame, 0)
            } else {
                false
            };
            proof {
                lemma2_to64();
                let h = i.0 as int;
                let b = (frame.0 % 512) as int;
                if !e.is_huge() && !is_set(self.rows(h), b) {
                    assert(all_bits(self.rows(h), b, 1, false));
                    lemma_count_ge_block(self.rows(h), b, 1, 512);
                }
            }
            let mut s = Stats::zero();
            if free {
                s.free_frames = 1;
            }
            Ok(s)
        } else if order == HUGE_ORDER {
            let child = match children.get(i.child_idx()) {
                Some(c) => c,
                None => return Err(Error::InvalidArgument),
            };
            let free = child.load(children).free();
            Ok(Stats { free_frames: free, free_huge: free / HUGE_FRAMES, free_trees: 0 })
        } else if order == 12 {
            let mut s = Stats::zero();
            let mut k: usize = 0;
            proof {
                self.lemma_sums_bounded(8 * tree.0, 8 * tree.0 + 8);
            }
            while k < 8
                invariant
                    self.wf(),
                    k <= 8,
                    tree.0 < self.children@.len(),
                    *children == self.children@[tree.0 as int],
                    s.free_frames == self.sum_free(8 * tree.0, 8 * tree.0 + k),
                    s.free_huge == self.sum_huge_parts(8 * tree.0, 8 * tree.0 + k),
                    s.free_trees == 0,
                decreases 8 - k,
            {
                let child = Child { pair: k / 2, second: k % 2 == 1 };
                let f = child.load(children).free();
                proof {
                    self.lemma_sums_bounded(8 * tree.0, 8 * tree.0 + k + 1);
                    self.lemma_entry_bound(8 * tree.0 + k);
                }
                s.free_frames = s.free_frames + f;
                s.free_huge = s.free_huge + f / HUGE_FRAMES;
                k = k + 1;
            }
            s.free_trees = s.free_frames / TREE_FRAMES;
            Ok(s)
        } else {
            Ok(Stats::zero())
        }
    }

    /// `new` differs from `old` at most in the huge frames `lo..hi`.
    closed spec fn same_except(old: &Lower, new: &Lower, lo: int, hi: int) -> bool {
        &&& new.len == old.len
        &&& new.bitfields@.len() == old.bitfields@.len()
        &&& new.children@.len() == old.children@.len()
        &&& forall|j: int| 0 <= j < 8 * old.children@.len() && !(lo <= j < hi) ==> #[trigger] new.entry(j) == old.entry(j)
        &&& forall|j: int| 0 <= j < old.bitfields@.len() && !(lo <= j < hi) ==> #[trigger] new.rows(j) == old.rows(j)
    }

    /// Changing some huge frames consistently keeps the metadata consistent
    /// and the frames of other huge frames unchanged.
    proof fn lemma_update_wf(old: &Lower, new: &Lower, lo: int, hi: int)
        requires
            old.wf(),
            Self::same_except(old, new, lo, hi),
            forall|j: int| 0 <= j < 8 * old.children@.len() && lo <= j < hi ==> #[trigger] new.entry_ok(j),
        ensures
            new.wf(),
            new.frames_view() == old.frames_view(),
            new.trees() == old.trees(),
            forall|i: int| 0 <= i < old.len && !(lo <= i / 512 < hi) ==> #[trigger] new.is_free_frame(i) == old.is_free_frame(i),
    {
        assert forall|j: int| 0 <= j < 8 * new.children@.len() implies #[trigger] new.entry_ok(j) by {
            if !(lo <= j < hi) {
                assert(old.entry_ok(j));
            }
        }
        assert forall|i: int| 0 <= i < old.len && !(lo <= i / 512 < hi) implies #[trigger] new.is_free_frame(i) == old.is_free_frame(i) by {
            let j = i / 512;
            assert(j < old.bitfields@.len());
            assert(j < 8 * old.children@.len());
        }
    }

    /// Nothing changed in the frames.
    pub open spec fn same_frames(old: &Lower, new: &Lower) -> bool {
        Self::frames_changed(old, new, 0, 0, false)
    }

    /// Allocating a clear block of a huge frame that was counted.
    proof fn lemma_small_alloc(old: &Lower, new: &Lower, h: int, s: int, n: int)
        requires
            old.wf(),
            Self::same_except(old, new, h, h + 1),
            0 <= h < old.bitfields@.len(),
            0 <= s,
            0 < n,
            s + n <= 512,
            !old.entry(h).is_huge(),
            old.entry(h).free_frames() >= n,
            new.entry(h) == HugeEntry((old.entry(h).0 - n) as u16),
            all_bits(old.rows(h), s, n, false),
            with_block(old.rows(h), new.rows(h), s, n, true),
        ensures
            new.wf(),
            h * 512 + s + n <= old.len,
            old.free_range(h * 512 + s, n),
            Self::frames_changed(old, new, h * 512 + s, n, false),
    {
        assert(old.entry_ok(h));
        let orows = old.rows(h);
        let nrows = new.rows(h);
        lemma_count_block(orows, nrows, s, n, true, 512);
        assert(h * 512 + s + n - 1 < old.len) by {
            if h * 512 + s + n - 1 >= old.len {
                assert(is_set(orows, s + n - 1));
            }
        }
        assert(new.entry_ok(h)) by {
            assert forall|i: int| 0 <= i < 512 && h * 512 + i >= new.len implies #[trigger] is_set(nrows, i) by {
                assert(is_set(orows, i));
            }
        }
        Self::lemma_update_wf(old, new, h, h + 1);
        old.lemma_range_bits(h, s, n);
        assert forall|i: int| 0 <= i < old.frames_view() implies #[trigger] new.is_free_frame(i) == (if h * 512 + s <= i < h * 512 + s + n {
            false
        } else {
            old.is_free_frame(i)
        }) by {
            if i / 512 == h {
                assert(i % 512 == i - h * 512);
                assert(is_set(nrows, i % 512) == (if s <= i % 512 < s + n { true } else { is_set(orows, i % 512) }));
            }
        }
    }

    /// Freeing a set block of a huge frame that was counted.
    proof fn lemma_small_free(old: &Lower, new: &Lower, h: int, s: int, n: int)
        requires
            old.wf(),
            Self::same_except(old, new, h, h + 1),
            0 <= h < old.bitfields@.len(),
            0 <= s,
            0 < n,
            s + n <= 512,
            h * 512 + s + n <= old.len,
            !old.entry(h).is_huge(),
            old.entry(h).free_frames() + n <= 512,
            new.entry(h) == HugeEntry((old.entry(h).0 + n) as u16),
            all_bits(old.rows(h), s, n, true),
            with_block(old.rows(h), new.rows(h), s, n, false),
        ensures
            new.wf(),
            Self::frames_changed(old, new, h * 512 + s, n, true),
    {
        assert(old.entry_ok(h));
        let orows = old.rows(h);
        let nrows = new.rows(h);
        lemma_count_block(orows, nrows, s, n, false, 512);
        assert(new.entry_ok(h)) by {
            assert forall|i: int| 0 <= i < 512 && h * 512 + i >= new.len implies #[trigger] is_set(nrows, i) by {
                assert(is_set(orows, i));
            }
        }
        Self::lemma_update_wf(old, new, h, h + 1);
        assert forall|i: int| 0 <= i < old.frames_view() implies #[trigger] new.is_free_frame(i) == (if h * 512 + s <= i < h * 512 + s + n {
            true
        } else {
            old.is_free_frame(i)
        }) by {
            if i / 512 == h {
                assert(i % 512 == i - h * 512);
                assert(is_set(nrows, i % 512) == (if s <= i % 512 < s + n { false } else { is_set(orows, i % 512) }));
            }
        }
    }

    /// Marking entirely free huge frames `lo..hi` as allocated huge frames.
    proof fn lemma_mark_huge(old: &Lower, new: &Lower, lo: int, hi: int)
        requires
            old.wf(),
            Self::same_except(old, new, lo, hi),
            0 <= lo < hi <= old.bitfields@.len(),
            hi * 512 <= old.len,
            forall|j: int| lo <= j < hi ==> #[trigger] old.entry(j).free_frames() == 512,
            forall|j: int| lo <= j < hi ==> #[trigger] new.entry(j) == HugeEntry(0xffff),
            forall|j: int| lo <= j < hi ==> #[trigger] new.rows(j) == old.rows(j),
        ensures
            new.wf(),
            Self::frames_changed(old, new, lo * 512, (hi - lo) * 512, false),
            forall|j: int| lo <= j < hi ==> #[trigger] new.entry(j).is_huge(),
    {
        assert forall|j: int| 0 <= j < 8 * old.children@.len() && lo <= j < hi implies #[trigger] new.entry_ok(j) by {
            assert(old.entry_ok(j));
            assert(old.entry(j).free_frames() == 512);
            assert(new.rows(j) == old.rows(j));
            assert(j * 512 + 512 <= hi * 512);
            lemma_count_all(old.rows(j), 512);
            assert(all_bits(new.rows(j), 0, 512, false));
        }
        Self::lemma_update_wf(old, new, lo, hi);
        assert forall|i: int| 0 <= i < old.frames_view() && lo * 512 <= i < lo * 512 + (hi - lo) * 512 implies !#[trigger] new.is_free_frame(i) by {
            let j = i / 512;
            assert(lo <= j < hi);
            assert(new.entry(j).is_huge());
        }
    }

    /// Returning allocated huge frames `lo..hi` as entirely free huge frames.
    proof fn lemma_unmark_huge(old: &Lower, new: &Lower, lo: int, hi: int)
        requires
            old.wf(),
            Self::same_except(old, new, lo, hi),
            0 <= lo < hi <= 8 * old.children@.len(),
            forall|j: int| lo <= j < hi ==> #[trigger] old.entry(j).is_huge(),
            forall|j: int| lo <= j < hi ==> #[trigger] new.entry(j) == HugeEntry(512),
            forall|j: int| lo <= j < hi ==> #[trigger] new.rows(j) == old.rows(j),
        ensures
            new.wf(),
            hi * 512 <= old.len,
            Self::frames_changed(old, new, lo * 512, (hi - lo) * 512, true),
    {
        assert(old.entry_ok(hi - 1));
        assert(old.entry(hi - 1).is_huge());
        assert(hi - 1 < old.bitfields@.len());
        assert(hi * 512 <= old.len);
        assert forall|j: int| 0 <= j < 8 * old.children@.len() && lo <= j < hi implies #[trigger] new.entry_ok(j) by {
            assert(old.entry_ok(j));
            assert(old.entry(j).is_huge());
            assert(j < old.bitfields@.len());
            assert(j * 512 + 512 <= old.len);
            lemma_count_all(old.rows(j), 512);
            assert(new.rows(j) == old.rows(j));
        }
        Self::lemma_update_wf(old, new, lo, hi);
        assert forall|i: int| 0 <= i < old.frames_view() && lo * 512 <= i < lo * 512 + (hi - lo) * 512 implies #[trigger] new.is_free_frame(i) by {
            let j = i / 512;
            assert(lo <= j < hi);
            assert(old.entry_ok(j));
            assert(old.entry(j).is_huge());
            assert(all_bits(old.rows(j), 0, 512, false));
            assert(new.rows(j) == old.rows(j));
            assert(!is_set(new.rows(j), i % 512));
        }
    }

    /// Update the counter of huge frame `h` with `f`.
    fn update_child<F: Fn(HugeEntry) -> Option<HugeEntry>>(&mut self, h: usize, f: F) -> (r: Result<HugeEntry, HugeEntry>)
        requires
            h < 8 * old(self).children@.len(),
            f.requires((old(self).entry(h as int),)),
        ensures
            final(self).len == old(self).len,
            final(self).bitfields == old(self).bitfields,
            final(self).children@.len() == old(self).children@.len(),
            forall|j: int| 0 <= j < 8 * old(self).children@.len() && j != h ==> #[trigger] final(self).entry(j) == old(self).entry(j),
            forall|j: int| 0 <= j < old(self).bitfields@.len() ==> #[trigger] final(self).rows(j) == old(self).rows(j),
            ({
                let e = old(self).entry(h as int);
                match r {
                    Ok(v) => v == e && exists|n: HugeEntry| f.ensures((e,), Some(n)) && final(self).entry(h as int) == n,
                    Err(v) => v == e && f.ensures((e,), None::<HugeEntry>) && final(self).entry(h as int) == e,
                }
            }),
    {
        let child = Child { pair: (h % 8) / 2, second: h % 2 == 1 };
        assert(child.index() == h % 8);
        let r = child.fetch_update(&mut self.children[h / 8], f);
        proof {
            assert forall|j: int| 0 <= j < 8 * old(self).children@.len() && j != h implies #[trigger] self.entry(j) == old(self).entry(j) by {
                if j / 8 != h / 8 {
                    assert(self.children@[j / 8] == old(self).children@[j / 8]);
                }
            }
        }
        r
    }

    /// Replace the counter of huge frame `h` by `new` if it is `current`.
    fn exchange_child(&mut self, h: usize, current: HugeEntry, new: HugeEntry) -> (r: Result<HugeEntry, HugeEntry>)
        requires
            h < 8 * old(self).children@.len(),
        ensures
            final(self).len == old(self).len,
            final(self).bitfields == old(self).bitfields,
            final(self).children@.len() == old(self).children@.len(),
            forall|j: int| 0 <= j < 8 * old(self).children@.len() && j != h ==> #[trigger] final(self).entry(j) == old(self).entry(j),
            forall|j: int| 0 <= j < old(self).bitfields@.len() ==> #[trigger] final(self).rows(j) == old(self).rows(j),
            ({
                let e = old(self).entry(h as int);
                if e == current {
                    r == Ok::<HugeEntry, HugeEntry>(e) && final(self).entry(h as int) == new
                } else {
                    r == Err::<HugeEntry, HugeEntry>(e) && final(self).entry(h as int) == e
                }
            }),
    {
        let child = Child { pair: (h % 8) / 2, second: h % 2 == 1 };
        assert(child.index() == h % 8);
        let r = child.compare_exchange(&mut self.children[h / 8], current, new);
        proof {
            assert forall|j: int| 0 <= j < 8 * old(self).children@.len() && j != h implies #[trigger] self.entry(j) == old(self).entry(j) by {
                if j / 8 != h / 8 {
                    assert(self.children@[j / 8] == old(self).children@[j / 8]);
                }
            }
        }
        r
    }

    /// Update the pair of counters `p` of tree `t` with `f`.
    fn update_pair<F: Fn(HugePair) -> Option<HugePair>>(&mut self, t: usize, p: usize, f: F) -> (r: Result<HugePair, HugePair>)
        requires
            t < old(self).children@.len(),
            p < 4,
            f.requires((HugePair(old(self).entry(8 * t + 2 * p), old(self).entry(8 * t + 2 * p + 1)),)),
        ensures
            final(self).len == old(self).len,
            final(self).bitfields == old(self).bitfields,
            final(self).children@.len() == old(self).children@.len(),
            forall|j: int| 0 <= j < 8 * old(self).children@.len() && !(8 * t + 2 * p <= j < 8 * t + 2 * p + 2) ==> #[trigger] final(self).entry(j) == old(self).entry(j),
            forall|j: int| 0 <= j < old(self).bitfields@.len() ==> #[trigger] final(self).rows(j) == old(self).rows(j),
            ({
                let e = HugePair(old(self).entry(8 * t + 2 * p), old(self).entry(8 * t + 2 * p + 1));
                match r {
                    Ok(v) => v == e && exists|n: HugePair| f.ensures((e,), Some(n)) && final(self).entry(8 * t + 2 * p) == n.0
                        && final(self).entry(8 * t + 2 * p + 1) == n.1,
                    Err(v) => v == e && f.ensures((e,), None::<HugePair>) && final(self).entry(8 * t + 2 * p) == e.0
                        && final(self).entry(8 * t + 2 * p + 1) == e.1,
                }
            }),
    {
        proof {
            self.children@[t as int].lemma_entry_pair(2 * p as int);
            self.children@[t as int].lemma_entry_pair(2 * p + 1);
            assert((8 * t + 2 * p) / 8 == t && (8 * t + 2 * p) % 8 == 2 * p);
            assert((8 * t + 2 * p + 1) / 8 == t && (8 * t + 2 * p + 1) % 8 == 2 * p + 1);
        }
        let r = self.children[t].fetch_update_pair(p, f);
        proof {
            self.children@[t as int].lemma_entry_pair(2 * p as int);
            self.children@[t as int].lemma_entry_pair(2 * p + 1);
            assert forall|j: int| 0 <= j < 8 * old(self).children@.len() && !(8 * t + 2 * p <= j < 8 * t + 2 * p + 2) implies #[trigger] self.entry(j) == old(self).entry(j) by {
                if j / 8 != t {
                    assert(self.children@[j / 8] == old(self).children@[j / 8]);
                } else {
                    self.children@[t as int].lemma_entry_pair(j % 8);
                    old(self).children@[t as int].lemma_entry_pair(j % 8);
                }
            }
        }
        r
    }

    /// Replace the pair of counters `p` of tree `t` by `new` if it is `current`.
    fn exchange_pair(&mut self, t: usize, p: usize, current: HugePair, new: HugePair) -> (r: Result<HugePair, HugePair>)
        requires
            t < old(self).children@.len(),
            p < 4,
        ensures
            final(self).len == old(self).len,
            final(self).bitfields == old(self).bitfields,
            final(self).children@.len() == old(self).children@.len(),
            forall|j: int| 0 <= j < 8 * old(self).children@.len() && !(8 * t + 2 * p <= j < 8 * t + 2 * p + 2) ==> #[trigger] final(self).entry(j) == old(self).entry(j),
            forall|j: int| 0 <= j < old(self).bitfields@.len() ==> #[trigger] final(self).rows(j) == old(self).rows(j),
            ({
                let e = HugePair(old(self).entry(8 * t + 2 * p), old(self).entry(8 * t + 2 * p + 1));
                if e == current {
                    r == Ok::<HugePair, HugePair>(e) && final(self).entry(8 * t + 2 * p) == new.0
                        && final(self).entry(8 * t + 2 * p + 1) == new.1
                } else {
                    r == Err::<HugePair, HugePair>(e) && final(self).entry(8 * t + 2 * p) == e.0
                        && final(self).entry(8 * t + 2 * p + 1) == e.1
                }
            }),
    {
        proof {
            self.children@[t as int].lemma_entry_pair(2 * p as int);
            self.children@[t as int].lemma_entry_pair(2 * p + 1);
            assert((8 * t + 2 * p) / 8 == t && (8 * t + 2 * p) % 8 == 2 * p);
            assert((8 * t + 2 * p + 1) / 8 == t && (8 * t + 2 * p + 1) % 8 == 2 * p + 1);
        }
        let r = self.children[t].compare_exchange_pair(p, current, new);
        proof {
            self.children@[t as int].lemma_entry_pair(2 * p as int);
            self.children@[t as int].lemma_entry_pair(2 * p + 1);
            assert forall|j: int| 0 <= j < 8 * old(self).children@.len() && !(8 * t + 2 * p <= j < 8 * t + 2 * p + 2) implies #[trigger] self.entry(j) == old(self).entry(j) by {
                if j / 8 != t {
                    assert(self.children@[j / 8] == old(self).children@[j / 8]);
                } else {
                    self.children@[t as int].lemma_entry_pair(j % 8);
                    old(self).children@[t as int].lemma_entry_pair(j % 8);
                }
            }
        }
        r
    }

    /// `2^order` frames at `f` are aligned and managed.
    pub open spec fn valid_block(&self, f: int, order: nat) -> bool {
        0 <= f && aligned(f, order) && f + pow2(order) <= self.frames_view()
    }

    /// Try allocating the `2^order` frames at `frame`.
    pub fn get_at(&mut self, frame: FrameId, order: usize) -> (r: Result<(), Error>)
        requires
            old(self).wf(),
        ensures
            final(self).wf(),
            order > MAX_ORDER ==> r == Err::<(), Error>(Error::OrderNotSuported) && Self::same_frames(old(self), final(self)),
            order <= MAX_ORDER && !old(self).valid_block(frame.0 as int, order as nat) ==> r == Err::<(), Error>(Error::Address)
                && Self::same_frames(old(self), final(self)),
            order <= MAX_ORDER && old(self).valid_block(frame.0 as int, order as nat) ==> if old(self).free_range(frame.0 as int, pow2(order as nat) as int) {
                r == Ok::<(), Error>(()) && Self::frames_changed(old(self), final(self), frame.0 as int, pow2(order as nat) as int, false)
                    && final(self).marks_huge(frame.0 as int, order as nat)
            } else {
                r == Err::<(), Error>(Error::Address) && Self::same_frames(old(self), final(self))
            },
    {
        proof {
            Self::lemma_update_wf(old(self), self, 0, 0);
        }
        let size = match self.validate_range(frame, order) {
            Ok(size) => size,
            Err(e) => return Err(e),
        };
        proof {
            lemma2_to64();
            lemma_max_frames_bounds(self.len as int);
        }
        let ghost f = frame.0 as int;
        let ghost n = size as int;
        let h = frame.as_huge().0;
        let i = h % TREE_HUGE;
        let t = frame.as_tree().0;
        proof {
            assert(h == t * 8 + i);
            assert(f + n <= self.len);
            assert(h < self.bitfields@.len());
            assert(t < self.children@.len());
        }
        if t >= self.children.len() {
            return Err(Error::InvalidArgument);
        }
        if order == MAX_ORDER {
            proof {
                assert(h % 2 == 0 && f == h * 512) by (nonlinear_arith)
                    requires
                        f % 1024 == 0,
                        h == f / 512,
                ;
                assert(h + 2 <= self.bitfields@.len());
                self.lemma_huges_free(h as int, 2);
                assert(self.entry(h + 0) == self.entry(h as int));
            }
            let ghost old_self = *self;
            let res = self.update_pair(t, i / 2, |v: HugePair| -> (r: Option<HugePair>)
                ensures
                    r == pair_mark_huge(v),
                {
                    v.map(|e: HugeEntry| -> (r: Option<HugeEntry>)
                        ensures
                            r == e.mark_huge_result(),
                        { e.mark_huge() })
                });
            if res.is_ok() {
                proof {
                    assert(old_self.entry(h as int).free_frames() == 512 && old_self.entry(h + 1).free_frames() == 512);
                    Self::lemma_mark_huge(&old_self, self, h as int, h + 2);
                    assert(f / 512 == h && pow2(10) / 512 == 2);
                    assert(self.marks_huge(f, 10));
                }
                return Ok(());
            }
            proof {
                Self::lemma_update_wf(&old_self, self, 0, 0);
            }
        } else if order == HUGE_ORDER {
            proof {
                assert(f == h * 512) by (nonlinear_arith)
                    requires
                        f % 512 == 0,
                        h == f / 512,
                ;
                self.lemma_huge_free(h as int);
            }
            let ghost old_self = *self;
            let res = self.update_child(h, |v: HugeEntry| -> (r: Option<HugeEntry>)
                ensures
                    r == v.mark_huge_result(),
                { v.mark_huge() });
            if res.is_ok() {
                proof {
                    Self::lemma_mark_huge(&old_self, self, h as int, h + 1);
                    assert(f / 512 == h && pow2(9) / 512 == 1);
                    assert(self.marks_huge(f, 9));
                }
                return Ok(());
            }
            proof {
                Self::lemma_update_wf(&old_self, self, 0, 0);
            }
        } else if order <= Bitfield::ORDER {
            let ghost s = f % 512;
            proof {
                assert(f == h * 512 + s);
                assert(s + n <= 512) by (nonlinear_arith)
                    requires
                        f % n == 0,
                        s == f % 512,
                        n == 1 || n == 2 || n == 4 || n == 8 || n == 16 || n == 32 || n == 64 || n == 128 || n == 256,
                ;
                self.lemma_range_bits(h as int, s, n);
                assert(self.entry_ok(h as int));
                if self.free_range(f, n) {
                    self.lemma_free_counted(h as int, s, n);
                }
            }
            let ghost s0 = *self;
            let res = self.update_child(h, |v: HugeEntry| -> (r: Option<HugeEntry>)
                ensures
                    r == v.dec_result(size as int),
                { v.dec(size) });
            if res.is_ok() {
                let ghost s1 = *self;
                let tr = self.bitfields[h].toggle(frame, order, false);
                proof {
                    assert(frame.0 % 512 == s);
                }
                if tr.is_ok() {
                    proof {
                        assert(self.len == s0.len);
                        assert(self.children == s1.children);
                        assert(self.bitfields@.len() == s0.bitfields@.len());
                        assert(forall|j: int| 0 <= j < s0.bitfields@.len() && j != h ==> #[trigger] self.rows(j) == s1.rows(j));
                        assert forall|j: int| 0 <= j < 8 * s0.children@.len() && j != h implies #[trigger] self.entry(j) == s0.entry(j) by {
                            assert(s1.entry(j) == s0.entry(j));
                        }
                        assert(Self::same_except(&s0, self, h as int, h + 1));
                        Self::lemma_small_alloc(&s0, self, h as int, s, n);
                    }
                    return Ok(());
                }
                let ghost s2 = *self;
                let undo = self.update_child(h, |v: HugeEntry| -> (r: Option<HugeEntry>)
                    ensures
                        r == v.inc_result(size as int),
                    { v.inc(size) });
                proof {
                    assert(s0.entry_ok(h as int));
                    lemma_count_le(s0.rows(h as int), 512);
                    assert(undo.is_ok());
                    assert(self.entry(h as int) == s0.entry(h as int));
                    assert forall|j: int| 0 <= j < 8 * s0.children@.len() && j != h implies #[trigger] self.entry(j) == s0.entry(j) by {
                        assert(s2.entry(j) == s1.entry(j));
                        assert(s1.entry(j) == s0.entry(j));
                    }
                    assert forall|j: int| 0 <= j < s0.bitfields@.len() implies #[trigger] self.rows(j) == s0.rows(j) by {
                        assert(s1.rows(j) == s0.rows(j));
                    }
                    assert(Self::same_except(&s0, self, 0, 0));
                    Self::lemma_update_wf(&s0, self, 0, 0);
                }
                if undo.is_err() {
                    return Err(Error::UndoFailed);
                }
            } else {
                proof {
                    Self::lemma_update_wf(&s0, self, 0, 0);
                }
            }
        } else {
            return Err(Error::OrderNotSuported);
        }
        Err(Error::Address)
    }

    /// Huge frame `h` is allocated as a whole.
    pub closed spec fn is_huge_frame(&self, h: int) -> bool {
        self.entry(h).is_huge()
    }

    /// A block of `2^order` frames at `f` of a huge order is allocated as
    /// whole huge frames (which is what `put` frees at these orders).
    pub open spec fn marks_huge(&self, f: int, order: nat) -> bool {
        order >= HUGE_ORDER ==> forall|j: int| f / 512 <= j < f / 512 + pow2(order) / 512 ==> #[trigger] self.is_huge_frame(j)
    }

    /// No frame of `f..f + n` is free.
    pub open spec fn allocated_range(&self, f: int, n: int) -> bool {
        forall|i: int| f <= i < f + n ==> !#[trigger] self.is_free_frame(i)
    }

    /// The frames of a huge frame are allocated exactly when the counter is
    /// huge or the bits are set.
    proof fn lemma_range_set(&self, h: int, s: int, n: int)
        requires
            self.wf(),
            0 <= h < self.bitfields@.len(),
            0 <= s,
            0 < n,
            s + n <= 512,
            h * 512 + s + n <= self.len,
        ensures
            self.allocated_range(h * 512 + s, n) <==> self.entry(h).is_huge() || all_bits(self.rows(h), s, n, true),
    {
        if self.allocated_range(h * 512 + s, n) && !self.entry(h).is_huge() {
            assert forall|i: int| s <= i < s + n implies #[trigger] is_set(self.rows(h), i) == true by {
                assert(!self.is_free_frame(h * 512 + i));
                assert((h * 512 + i) / 512 == h);
                assert((h * 512 + i) % 512 == i);
            }
        }
        if self.entry(h).is_huge() || all_bits(self.rows(h), s, n, true) {
            assert forall|i: int| h * 512 + s <= i < h * 512 + s + n implies !#[trigger] self.is_free_frame(i) by {
                assert(i / 512 == h);
                assert(i % 512 == i - h * 512);
            }
        }
    }

    /// Free the base frames of a counted huge frame.
    fn put_small(&mut self, frame: FrameId, order: usize) -> (r: Result<(), Error>)
        requires
            old(self).wf(),
            order < HUGE_ORDER,
            old(self).valid_block(frame.0 as int, order as nat),
            !old(self).entry((frame.0 / 512) as int).is_huge(),
            old(self).entry((frame.0 / 512) as int).free_frames() + pow2(order as nat) <= 512,
        ensures
            final(self).wf(),
            if all_bits(old(self).rows((frame.0 / 512) as int), (frame.0 % 512) as int, pow2(order as nat) as int, true) {
                r == Ok::<(), Error>(()) && Self::frames_changed(old(self), final(self), frame.0 as int, pow2(order as nat) as int, true)
            } else {
                r == Err::<(), Error>(Error::Address) && Self::same_frames(old(self), final(self))
            },
    {
        proof {
            Self::lemma_update_wf(old(self), self, 0, 0);
            lemma2_to64();
        }
        if order >= HUGE_ORDER {
            return Err(Error::OrderNotSuported);
        }
        let h = frame.as_huge().0;
        let ghost f = frame.0 as int;
        let ghost s = f % 512;
        let ghost n = pow2(order as nat) as int;
        proof {
            assert(f == h * 512 + s);
            assert(s + n <= 512) by (nonlinear_arith)
                requires
                    f % n == 0,
                    s == f % 512,
                    n == 1 || n == 2 || n == 4 || n == 8 || n == 16 || n == 32 || n == 64 || n == 128 || n == 256,
            ;
            assert(h < self.bitfields@.len());
            assert(h < 8 * self.children@.len());
        }
        if h >= self.bitfields.len() {
            return Err(Error::InvalidArgument);
        }
        let ghost s0 = *self;
        if self.bitfields[h].toggle(frame, order, true).is_err() {
            proof {
                Self::lemma_update_wf(&s0, self, 0, 0);
            }
            return Err(Error::Address);
        }
        let ghost s1 = *self;
        let size = match Self::allocation_size(order) {
            Ok(size) => size,
            Err(e) => return Err(e),
        };
        let res = self.update_child(h, |v: HugeEntry| -> (r: Option<HugeEntry>)
            ensures
                r == v.inc_result(size as int),
            { v.inc(size) });
        proof {
            assert(frame.0 % 512 == s);
            assert(res.is_ok());
            assert forall|j: int| 0 <= j < 8 * s0.children@.len() && j != h implies #[trigger] self.entry(j) == s0.entry(j) by {
                assert(self.entry(j) == s1.entry(j));
            }
            assert forall|j: int| 0 <= j < s0.bitfields@.len() && j != h implies #[trigger] self.rows(j) == s0.rows(j) by {
                assert(s1.rows(j) == s0.rows(j));
            }
            assert(Self::same_except(&s0, self, h as int, h + 1));
            Self::lemma_small_free(&s0, self, h as int, s, n);
        }
        match res {
            Ok(_) => Ok(()),
            Err(_) => Err(Error::FailedToIncrement),
        }
    }

    /// Free a part of an allocated huge frame: the huge frame becomes base
    /// frames that are all allocated, and the part is freed.
    fn partial_put_huge(&mut self, old_entry: HugeEntry, frame: FrameId, order: usize) -> (r: Result<(), Error>)
        requires
            old(self).wf(),
            order < HUGE_ORDER,
            old(self).valid_block(frame.0 as int, order as nat),
            old(self).entry((frame.0 / 512) as int) == old_entry,
            old_entry.is_huge(),
        ensures
            final(self).wf(),
            r == Ok::<(), Error>(()),
            Self::frames_changed(old(self), final(self), frame.0 as int, pow2(order as nat) as int, true),
    {
        proof {
            lemma2_to64();
        }
        let h = frame.as_huge().0;
        let t = frame.as_tree().0;
        let ghost f = frame.0 as int;
        let ghost s = f % 512;
        let ghost n = pow2(order as nat) as int;
        proof {
            assert(f == h * 512 + s);
            assert(s + n <= 512) by (nonlinear_arith)
                requires
                    f % n == 0,
                    s == f % 512,
                    n == 1 || n == 2 || n == 4 || n == 8 || n == 16 || n == 32 || n == 64 || n == 128 || n == 256,
            ;
            assert(self.entry_ok(h as int));
            assert(h < self.bitfields@.len());
            assert(h * 512 + 512 <= self.len);
        }
        if h >= self.bitfields.len() {
            return Err(Error::InvalidArgument);
        }
        let ghost s0 = *self;
        if self.bitfields[h].toggle(FrameId(0), Bitfield::ORDER, false).is_ok() {
            let ghost s1 = *self;
            let _ = self.exchange_child(h, old_entry, HugeEntry::new());
            proof {
                assert forall|j: int| 0 <= j < 8 * s0.children@.len() && j != h implies #[trigger] self.entry(j) == s0.entry(j) by {
                    assert(self.entry(j) == s1.entry(j));
                }
                assert forall|j: int| 0 <= j < s0.bitfields@.len() && j != h implies #[trigger] self.rows(j) == s0.rows(j) by {
                    assert(s1.rows(j) == s0.rows(j));
                }
                assert(Self::same_except(&s0, self, h as int, h + 1));
                let rows = self.rows(h as int);
                assert(all_bits(rows, 0, 512, true));
                lemma_count_none(rows, 512);
                assert(self.entry_ok(h as int));
                Self::lemma_update_wf(&s0, self, h as int, h + 1);
                assert forall|i: int| 0 <= i < s0.len implies #[trigger] self.is_free_frame(i) == s0.is_free_frame(i) by {
                    if i / 512 == h {
                        assert(s0.entry(h as int).is_huge());
                        assert(is_set(rows, i % 512));
                    }
                }
                assert(all_bits(self.rows(h as int), s, n, true));
            }
        } else {
            proof {
                assert(false);
            }
            if !spin_wait(RETRIES, || -> (b: bool) { true }) {
                return Err(Error::Retry);
            }
        }
        let ghost s2 = *self;
        let r = self.put_small(frame, order);
        proof {
            assert(r is Ok);
        }
        r
    }

    /// Free the `2^order` frames at `frame`, including a part of a huge
    /// frame allocation.
    ///
    /// Blocks of huge frames (orders 9 and 10) are freed if they are
    /// allocated as huge frames; smaller blocks if all their frames are
    /// allocated.
    pub fn put(&mut self, _core_id: usize, frame: FrameId, order: usize) -> (r: Result<(), Error>)
        requires
            old(self).wf(),
        ensures
            final(self).wf(),
            order > MAX_ORDER ==> r == Err::<(), Error>(Error::OrderNotSuported) && Self::same_frames(old(self), final(self)),
            order <= MAX_ORDER && !old(self).valid_block(frame.0 as int, order as nat) ==> r == Err::<(), Error>(Error::Address)
                && Self::same_frames(old(self), final(self)),
            order <= MAX_ORDER && old(self).valid_block(frame.0 as int, order as nat) ==> if (if order >= HUGE_ORDER {
                forall|j: int| (frame.0 / 512) as int <= j < (frame.0 / 512) as int + pow2(order as nat) / 512 ==> #[trigger] old(self).is_huge_frame(j)
            } else {
                old(self).allocated_range(frame.0 as int, pow2(order as nat) as int)
            }) {
                r == Ok::<(), Error>(()) && Self::frames_changed(old(self), final(self), frame.0 as int, pow2(order as nat) as int, true)
            } else {
                r == Err::<(), Error>(Error::Address) && Self::same_frames(old(self), final(self))
            },
    {
        proof {
            Self::lemma_update_wf(old(self), self, 0, 0);
        }
        let size = match self.validate_range(frame, order) {
            Ok(size) => size,
            Err(e) => return Err(e),
        };
        proof {
            lemma2_to64();
            lemma_max_frames_bounds(self.len as int);
        }
        let ghost f = frame.0 as int;
        let ghost n = size as int;
        let h = frame.as_huge().0;
        let i = frame.as_huge().child_idx();
        let t = frame.as_tree().0;
        proof {
            assert(h == t * 8 + i);
            assert(f + n <= self.len);
            assert(h < self.bitfields@.len());
            assert(t < self.children@.len());
        }
        if t >= self.children.len() {
            return Err(Error::InvalidArgument);
        }
        if order == MAX_ORDER {
            proof {
                assert(h % 2 == 0 && f == h * 512) by (nonlinear_arith)
                    requires
                        f % 1024 == 0,
                        h == f / 512,
                ;
                assert(h + 2 <= self.bitfields@.len());
                assert(self.entry(h + 0) == self.entry(h as int));
            }
            let ghost s0 = *self;
            let res = self.exchange_pair(t, i / 2, HugePair(HugeEntry::new_huge(), HugeEntry::new_huge()),
                HugePair(HugeEntry::new_with(Bitfield::LEN), HugeEntry::new_with(Bitfield::LEN)));
            proof {
                if s0.entry(h as int).is_huge() && s0.entry(h + 1).is_huge() {
                    assert forall|j: int| h <= j < h + 2 implies #[trigger] s0.is_huge_frame(j) by {
                        if j == h {
                        } else {
                            assert(j == h + 1);
                        }
                    }
                } else if !s0.entry(h as int).is_huge() {
                    assert(!s0.is_huge_frame(h as int));
                } else {
                    assert(!s0.is_huge_frame(h + 1));
                }
            }
            match res {
                Err(_) => {
                    proof {
                        Self::lemma_update_wf(&s0, self, 0, 0);
                    }
                    Err(Error::Address)
                },
                Ok(_) => {
                    proof {
                        Self::lemma_unmark_huge(&s0, self, h as int, h + 2);
                    }
                    Ok(())
                },
            }
        } else if order == HUGE_ORDER {
            proof {
                assert(f == h * 512) by (nonlinear_arith)
                    requires
                        f % 512 == 0,
                        h == f / 512,
                ;
                if self.entry(h as int).is_huge() {
                    assert forall|j: int| h <= j < h + 1 implies #[trigger] self.is_huge_frame(j) by {
                        assert(j == h);
                    }
                } else {
                    assert(!self.is_huge_frame(h as int));
                }
            }
            let ghost s0 = *self;
            let res = self.exchange_child(h, HugeEntry::new_huge(), HugeEntry::new_with(Bitfield::LEN));
            match res {
                Err(_) => {
                    proof {
                        Self::lemma_update_wf(&s0, self, 0, 0);
                    }
                    Err(Error::Address)
                },
                Ok(_) => {
                    proof {
                        Self::lemma_unmark_huge(&s0, self, h as int, h + 1);
                    }
                    Ok(())
                },
            }
        } else if order <= Bitfield::ORDER {
            let ghost s = f % 512;
            proof {
                assert(f == h * 512 + s);
                assert(s + n <= 512) by (nonlinear_arith)
                    requires
                        f % n == 0,
                        s == f % 512,
                        n == 1 || n == 2 || n == 4 || n == 8 || n == 16 || n == 32 || n == 64 || n == 128 || n == 256,
                ;
                self.lemma_range_set(h as int, s, n);
                assert(self.entry_ok(h as int));
            }
            let old_entry = Child { pair: i / 2, second: i % 2 == 1 }.load(&self.children[t]);
            assert(old_entry == self.entry(h as int));
            if old_entry.huge() {
                self.partial_put_huge(old_entry, frame, order)
            } else if old_entry.free() <= Bitfield::LEN - size {
                self.put_small(frame, order)
            } else {
                proof {
                    if all_bits(self.rows(h as int), s, n, true) {
                        lemma_count_le_block(self.rows(h as int), s, n, 512);
                    }
                }
                Err(Error::Address)
            }
        } else {
            Err(Error::OrderNotSuported)
        }
    }

    /// A full counter belongs to a huge frame inside the managed frames.
    proof fn lemma_full_in_range(&self, h: int)
        requires
            self.wf(),
            0 <= h < 8 * self.children@.len(),
            self.entry(h).free_frames() == 512,
        ensures
            h < self.bitfields@.len(),
            h * 512 + 512 <= self.len,
    {
        assert(self.entry_ok(h));
        assert(h < self.bitfields@.len());
        lemma_count_all(self.rows(h), 512);
        if h * 512 + 512 > self.len {
            let i = self.len - h * 512;
            assert(0 <= i < 512);
            assert(is_set(self.rows(h), i));
        }
    }

    /// No aligned block of `n` frames inside huge frame `h` is free.
    pub open spec fn no_block_in(&self, h: int, order: nat) -> bool {
        forall|g: int| #![trigger self.free_range(g, pow2(order) as int)]
            self.valid_block(g, order) && g / 512 == h ==> !self.free_range(g, pow2(order) as int)
    }

    /// What an allocation of `2^order` frames in tree `t` returns.
    pub open spec fn get_result(old: &Lower, new: &Lower, t: int, order: nat, r: Result<FrameId, Error>) -> bool {
        match r {
            Ok(f) => {
                &&& old.valid_block(f.0 as int, order)
                &&& f.0 / 4096 == t
                &&& old.free_range(f.0 as int, pow2(order) as int)
                &&& Self::frames_changed(old, new, f.0 as int, pow2(order) as int, false)
                &&& new.marks_huge(f.0 as int, order)
            },
            Err(e) => {
                &&& e == Error::Memory
                &&& Self::same_frames(old, new)
                &&& forall|g: int| #![trigger old.free_range(g, pow2(order) as int)]
                    old.valid_block(g, order) && g / 4096 == t ==> !old.free_range(g, pow2(order) as int)
            },
        }
    }

    #[verifier::loop_isolation(false)]
    #[verifier::spinoff_prover]
    #[verifier::rlimit(40)]
    fn get_max(&mut self, start: RowId, t: usize, tree_start: FrameId, child_off: usize, order: usize, size: usize) -> (r: Result<FrameId, Error>)
        requires
            old(self).wf(),
            t < old(self).trees(),
            t == start.0 / 64,
            tree_start.0 == t * 4096,
            child_off < 8,
            order == MAX_ORDER,
            size == pow2(order as nat),
        ensures
            final(self).wf(),
            Self::get_result(old(self), final(self), t as int, order as nat, r),
    {
        proof {
            lemma2_to64();
            lemma_max_frames_bounds(self.len as int);
        }
        let ghost n = size as int;
        let ghost s0 = *self;
        let mut k: usize = 0;
        while k < TREE_HUGE / 2
            invariant
                k <= 4,
                self.wf(),
                Self::same_except(&s0, self, 0, 0),
                forall|j: int| 0 <= j < k ==> #[trigger] s0.no_block_in(8 * t + 2 * ((child_off / 2 + j) % 4), 10),
            decreases 4 - k,
        {
            let ii = (child_off / 2 + k) % (TREE_HUGE / 2);
            let h = 8 * t + 2 * ii;
            proof {
                assert(self.entry(h as int) == s0.entry(h as int));
                assert(self.entry(h + 1) == s0.entry(h + 1));
            }
            let ghost sk = *self;
            let res = self.update_pair(t, ii, |v: HugePair| -> (r: Option<HugePair>)
                ensures
                    r == pair_mark_huge(v),
                {
                    v.map(|e: HugeEntry| -> (r: Option<HugeEntry>)
                        ensures
                            r == e.mark_huge_result(),
                        { e.mark_huge() })
                });
            if res.is_ok() {
                proof {
                    sk.lemma_full_in_range(h + 1);
                    sk.lemma_huges_free(h as int, 2);
                    assert(sk.entry(h + 0) == sk.entry(h as int));
                    Self::lemma_mark_huge(&sk, self, h as int, h + 2);
                    assert((h * 512) / 512 == h && pow2(10) / 512 == 2);
                    assert(self.marks_huge(h * 512, 10));
                    assert((h * 512) % 1024 == 0) by (nonlinear_arith)
                        requires
                            h % 2 == 0,
                    ;
                    assert(h * 512 / 4096 == t);
                    assert forall|i: int| 0 <= i < s0.len implies #[trigger] sk.is_free_frame(i) == s0.is_free_frame(i) by {
                        assert(i / 512 < s0.bitfields@.len());
                    }
                    let f = h * 512;
                    assert(pow2(10) == 1024);
                    assert(s0.valid_block(f, 10));
                    assert(sk.free_range(f, 1024));
                    assert(s0.free_range(f, 1024)) by {
                        assert forall|i: int| f <= i < f + 1024 implies #[trigger] s0.is_free_frame(i) by {
                            assert(sk.is_free_frame(i));
                        }
                    }
                    assert(Self::frames_changed(&sk, self, f, 1024, false));
                    assert(Self::frames_changed(&s0, self, f, 1024, false)) by {
                        assert forall|i: int| 0 <= i < s0.frames_view() implies #[trigger] self.is_free_frame(i) == (if f <= i < f + 1024 {
                            false
                        } else {
                            s0.is_free_frame(i)
                        }) by {
                            assert(sk.is_free_frame(i) == s0.is_free_frame(i));
                        }
                    }
                }
                return Ok(FrameId(tree_start.0 + 2 * ii * HUGE_FRAMES));
            }
            proof {
                Self::lemma_update_wf(&sk, self, 0, 0);
                assert forall|j: int| 0 <= j < 8 * s0.children@.len() implies #[trigger] self.entry(j) == s0.entry(j) by {
                    assert(sk.entry(j) == s0.entry(j));
                }
                assert forall|j: int| 0 <= j < s0.bitfields@.len() implies #[trigger] self.rows(j) == s0.rows(j) by {
                    assert(sk.rows(j) == s0.rows(j));
                }
                assert(s0.no_block_in(h as int, 10)) by {
                    assert forall|g: int| #![trigger s0.free_range(g, pow2(10) as int)]
                        s0.valid_block(g, 10) && g / 512 == h implies !s0.free_range(g, pow2(10) as int) by {
                        assert(g == h * 512);
                        s0.lemma_huges_free(h as int, 2);
                        assert(s0.entry(h + 0) == s0.entry(h as int));
                    }
                }
            }
            k = k + 1;
        }
        proof {
            assert forall|g: int| #![trigger s0.free_range(g, pow2(order as nat) as int)]
                s0.valid_block(g, order as nat) && g / 4096 == t implies !s0.free_range(g, pow2(order as nat) as int) by {
                let h = g / 512;
                let ii = (h % 8) / 2;
                assert(g % 1024 == 0);
                assert(h % 2 == 0) by (nonlinear_arith)
                    requires
                        g % 1024 == 0,
                        h == g / 512,
                ;
                let j = (ii - child_off / 2 + 4) % 4;
                assert((child_off / 2 + j) % 4 == ii);
                assert(h == 8 * t + 2 * ii);
                assert(s0.no_block_in(8 * t + 2 * ((child_off / 2 + j) % 4), 10));
            }
            Self::lemma_update_wf(&s0, self, 0, 0);
        }
        Err(Error::Memory)
    }

    #[verifier::loop_isolation(false)]
    fn get_huge(&mut self, start: RowId, t: usize, tree_start: FrameId, child_off: usize, order: usize, size: usize) -> (r: Result<FrameId, Error>)
        requires
            old(self).wf(),
            t < old(self).trees(),
            t == start.0 / 64,
            tree_start.0 == t * 4096,
            child_off < 8,
            order == HUGE_ORDER,
            size == pow2(order as nat),
        ensures
            final(self).wf(),
            Self::get_result(old(self), final(self), t as int, order as nat, r),
    {
        proof {
            lemma2_to64();
            lemma_max_frames_bounds(self.len as int);
        }
        let ghost n = size as int;
        let ghost s0 = *self;
        let mut k: usize = 0;
        while k < TREE_HUGE
            invariant
                k <= 8,
                self.wf(),
                Self::same_except(&s0, self, 0, 0),
                forall|j: int| 0 <= j < k ==> #[trigger] s0.no_block_in(8 * t + (child_off + j) % 8, 9),
            decreases 8 - k,
        {
            let ii = (child_off + k) % TREE_HUGE;
            let h = 8 * t + ii;
            proof {
                assert(self.entry(h as int) == s0.entry(h as int));
            }
            let ghost sk = *self;
            let res = self.update_child(h, |v: HugeEntry| -> (r: Option<HugeEntry>)
                ensures
                    r == v.mark_huge_result(),
                { v.mark_huge() });
            if res.is_ok() {
                proof {
                    sk.lemma_full_in_range(h as int);
                    sk.lemma_huge_free(h as int);
                    Self::lemma_mark_huge(&sk, self, h as int, h + 1);
                    assert((h * 512) / 512 == h && pow2(9) / 512 == 1);
                    assert(self.marks_huge(h * 512, 9));
                    assert((h * 512) % 512 == 0);
                    assert(h * 512 / 4096 == t);
                    assert forall|i: int| 0 <= i < s0.len implies #[trigger] sk.is_free_frame(i) == s0.is_free_frame(i) by {
                        assert(i / 512 < s0.bitfields@.len());
                    }
                    let f = h * 512;
                    assert(pow2(9) == 512);
                    assert(s0.valid_block(f, 9));
                    assert(sk.free_range(f, 512));
                    assert(s0.free_range(f, 512)) by {
                        assert forall|i: int| f <= i < f + 512 implies #[trigger] s0.is_free_frame(i) by {
                            assert(sk.is_free_frame(i));
                        }
                    }
                    assert(Self::frames_changed(&sk, self, f, 512, false));
                    assert(Self::frames_changed(&s0, self, f, 512, false)) by {
                        assert forall|i: int| 0 <= i < s0.frames_view() implies #[trigger] self.is_free_frame(i) == (if f <= i < f + 512 {
                            false
                        } else {
                            s0.is_free_frame(i)
                        }) by {
                            assert(sk.is_free_frame(i) == s0.is_free_frame(i));
                        }
                    }
                }
                return Ok(FrameId(tree_start.0 + ii * HUGE_FRAMES));
            }
            proof {
                Self::lemma_update_wf(&sk, self, 0, 0);
                assert forall|j: int| 0 <= j < 8 * s0.children@.len() implies #[trigger] self.entry(j) == s0.entry(j) by {
                    assert(sk.entry(j) == s0.entry(j));
                }
                assert forall|j: int| 0 <= j < s0.bitfields@.len() implies #[trigger] self.rows(j) == s0.rows(j) by {
                    assert(sk.rows(j) == s0.rows(j));
                }
                assert(s0.no_block_in(h as int, 9)) by {
                    assert forall|g: int| #![trigger s0.free_range(g, pow2(9) as int)]
                        s0.valid_block(g, 9) && g / 512 == h implies !s0.free_range(g, pow2(9) as int) by {
                        assert(g == h * 512);
                        s0.lemma_huge_free(h as int);
                    }
                }
            }
            k = k + 1;
        }
        proof {
            assert forall|g: int| #![trigger s0.free_range(g, pow2(order as nat) as int)]
                s0.valid_block(g, order as nat) && g / 4096 == t implies !s0.free_range(g, pow2(order as nat) as int) by {
                let h = g / 512;
                let ii = h % 8;
                let j = (ii - child_off + 8) % 8;
                assert((child_off + j) % 8 == ii);
                assert(h == 8 * t + ii);
                assert(s0.no_block_in(8 * t + (child_off + j) % 8, 9));
            }
            Self::lemma_update_wf(&s0, self, 0, 0);
        }
        Err(Error::Memory)
    }

    /// Try allocating `2^order` (below a huge frame) frames in huge frame `h`.
    fn get_in_child(&mut self, start: RowId, h: usize, order: usize, size: usize) -> (r: Result<FrameId, Error>)
        requires
            old(self).wf(),
            h < 8 * old(self).trees(),
            order < HUGE_ORDER,
            size == pow2(order as nat),
        ensures
            final(self).wf(),
            match r {
                Ok(f) => {
                    &&& old(self).valid_block(f.0 as int, order as nat)
                    &&& f.0 / 512 == h
                    &&& old(self).free_range(f.0 as int, size as int)
                    &&& Self::frames_changed(old(self), final(self), f.0 as int, size as int, false)
                },
                Err(e) => {
                    &&& e == Error::Memory
                    &&& Self::same_except(old(self), final(self), 0, 0)
                    &&& old(self).no_block_in(h as int, order as nat)
                },
            },
    {
        proof {
            lemma2_to64();
            lemma_max_frames_bounds(self.len as int);
            assert(self.entry_ok(h as int));
        }
        let ghost n = size as int;
        let ghost sk = *self;
        let res = self.update_child(h, |v: HugeEntry| -> (r: Option<HugeEntry>)
            ensures
                r == v.dec_result(size as int),
            { v.dec(size) });
        if res.is_ok() {
            let ghost s1 = *self;
            proof {
                assert(h < sk.bitfields@.len());
            }
            if h >= self.bitfields.len() {
                return Err(Error::InvalidArgument);
            }
            let found = self.bitfields[h].set_first_zeros(start, order);
            match found {
                Ok(offset) => {
                    let ghost o = offset.0 as int;
                    proof {
                        assert forall|j: int| 0 <= j < 8 * sk.children@.len() && j != h implies #[trigger] self.entry(j) == sk.entry(j) by {
                            assert(self.entry(j) == s1.entry(j));
                        }
                        assert forall|j: int| 0 <= j < sk.bitfields@.len() && j != h implies #[trigger] self.rows(j) == sk.rows(j) by {
                            assert(s1.rows(j) == sk.rows(j));
                        }
                        assert(Self::same_except(&sk, self, h as int, h + 1));
                        Self::lemma_small_alloc(&sk, self, h as int, o, n);
                        assert((h * 512 + o) % n == 0) by (nonlinear_arith)
                            requires
                                o % n == 0,
                                n == 1 || n == 2 || n == 4 || n == 8 || n == 16 || n == 32 || n == 64 || n == 128 || n == 256,
                        ;
                        assert((h * 512 + o) / 512 == h);
                    }
                    let base = match HugeId(h).as_frame() {
                        Some(b) => b,
                        None => return Err(Error::InvalidArgument),
                    };
                    return Ok(FrameId(base.0 + offset.0));
                },
                Err(_) => {},
            }
            let ghost s2 = *self;
            let undo = self.update_child(h, |v: HugeEntry| -> (r: Option<HugeEntry>)
                ensures
                    r == v.inc_result(size as int),
                { v.inc(size) });
            proof {
                lemma_count_le(sk.rows(h as int), 512);
                assert(undo.is_ok());
                assert(self.entry(h as int) == sk.entry(h as int));
                assert forall|j: int| 0 <= j < 8 * sk.children@.len() && j != h implies #[trigger] self.entry(j) == sk.entry(j) by {
                    assert(s2.entry(j) == s1.entry(j));
                    assert(s1.entry(j) == sk.entry(j));
                }
                assert forall|j: int| 0 <= j < sk.bitfields@.len() implies #[trigger] self.rows(j) == sk.rows(j) by {
                    assert(s1.rows(j) == sk.rows(j));
                }
            }
            if undo.is_err() {
                return Err(Error::UndoFailed);
            }
        }
        proof {
            Self::lemma_update_wf(&sk, self, 0, 0);
            assert(sk.no_block_in(h as int, order as nat)) by {
                assert forall|g: int| #![trigger sk.free_range(g, pow2(order as nat) as int)]
                    sk.valid_block(g, order as nat) && g / 512 == h implies !sk.free_range(g, pow2(order as nat) as int) by {
                    let sg = g % 512;
                    assert(g == h * 512 + sg);
                    assert(sg + n <= 512) by (nonlinear_arith)
                        requires
                            g % n == 0,
                            sg == g % 512,
                            n == 1 || n == 2 || n == 4 || n == 8 || n == 16 || n == 32 || n == 64 || n == 128 || n == 256,
                    ;
                    assert(sg % n == 0) by (nonlinear_arith)
                        requires
                            g % n == 0,
                            sg == g % 512,
                            n == 1 || n == 2 || n == 4 || n == 8 || n == 16 || n == 32 || n == 64 || n == 128 || n == 256,
                    ;
                    if sk.free_range(g, n) {
                        sk.lemma_free_counted(h as int, sg, n);
                        sk.lemma_range_bits(h as int, sg, n);
                        assert(free_block(sk.rows(h as int), sg, n));
                    }
                }
            }
        }
        Err(Error::Memory)
    }

    #[verifier::loop_isolation(false)]
    fn get_small(&mut self, start: RowId, t: usize, tree_start: FrameId, child_off: usize, order: usize, size: usize) -> (r: Result<FrameId, Error>)
        requires
            old(self).wf(),
            t < old(self).trees(),
            t == start.0 / 64,
            tree_start.0 == t * 4096,
            child_off < 8,
            order < HUGE_ORDER,
            size == pow2(order as nat),
        ensures
            final(self).wf(),
            Self::get_result(old(self), final(self), t as int, order as nat, r),
    {
        proof {
            lemma2_to64();
            lemma_max_frames_bounds(self.len as int);
        }
        let ghost s0 = *self;
        let first_child = tree_start.as_huge();
        let mut k: usize = 0;
        while k < TREE_HUGE
            invariant
                k <= 8,
                self.wf(),
                Self::same_except(&s0, self, 0, 0),
                forall|j: int| 0 <= j < k ==> #[trigger] s0.no_block_in(8 * t + (child_off + j) % 8, order as nat),
            decreases 8 - k,
        {
            let ii = (child_off + k) % TREE_HUGE;
            let h = first_child.0 + ii;
            let ghost sk = *self;
            proof {
                assert(h == 8 * t + ii);
                assert forall|i: int| 0 <= i < s0.len implies #[trigger] sk.is_free_frame(i) == s0.is_free_frame(i) by {
                    assert(i / 512 < s0.bitfields@.len());
                }
            }
            match self.get_in_child(start, h, order, size) {
                Ok(f) => {
                    proof {
                        assert(f.0 / 4096 == t);
                        assert(s0.valid_block(f.0 as int, order as nat));
                        assert(s0.free_range(f.0 as int, size as int)) by {
                            assert forall|i: int| f.0 <= i < f.0 + size implies #[trigger] s0.is_free_frame(i) by {
                                assert(sk.is_free_frame(i));
                            }
                        }
                        assert(Self::frames_changed(&s0, self, f.0 as int, size as int, false)) by {
                            assert forall|i: int| 0 <= i < s0.frames_view() implies #[trigger] self.is_free_frame(i) == (if f.0 <= i < f.0 + size {
                                false
                            } else {
                                s0.is_free_frame(i)
                            }) by {
                                assert(sk.is_free_frame(i) == s0.is_free_frame(i));
                            }
                        }
                    }
                    return Ok(f);
                },
                Err(e) => {
                    if e != Error::Memory {
                        return Err(e);
                    }
                },
            }
            proof {
                assert forall|j: int| 0 <= j < 8 * s0.children@.len() implies #[trigger] self.entry(j) == s0.entry(j) by {
                    assert(sk.entry(j) == s0.entry(j));
                }
                assert forall|j: int| 0 <= j < s0.bitfields@.len() implies #[trigger] self.rows(j) == s0.rows(j) by {
                    assert(sk.rows(j) == s0.rows(j));
                }
                assert(s0.no_block_in(h as int, order as nat)) by {
                    assert forall|g: int| #![trigger s0.free_range(g, pow2(order as nat) as int)]
                        s0.valid_block(g, order as nat) && g / 512 == h implies !s0.free_range(g, pow2(order as nat) as int) by {
                        if s0.free_range(g, pow2(order as nat) as int) {
                            assert(sk.free_range(g, pow2(order as nat) as int)) by {
                                assert forall|i: int| g <= i < g + pow2(order as nat) implies #[trigger] sk.is_free_frame(i) by {
                                    assert(s0.is_free_frame(i));
                                }
                            }
                        }
                    }
                }
            }
            k = k + 1;
        }
        proof {
            assert forall|g: int| #![trigger s0.free_range(g, pow2(order as nat) as int)]
                s0.valid_block(g, order as nat) && g / 4096 == t implies !s0.free_range(g, pow2(order as nat) as int) by {
                let h = g / 512;
                let ii = h % 8;
                let j = (ii - child_off + 8) % 8;
                assert((child_off + j) % 8 == ii);
                assert(h == 8 * t + ii);
                assert(s0.no_block_in(8 * t + (child_off + j) % 8, order as nat));
            }
            Self::lemma_update_wf(&s0, self, 0, 0);
        }
        Err(Error::Memory)
    }

    /// Try allocating `2^order` frames in the tree containing row `start`,
    /// starting the search at the huge frame of that row.
    pub fn get(&mut self, start: RowId, order: usize) -> (r: Result<FrameId, Error>)
        requires
            old(self).wf(),
        ensures
            final(self).wf(),
            order > MAX_ORDER ==> r == Err::<FrameId, Error>(Error::OrderNotSuported) && Self::same_frames(old(self), final(self)),
            order <= MAX_ORDER && start.0 >= chunks(old(self).frames_view() as int, 64) ==> r == Err::<FrameId, Error>(Error::InvalidArgument)
                && Self::same_frames(old(self), final(self)),
            order <= MAX_ORDER && start.0 < chunks(old(self).frames_view() as int, 64) ==> Self::get_result(old(self), final(self), (start.0 / 64) as int, order as nat, r),
    {
        proof {
            Self::lemma_update_wf(old(self), self, 0, 0);
        }
        let size = match Self::allocation_size(order) {
            Ok(size) => size,
            Err(e) => return Err(e),
        };
        proof {
            lemma2_to64();
            lemma_max_frames_bounds(self.len as int);
        }
        if start.0 >= (self.frames() + (BITFIELD_ROW - 1)) / BITFIELD_ROW {
            return Err(Error::InvalidArgument);
        }
        let tree = start.as_tree();
        let t = tree.0;
        proof {
            assert(t < self.children@.len()) by (nonlinear_arith)
                requires
                    start.0 < (self.len + 63) / 64,
                    t == start.0 / 64,
                    self.children@.len() == (self.len + 4095) / 4096,
            ;
        }
        let tree_start = match tree.as_frame() {
            Some(f) => f,
            None => return Err(Error::InvalidArgument),
        };
        let child_off = start.as_huge().child_idx();
        if t >= self.children.len() {
            return Err(Error::InvalidArgument);
        }
        if order == MAX_ORDER {
            self.get_max(start, t, tree_start, child_off, order, size)
        } else if order == HUGE_ORDER {
            self.get_huge(start, t, tree_start, child_off, order, size)
        } else if order <= Bitfield::ORDER {
            self.get_small(start, t, tree_start, child_off, order, size)
        } else {
            Err(Error::OrderNotSuported)
        }
    }

    /// Allocate an aligned block of `2^order` frames, searching all trees
    /// starting at tree `core_id % trees` and wrapping around.
    #[verifier::loop_isolation(false)]
    pub fn alloc_frames(&mut self, core_id: usize, order: usize) -> (r: Result<FrameId, Error>)
        requires
            old(self).wf(),
        ensures
            final(self).wf(),
            order > MAX_ORDER ==> r == Err::<FrameId, Error>(Error::OrderNotSuported) && Self::same_frames(old(self), final(self)),
            order <= MAX_ORDER ==> match r {
                Ok(f) => {
                    &&& old(self).valid_block(f.0 as int, order as nat)
                    &&& old(self).free_range(f.0 as int, pow2(order as nat) as int)
                    &&& Self::frames_changed(old(self), final(self), f.0 as int, pow2(order as nat) as int, false)
                    &&& final(self).marks_huge(f.0 as int, order as nat)
                    &&& forall|g: int| #![trigger old(self).free_range(g, pow2(order as nat) as int)]
                        old(self).valid_block(g, order as nat) && old(self).free_range(g, pow2(order as nat) as int) ==> visit_pos(
                            g / 4096,
                            core_id as int % old(self).trees() as int,
                            old(self).trees() as int,
                        ) >= visit_pos((f.0 / 4096) as int, core_id as int % old(self).trees() as int, old(self).trees() as int)
                },
                Err(e) => {
                    &&& e == Error::Memory
                    &&& Self::same_frames(old(self), final(self))
                    &&& forall|g: int| #![trigger old(self).free_range(g, pow2(order as nat) as int)]
                        old(self).valid_block(g, order as nat) ==> !old(self).free_range(g, pow2(order as nat) as int)
                },
            },
    {
        proof {
            Self::lemma_update_wf(old(self), self, 0, 0);
        }
        match Self::allocation_size(order) {
            Ok(_) => {},
            Err(e) => return Err(e),
        }
        let count = self.children.len();
        proof {
            lemma2_to64();
            lemma_max_frames_bounds(self.len as int);
            assert(count >= 1);
        }
        let first = match core_id.checked_rem(count) {
            Some(f) => f,
            None => return Err(Error::Memory),
        };
        let ghost s0 = *self;
        let ghost n = pow2(order as nat) as int;
        proof {
            vstd::arithmetic::power2::lemma_pow2_pos(order as nat);
        }
        let mut k: usize = 0;
        while k < count
            invariant
                k <= count,
                count == s0.children@.len(),
                first < count,
                self.wf(),
                Self::same_frames(&s0, self),
                forall|g: int| #![trigger s0.free_range(g, n)]
                    s0.valid_block(g, order as nat) && visit_pos(g / 4096, first as int, count as int) < k ==> !s0.free_range(g, n),
            decreases count - k,
        {
            let tree = if first + k < count {
                first + k
            } else {
                first + k - count
            };
            let start = match TreeId(tree).as_row() {
                Some(r) => r,
                None => return Err(Error::InvalidArgument),
            };
            proof {
                assert(start.0 == tree * 64);
                assert(start.0 < chunks(self.len as int, 64)) by (nonlinear_arith)
                    requires
                        start.0 == tree * 64,
                        tree < count,
                        count == (self.len + 4095) / 4096,
                ;
                assert(start.0 / 64 == tree);
            }
            let ghost sk = *self;
            match self.get(start, order) {
                Err(Error::Memory) => {
                    proof {
                        assert forall|g: int| #![trigger s0.free_range(g, n)]
                            s0.valid_block(g, order as nat) && visit_pos(g / 4096, first as int, count as int) < k + 1 implies !s0.free_range(g, n) by {
                            if visit_pos(g / 4096, first as int, count as int) == k {
                                assert(g / 4096 < count) by (nonlinear_arith)
                                    requires
                                        g + n <= s0.len,
                                        n >= 1,
                                        count == (s0.len + 4095) / 4096,
                                        g >= 0,
                                ;
                                assert(g / 4096 == tree);
                                assert(sk.valid_block(g, order as nat));
                                if s0.free_range(g, n) {
                                    assert(sk.free_range(g, n)) by {
                                        assert forall|i: int| g <= i < g + n implies #[trigger] sk.is_free_frame(i) by {
                                            assert(s0.is_free_frame(i));
                                        }
                                    }
                                }
                            }
                        }
                        assert forall|i: int| 0 <= i < s0.frames_view() implies #[trigger] self.is_free_frame(i) == s0.is_free_frame(i) by {
                            assert(sk.is_free_frame(i) == s0.is_free_frame(i));
                        }
                    }
                },
                Err(e) => return Err(e),
                Ok(f) => {
                    proof {
                        assert(visit_pos(tree as int, first as int, count as int) == k);
                        assert(f.0 / 4096 == tree);
                        assert forall|g: int| #![trigger s0.free_range(g, n)]
                            s0.valid_block(g, order as nat) && s0.free_range(g, n) implies visit_pos(g / 4096, first as int, count as int) >= k by {}
                        assert(s0.free_range(f.0 as int, n)) by {
                            assert forall|i: int| f.0 <= i < f.0 + n implies #[trigger] s0.is_free_frame(i) by {
                                assert(sk.is_free_frame(i));
                            }
                        }
                        assert forall|i: int| 0 <= i < s0.frames_view() implies #[trigger] self.is_free_frame(i) == (if f.0 <= i < f.0 + n {
                            false
                        } else {
                            s0.is_free_frame(i)
                        }) by {
                            assert(sk.is_free_frame(i) == s0.is_free_frame(i));
                        }
                    }
                    return Ok(f);
                },
            }
            k = k + 1;
        }
        proof {
            assert forall|g: int| #![trigger s0.free_range(g, n)]
                s0.valid_block(g, order as nat) implies !s0.free_range(g, n) by {
                assert(g / 4096 < count) by (nonlinear_arith)
                    requires
                        g + n <= s0.len,
                        n >= 1,
                        count == (s0.len + 4095) / 4096,
                        g >= 0,
                ;
            }
        }
        Err(Error::Memory)
    }
}

impl Lower {
    /// Number of free frames among `lo..hi`.
    pub open spec fn free_in(&self, lo: int, hi: int) -> nat
        decreases hi - lo,
    {
        if hi <= lo {
            0
        } else {
            self.free_in(lo, hi - 1) + if self.is_free_frame(hi - 1) {
                1nat
            } else {
                0nat
            }
        }
    }

    proof fn lemma_free_in_split(&self, lo: int, mid: int, hi: int)
        requires
            lo <= mid <= hi,
        ensures
            self.free_in(lo, hi) == self.free_in(lo, mid) + self.free_in(mid, hi),
        decreases hi - mid,
    {
        if hi > mid {
            self.lemma_free_in_split(lo, mid, hi - 1);
        }
    }

    proof fn lemma_free_in_none(&self, lo: int, hi: int)
        requires
            forall|f: int| lo <= f < hi ==> !#[trigger] self.is_free_frame(f),
        ensures
            self.free_in(lo, hi) == 0,
        decreases hi - lo,
    {
        if hi > lo {
            self.lemma_free_in_none(lo, hi - 1);
        }
    }

    /// In a huge frame that is not allocated as a whole, the free frames
    /// are the clear bits.
    proof fn lemma_free_in_bits(&self, h: int, k: int)
        requires
            self.wf(),
            0 <= h < self.bitfields@.len(),
            !self.entry(h).is_huge(),
            0 <= k <= 512,
        ensures
            self.free_in(h * 512, h * 512 + k) == free_count(self.rows(h), k),
        decreases k,
    {
        if k > 0 {
            self.lemma_free_in_bits(h, k - 1);
            let f = h * 512 + k - 1;
            assert(f / 512 == h && f % 512 == k - 1) by (nonlinear_arith)
                requires
                    f == h * 512 + k - 1,
                    0 <= k - 1 < 512,
            ;
            assert(self.entry_ok(h));
            if f >= self.len {
                assert(is_set(self.rows(h), k - 1));
            }
        }
    }

    /// The counter of a huge frame is the number of its free frames.
    proof fn lemma_free_in_huge(&self, h: int)
        requires
            self.wf(),
            0 <= h < 8 * self.children@.len(),
        ensures
            self.free_in(h * 512, h * 512 + 512) == self.entry(h).free_frames(),
    {
        assert(self.entry_ok(h));
        if h >= self.bitfields@.len() {
            assert(h * 512 >= self.len) by (nonlinear_arith)
                requires
                    h >= (self.len + 511) / 512,
                    self.bitfields@.len() == (self.len + 511) / 512,
            ;
            self.lemma_free_in_none(h * 512, h * 512 + 512);
        } else if self.entry(h).is_huge() {
            assert forall|f: int| h * 512 <= f < h * 512 + 512 implies !#[trigger] self.is_free_frame(f) by {
                assert(f / 512 == h) by (nonlinear_arith)
                    requires
                        h * 512 <= f < h * 512 + 512,
                ;
            }
            self.lemma_free_in_none(h * 512, h * 512 + 512);
        } else {
            self.lemma_free_in_bits(h, 512);
        }
    }

    proof fn lemma_free_in_sum(&self, k: int)
        requires
            self.wf(),
            0 <= k <= 8 * self.children@.len(),
        ensures
            self.free_in(0, 512 * k) == self.sum_free(0, k),
        decreases k,
    {
        if k > 0 {
            self.lemma_free_in_sum(k - 1);
            self.lemma_free_in_split(0, 512 * (k - 1), 512 * k);
            self.lemma_free_in_huge(k - 1);
        }
    }

    proof fn lemma_free_in_sum_from(&self, lo: int, k: int)
        requires
            self.wf(),
            0 <= lo <= k <= 8 * self.children@.len(),
        ensures
            self.free_in(512 * lo, 512 * k) == self.sum_free(lo, k),
        decreases k - lo,
    {
        if k > lo {
            self.lemma_free_in_sum_from(lo, k - 1);
            self.lemma_free_in_split(512 * lo, 512 * (k - 1), 512 * k);
            self.lemma_free_in_huge(k - 1);
        }
    }

    /// `free_in` counts at most the frames of its range, and all of them
    /// exactly when they are all free.
    proof fn lemma_free_in_full(&self, lo: int, hi: int)
        requires
            lo <= hi,
        ensures
            self.free_in(lo, hi) <= hi - lo,
            self.free_in(lo, hi) == hi - lo <==> self.free_range(lo, hi - lo),
        decreases hi - lo,
    {
        if hi > lo {
            self.lemma_free_in_full(lo, hi - 1);
            if self.free_range(lo, hi - lo) {
                assert(self.free_range(lo, hi - 1 - lo));
                assert(self.is_free_frame(hi - 1));
            }
            if self.free_in(lo, hi) == hi - lo {
                assert forall|i: int| lo <= i < lo + (hi - lo) implies #[trigger] self.is_free_frame(i) by {
                    if i < hi - 1 {
                        assert(self.free_range(lo, hi - 1 - lo));
                    }
                }
            }
        }
    }

    /// Huge frame `h` is managed and all its frames are free: what
    /// `is_free` reports for frame `512 * h` at order 9.
    pub open spec fn huge_free(&self, h: int) -> bool {
        512 * h + 512 <= self.frames_view() && self.free_range(512 * h, 512)
    }

    /// Tree `t` is managed and all its frames are free: what `is_free`
    /// reports for frame `4096 * t` at order 12.
    pub open spec fn tree_free(&self, t: int) -> bool {
        4096 * t + 4096 <= self.frames_view() && self.free_range(4096 * t, 4096)
    }

    /// Number of huge frames among the first `k` that are entirely free.
    pub open spec fn free_huges(&self, k: int) -> nat
        decreases k,
    {
        if k <= 0 {
            0
        } else {
            self.free_huges(k - 1) + if self.huge_free(k - 1) { 1nat } else { 0nat }
        }
    }

    /// Number of trees among the first `k` that are entirely free.
    pub open spec fn free_trees(&self, k: int) -> nat
        decreases k,
    {
        if k <= 0 {
            0
        } else {
            self.free_trees(k - 1) + if self.tree_free(k - 1) { 1nat } else { 0nat }
        }
    }

    proof fn lemma_huge_counts(&self, k: int)
        requires
            self.wf(),
            0 <= k <= 8 * self.children@.len(),
        ensures
            self.count_huge(0, k) == self.free_huges(k),
        decreases k,
    {
        if k > 0 {
            self.lemma_huge_counts(k - 1);
            let h = k - 1;
            self.lemma_free_in_huge(h);
            self.lemma_free_in_full(512 * h, 512 * h + 512);
            if self.free_range(512 * h, 512) {
                assert(self.is_free_frame(512 * h + 511));
            }
        }
    }

    proof fn lemma_tree_counts(&self, k: int)
        requires
            self.wf(),
            0 <= k <= self.children@.len(),
        ensures
            self.count_trees(k) == self.free_trees(k),
        decreases k,
    {
        if k > 0 {
            self.lemma_tree_counts(k - 1);
            let t = k - 1;
            self.lemma_free_in_sum_from(8 * t, 8 * t + 8);
            self.lemma_free_in_full(4096 * t, 4096 * t + 4096);
            if self.free_range(4096 * t, 4096) {
                assert(self.is_free_frame(4096 * t + 4095));
            }
        }
    }

    proof fn lemma_all_free_huges(&self, k: int)
        requires
            0 <= k,
            forall|f: int| 0 <= f < self.frames_view() ==> #[trigger] self.is_free_frame(f),
        ensures
            self.free_huges(k) == if k <= self.frames_view() / 512 { k } else { (self.frames_view() / 512) as int },
        decreases k,
    {
        if k > 0 {
            self.lemma_all_free_huges(k - 1);
            let h = k - 1;
            let n = self.frames_view() as int;
            assert(512 * h + 512 <= n <==> h < n / 512) by (nonlinear_arith)
                requires
                    0 <= h,
                    0 <= n,
            ;
        }
    }

    proof fn lemma_all_free_trees(&self, k: int)
        requires
            0 <= k,
            forall|f: int| 0 <= f < self.frames_view() ==> #[trigger] self.is_free_frame(f),
        ensures
            self.free_trees(k) == if k <= self.frames_view() / 4096 { k } else { (self.frames_view() / 4096) as int },
        decreases k,
    {
        if k > 0 {
            self.lemma_all_free_trees(k - 1);
            let t = k - 1;
            let n = self.frames_view() as int;
            assert(4096 * t + 4096 <= n <==> t < n / 4096) by (nonlinear_arith)
                requires
                    0 <= t,
                    0 <= n,
            ;
        }
    }

    /// With every frame free (as after `Allocator::free_all`), `stats`
    /// counts all frames, `frames / 512` free huge frames and
    /// `frames / 4096` free trees.
    pub proof fn law_stats_all_free(&self)
        requires
            self.wf(),
            forall|f: int| 0 <= f < self.frames_view() ==> #[trigger] self.is_free_frame(f),
        ensures
            self.sum_free(0, 8 * self.trees() as int) == self.frames_view(),
            self.count_huge(0, 8 * self.trees() as int) == self.frames_view() / 512,
            self.count_trees(self.trees() as int) == self.frames_view() / 4096,
    {
        self.law_stats_free_frames();
        self.law_stats_free_huge_and_trees();
        let n = self.frames_view() as int;
        self.lemma_free_in_full(0, n);
        self.lemma_all_free_huges(8 * self.trees() as int);
        self.lemma_all_free_trees(self.trees() as int);
        let t = self.children@.len() as int;
        assert(self.children@.len() == (self.len + 4095) / 4096);
        assert(n / 512 <= 8 * t && n / 4096 <= t) by (nonlinear_arith)
            requires
                t == (n + 4095) / 4096,
                n >= 0,
        ;
    }

    /// What `stats_at` reports for a huge frame (order 9) and for a tree
    /// (order 12) is the number of their free frames.
    pub proof fn law_stats_at_counts_free_frames(&self, h: int, t: int)
        requires
            self.wf(),
            0 <= h < 8 * self.trees(),
            0 <= t < self.trees(),
        ensures
            self.entry(h).free_frames() == self.free_in(512 * h, 512 * h + 512),
            self.sum_free(8 * t, 8 * t + 8) == self.free_in(4096 * t, 4096 * t + 4096),
    {
        self.lemma_free_in_huge(h);
        self.lemma_free_in_sum_from(8 * t, 8 * t + 8);
    }

    /// The entirely free huge frames and trees that `stats` counts are those
    /// whose frames are all free.
    pub proof fn law_stats_free_huge_and_trees(&self)
        requires
            self.wf(),
        ensures
            self.count_huge(0, 8 * self.trees() as int) == self.free_huges(8 * self.trees() as int),
            self.count_trees(self.trees() as int) == self.free_trees(self.trees() as int),
    {
        self.lemma_huge_counts(8 * self.trees() as int);
        self.lemma_tree_counts(self.trees() as int);
    }

    /// The free frame count of `stats` is the number of free frames: the
    /// counters agree with the bitfields.
    pub proof fn law_stats_free_frames(&self)
        requires
            self.wf(),
        ensures
            self.sum_free(0, 8 * self.trees() as int) == self.free_in(0, self.frames_view() as int),
    {
        let n: int = 8 * self.children@.len() as int;
        self.lemma_free_in_sum(n);
        assert(512 * n >= self.len) by (nonlinear_arith)
            requires
                n == 8 * self.children@.len(),
                self.children@.len() == (self.len + 4095) / 4096,
        ;
        self.lemma_free_in_split(0, self.len as int, 512 * n);
        self.lemma_free_in_none(self.len as int, 512 * n);
    }

    /// Free frames below `hi` after a block `f..f + n` of frames that were
    /// all allocated (or all free) became free (allocated), all else kept.
    proof fn lemma_free_in_changed(a: &Lower, b: &Lower, f: int, n: int, free: bool, hi: int)
        requires
            0 <= f,
            0 <= n,
            f + n <= a.frames_view(),
            0 <= hi <= a.frames_view(),
            Self::frames_changed(a, b, f, n, free),
            free ==> a.allocated_range(f, n),
            !free ==> a.free_range(f, n),
        ensures
            ({
                let k = if hi <= f { 0 } else if hi >= f + n { n } else { hi - f };
                if free {
                    b.free_in(0, hi) == a.free_in(0, hi) + k
                } else {
                    a.free_in(0, hi) == b.free_in(0, hi) + k
                }
            }),
        decreases hi,
    {
        if hi > 0 {
            Self::lemma_free_in_changed(a, b, f, n, free, hi - 1);
            let i = hi - 1;
            assert(b.is_free_frame(i) == (if f <= i < f + n { free } else { a.is_free_frame(i) }));
        }
    }

    /// Allocating a block of `n` frames lowers the free frame count of
    /// `stats` by `n`, and freeing one raises it by `n`.
    pub proof fn law_stats_after_change(a: &Lower, b: &Lower, f: int, n: int, free: bool)
        requires
            a.wf(),
            b.wf(),
            0 <= f,
            0 <= n,
            f + n <= a.frames_view(),
            Self::frames_changed(a, b, f, n, free),
            free ==> a.allocated_range(f, n),
            !free ==> a.free_range(f, n),
        ensures
            free ==> b.sum_free(0, 8 * b.trees() as int) == a.sum_free(0, 8 * a.trees() as int) + n,
            !free ==> a.sum_free(0, 8 * a.trees() as int) == b.sum_free(0, 8 * b.trees() as int) + n,
    {
        a.law_stats_free_frames();
        b.law_stats_free_frames();
        Self::lemma_free_in_changed(a, b, f, n, free, a.frames_view() as int);
    }

    /// Allocating a free block leaves it allocated, and freeing it again
    /// makes every frame exactly as free as before the allocation.
    pub proof fn law_get_then_put(a: &Lower, b: &Lower, c: &Lower, f: int, n: int)
        requires
            a.free_range(f, n),
            Self::frames_changed(a, b, f, n, false),
            Self::frames_changed(b, c, f, n, true),
        ensures
            b.allocated_range(f, n),
            forall|i: int| 0 <= i < a.frames_view() ==> #[trigger] c.is_free_frame(i) == a.is_free_frame(i),
    {
        assert forall|i: int| f <= i < f + n implies !#[trigger] b.is_free_frame(i) by {
            if 0 <= i < a.frames_view() {
                assert(b.is_free_frame(i) == false);
            }
        }
        assert forall|i: int| 0 <= i < a.frames_view() implies #[trigger] c.is_free_frame(i) == a.is_free_frame(i) by {
            assert(c.is_free_frame(i) == (if f <= i < f + n { true } else { b.is_free_frame(i) }));
            if f <= i < f + n {
                assert(a.is_free_frame(i));
            }
        }
    }

    /// A block that an allocation returned is one that `put` frees again:
    /// allocated as whole huge frames at the huge orders, else allocated
    /// frame by frame.
    pub proof fn law_allocated_block_can_be_put(a: &Lower, b: &Lower, f: int, order: nat)
        requires
            order <= MAX_ORDER,
            a.valid_block(f, order),
            a.free_range(f, pow2(order) as int),
            Self::frames_changed(a, b, f, pow2(order) as int, false),
            b.marks_huge(f, order),
        ensures
            b.valid_block(f, order),
            if order >= HUGE_ORDER {
                forall|j: int| f / 512 <= j < f / 512 + pow2(order) / 512 ==> #[trigger] b.is_huge_frame(j)
            } else {
                b.allocated_range(f, pow2(order) as int)
            },
    {
        assert forall|i: int| f <= i < f + pow2(order) implies !#[trigger] b.is_free_frame(i) by {
            if 0 <= i < a.frames_view() {
                assert(b.is_free_frame(i) == false);
            }
        }
    }

    /// After `Allocator::reserve_all` no frame is counted free, and every
    /// aligned block of managed frames is one that `put` frees.
    pub proof fn law_reserve_all_then_put(&self, f: int, order: nat)
        requires
            self.wf(),
            forall|i: int| 0 <= i < self.frames_view() ==> !#[trigger] self.is_free_frame(i),
            forall|h: int| 0 <= h && h * 512 + 512 <= self.frames_view() ==> #[trigger] self.is_huge_frame(h),
            order <= MAX_ORDER,
            self.valid_block(f, order),
        ensures
            self.sum_free(0, 8 * self.trees() as int) == 0,
            if order >= HUGE_ORDER {
                forall|j: int| f / 512 <= j < f / 512 + pow2(order) / 512 ==> #[trigger] self.is_huge_frame(j)
            } else {
                self.allocated_range(f, pow2(order) as int)
            },
    {
        self.law_stats_free_frames();
        self.lemma_free_in_none(0, self.frames_view() as int);
        lemma2_to64();
        if order >= HUGE_ORDER {
            assert forall|j: int| f / 512 <= j < f / 512 + pow2(order) / 512 implies #[trigger] self.is_huge_frame(j) by {
                let n = pow2(order) as int;
                assert(n == 512 || n == 1024);
                assert(j * 512 + 512 <= f + n) by (nonlinear_arith)
                    requires
                        f % n == 0,
                        n == 512 || n == 1024,
                        f / 512 <= j < f / 512 + n / 512,
                        f >= 0,
                ;
            }
        }
    }

    /// Any part of an allocated block, such as single frames of a huge
    /// frame, is allocated, so `put` frees it at order 0.
    pub proof fn law_part_of_block_allocated(a: &Lower, b: &Lower, f: int, n: int, g: int, m: int)
        requires
            Self::frames_changed(a, b, f, n, false),
            f <= g,
            g + m <= f + n,
        ensures
            b.allocated_range(g, m),
    {
        assert forall|i: int| g <= i < g + m implies !#[trigger] b.is_free_frame(i) by {
            if 0 <= i < a.frames_view() {
                assert(b.is_free_frame(i) == false);
            }
        }
    }

    /// A block that `is_free` reports free (for an order that `get_at`
    /// supports) is a block that `get_at` allocates.
    pub proof fn law_is_free_then_get_at(&self, f: int, order: nat)
        requires
            order <= MAX_ORDER,
            0 <= f,
            aligned(f, order),
            f + pow2(order) <= self.frames_view(),
            self.free_range(f, pow2(order) as int),
        ensures
            self.valid_block(f, order),
    {
    }
}

/// Position of tree `t` in a search over `count` trees starting at `first`.
pub open spec fn visit_pos(t: int, first: int, count: int) -> int {
    if t >= first {
        t - first
    } else {
        t + count - first
    }
}

/// Counter of huge frame `h` after a reset of `frames` frames.
pub open spec fn reset_entry(frames: int, h: int, free: bool) -> HugeEntry {
    let count = if frames - h * 512 <= 0 {
        0
    } else if frames - h * 512 >= 512 {
        512
    } else {
        frames - h * 512
    };
    if free {
        HugeEntry(count as u16)
    } else if count == 512 {
        HugeEntry(0xffff)
    } else {
        HugeEntry(0)
    }
}

/// Owner of the allocator metadata.
///
/// The metadata lives in memory owned by the allocator; `ptr` records the
/// address of the storage handed to `new`, which must be cache-line aligned
/// and large enough for the metadata layout.
pub struct Allocator {
    frames: usize,
    ptr: usize,
    metadata: Metadata,
    lower: Lower,
}

/// Bits of the bitfield of huge frame `h` after a reset of `frames` frames.
pub open spec fn reset_rows(rows: Seq<u64>, frames: int, h: int, free: bool) -> bool {
    let count = if frames - h * 512 >= 512 {
        512
    } else {
        frames - h * 512
    };
    &&& rows.len() == 8
    &&& forall|b: int| 0 <= b < 512 ==> #[trigger] is_set(rows, b) == if free {
        b >= count
    } else {
        count != 512
    }
}

impl Allocator {
    /// The metadata matches the frame count.
    #[verifier::type_invariant]
    closed spec fn inv(&self) -> bool {
        &&& 1 <= self.frames <= MAX_FRAMES
        &&& metadata_for(self.frames as int) == Some(self.metadata)
        &&& self.lower.len == self.frames
        &&& self.lower.bitfields@.len() == self.metadata.bitfield_len
        &&& self.lower.children@.len() == self.metadata.table_len
    }

    /// Consume the owner and hand off the metadata.
    pub fn into_lower(self) -> (r: Lower)
        ensures
            r == self.lower_view(),
    {
        self.lower
    }

    /// Borrow the metadata.
    pub fn as_lower(&self) -> (r: &Lower)
        ensures
            *r == self.lower_view(),
    {
        &self.lower
    }

    fn reset(&mut self, free: bool)
        ensures
            final(self).frames == old(self).frames,
            final(self).lower.wf(),
            final(self).lower.len == old(self).frames,
            forall|h: int| 0 <= h < 8 * final(self).lower.children@.len() ==> #[trigger] final(self).lower.entry(h) == reset_entry(old(self).frames as int, h, free),
            forall|h: int| 0 <= h < final(self).lower.bitfields@.len() ==> reset_rows(#[trigger] final(self).lower.rows(h), old(self).frames as int, h, free),
    {
        proof {
            use_type_invariant(&*self);
            lemma_max_frames_bounds(self.frames as int);
        }
        let frames = self.frames;
        let m = self.metadata;
        let mut children: Vec<Table> = Vec::new();
        let mut t: usize = 0;
        while t < m.table_len
            invariant
                t <= m.table_len,
                m.table_len == chunks(frames as int, 4096),
                m.table_len * 4096 * 8 <= usize::MAX,
                frames <= MAX_FRAMES,
                children@.len() == t,
                forall|tt: int, i: int| 0 <= tt < t && 0 <= i < 8 ==> #[trigger] children@[tt].entry(i) == reset_entry(frames as int, 8 * tt + i, free),
            decreases m.table_len - t,
        {
            let base = 8 * t;
            let e0 = Self::reset_entry(frames, base, free);
            let e1 = Self::reset_entry(frames, base + 1, free);
            let e2 = Self::reset_entry(frames, base + 2, free);
            let e3 = Self::reset_entry(frames, base + 3, free);
            let e4 = Self::reset_entry(frames, base + 4, free);
            let e5 = Self::reset_entry(frames, base + 5, free);
            let e6 = Self::reset_entry(frames, base + 6, free);
            let e7 = Self::reset_entry(frames, base + 7, free);
            let table = Table { pairs: [HugePair(e0, e1), HugePair(e2, e3), HugePair(e4, e5), HugePair(e6, e7)] };
            proof {
                assert forall|i: int| 0 <= i < 8 implies #[trigger] table.entry(i) == reset_entry(frames as int, 8 * t + i, free) by {
                    assert(table.pairs@[i / 2] == if i / 2 == 0 { HugePair(e0, e1) } else if i / 2 == 1 { HugePair(e2, e3) } else if i / 2 == 2 { HugePair(e4, e5) } else { HugePair(e6, e7) });
                }
            }
            children.push(table);
            t = t + 1;
        }
        let mut bitfields: Vec<Bitfield> = Vec::new();
        let mut i: usize = 0;
        while i < m.bitfield_len
            invariant
                i <= m.bitfield_len,
                m.bitfield_len == chunks(frames as int, 512),
                1 <= frames <= MAX_FRAMES,
                bitfields@.len() == i,
                forall|h: int| 0 <= h < i ==> reset_rows(#[trigger] bitfields@[h]@, frames as int, h, free),
            decreases m.bitfield_len - i,
        {
            proof {
                assert(i * 512 < frames);
            }
            let rest = frames - i * Bitfield::LEN;
            let count = if rest < Bitfield::LEN {
                rest
            } else {
                Bitfield::LEN
            };
            let mut bf = Bitfield::new();
            bf.fill(count != Bitfield::LEN);
            if free {
                bf.set(FrameId(0)..FrameId(count), false);
            }
            proof {
                bf.lemma_len();
            }
            bitfields.push(bf);
            i = i + 1;
        }
        self.lower = Lower { len: frames, bitfields, children };
        proof {
            assert forall|h: int| 0 <= h < 8 * self.lower.children@.len() implies #[trigger] self.lower.entry(h) == reset_entry(frames as int, h, free) by {
                assert(self.lower.children@[h / 8].entry(h % 8) == reset_entry(frames as int, 8 * (h / 8) + h % 8, free));
            }
            assert forall|h: int| 0 <= h < 8 * self.lower.children@.len() implies #[trigger] self.lower.entry_ok(h) by {
                let rows = self.lower.rows(h);
                let e = self.lower.entry(h);
                if h < self.lower.bitfields@.len() {
                    assert(reset_rows(rows, frames as int, h, free));
                    assert(h * 512 < frames);
                    let count = if frames - h * 512 >= 512 { 512 } else { frames - h * 512 };
                    if free {
                        assert(all_bits(rows, 0, count, false));
                        lemma_count_all(rows, count);
                        assert(all_bits(rows, count, 512 - count, true));
                        lemma_count_tail(rows, count, 512);
                    } else if count == 512 {
                        assert(all_bits(rows, 0, 512, false));
                    } else {
                        assert(all_bits(rows, 0, 512, true));
                        lemma_count_none(rows, 512);
                    }
                } else {
                    assert(h * 512 >= frames);
                }
            }
        }
    }

    /// The metadata managed by this allocator.
    pub closed spec fn lower_view(&self) -> Lower {
        self.lower
    }

    /// Number of managed frames.
    pub closed spec fn frames_view(&self) -> nat {
        self.frames as nat
    }

    /// Size in bytes needed to store the allocator metadata; `None` when
    /// `frames` exceeds `MAX_FRAMES`.
    pub fn expected_size(frames: usize) -> (r: Option<usize>)
        ensures
            r == match metadata_for(frames as int) {
                Some(m) => Some(m.size),
                None => None::<usize>,
            },
    {
        match Metadata::new(frames) {
            Some(metadata) => Some(metadata.size()),
            None => None,
        }
    }

    /// Creates an allocator for `frames` (at least one) frames with zeroed
    /// metadata storage at `ptr`; call `free_all` or `reserve_all` before
    /// allocating. The metadata is held by the allocator itself: `ptr` is
    /// only checked, and metadata that earlier storage held is not taken
    /// over. Null or misaligned addresses, storage that would wrap the
    /// address space and unsupported sizes give `None`.
    pub fn new(frames: usize, ptr: usize) -> (r: Option<Self>)
        requires
            frames >= 1,
        ensures
            r is Some <==> (metadata_for(frames as int) is Some && ptr != 0 && ptr % 64 == 0 && ptr
                + metadata_for(frames as int)->Some_0.size <= usize::MAX),
            r matches Some(a) ==> a.frames_view() == frames && a.lower_view().frames_view() == frames,
    {
        let metadata = match Metadata::new(frames) {
            Some(m) => m,
            None => return None,
        };
        if ptr == 0 || ptr % CACHE_LINE != 0 {
            return None;
        }
        match ptr.checked_add(metadata.size()) {
            Some(_) => {},
            None => return None,
        }
        let mut bitfields: Vec<Bitfield> = Vec::new();
        let mut i: usize = 0;
        while i < metadata.bitfield_len
            invariant
                i <= metadata.bitfield_len,
                bitfields@.len() == i,
            decreases metadata.bitfield_len - i,
        {
            bitfields.push(Bitfield::new());
            i = i + 1;
        }
        let mut children: Vec<Table> = Vec::new();
        let mut j: usize = 0;
        while j < metadata.table_len
            invariant
                j <= metadata.table_len,
                children@.len() == j,
            decreases metadata.table_len - j,
        {
            children.push(Table::new());
            j = j + 1;
        }
        Some(Allocator { frames, ptr, metadata, lower: Lower { len: frames, bitfields, children } })
    }

    /// Counter of huge frame `h` after a reset.
    fn reset_entry(frames: usize, h: usize, free: bool) -> (r: HugeEntry)
        requires
            frames <= MAX_FRAMES,
            h <= usize::MAX / 512,
        ensures
            r == reset_entry(frames as int, h as int, free),
    {
        let frame = h * Bitfield::LEN;
        let rest = frames.saturating_sub(frame);
        let count = if rest < Bitfield::LEN {
            rest
        } else {
            Bitfield::LEN
        };
        if free {
            HugeEntry::new_with(count)
        } else if count == Bitfield::LEN {
            HugeEntry::new_huge()
        } else {
            HugeEntry::new_with(0)
        }
    }

    /// Reset all managed frames to free. The caller must have relinquished
    /// all outstanding frame allocations.
    pub fn free_all(&mut self)
        ensures
            final(self).lower_view().wf(),
            final(self).frames_view() == old(self).frames_view(),
            final(self).lower_view().frames_view() == old(self).frames_view(),
            forall|f: int| 0 <= f < old(self).frames_view() ==> #[trigger] final(self).lower_view().is_free_frame(f),
    {
        self.reset(true);
    }

    /// Reset all managed frames to allocated, whole huge frames as huge
    /// frames; subranges can then be freed with `put`.
    pub fn reserve_all(&mut self)
        ensures
            final(self).lower_view().wf(),
            final(self).frames_view() == old(self).frames_view(),
            final(self).lower_view().frames_view() == old(self).frames_view(),
            forall|f: int| 0 <= f < old(self).frames_view() ==> !#[trigger] final(self).lower_view().is_free_frame(f),
            forall|h: int| 0 <= h && h * 512 + 512 <= old(self).frames_view() ==> #[trigger] final(self).lower_view().is_huge_frame(h),
    {
        self.reset(false);
    }
}

} // verus!
