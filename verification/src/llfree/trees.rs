//! Tree entries: per-tree free counters with reservation state.
use vstd::prelude::*;

use super::atomic::{Atom, Atomic};
use super::{Error, Flags, HUGE_ORDER, TREE_FRAMES};

verus! {

/// Kind of frames a tree holds.
#[derive(Debug, Clone, Copy, PartialEq, Eq, Structural)]
pub enum Kind {
    /// Frames that cannot be moved
    Fixed,
    /// Frames that can be moved
    Movable,
    /// Huge frames
    Huge,
}

impl Kind {
    /// Number of kinds.
    pub const LEN: usize = 3;

    /// Numeric value of the kind: 0, 1 or 2.
    pub open spec fn value(self) -> nat {
        match self {
            Kind::Fixed => 0,
            Kind::Movable => 1,
            Kind::Huge => 2,
        }
    }

    /// Numeric value of the kind.
    pub fn index(self) -> (r: usize)
        ensures
            r == self.value(),
    {
        match self {
            Kind::Fixed => 0,
            Kind::Movable => 1,
            Kind::Huge => 2,
        }
    }

    /// Trees of this kind accept allocations of `other`: kinds are ordered
    /// Fixed, Movable, Huge and a kind accepts itself and the later ones.
    pub fn accepts(self, other: Kind) -> (r: bool)
        ensures
            r == (other.value() >= self.value()),
    {
        other.index() >= self.index()
    }

    /// Kind from its two-bit encoding; unknown encodings are `Fixed`.
    pub fn from_bits(bits: u8) -> (r: Self)
        ensures
            r == kind_of_bits(bits),
    {
        match bits {
            0 => Kind::Fixed,
            1 => Kind::Movable,
            2 => Kind::Huge,
            _ => Kind::Fixed,
        }
    }

    /// Two-bit encoding of the kind.
    pub fn into_bits(self) -> (r: u8)
        ensures
            r == self.value(),
    {
        match self {
            Kind::Fixed => 0,
            Kind::Movable => 1,
            Kind::Huge => 2,
        }
    }

    /// Kind from a number (truncated to its low byte).
    pub fn from_usize(value: usize) -> (r: Self)
        ensures
            r == (if value % 256 == 1 {
                Kind::Movable
            } else if value % 256 == 2 {
                Kind::Huge
            } else {
                Kind::Fixed
            }),
    {
        Self::from_bits((value % 256) as u8)
    }

    /// The kind of trees an allocation with `flags` needs: huge frames for
    /// orders of huge frames and above, else movable or fixed.
    pub fn from_flags(flags: Flags) -> (r: Self)
        ensures
            r == (if flags.order >= HUGE_ORDER {
                Kind::Huge
            } else if flags.movable {
                Kind::Movable
            } else {
                Kind::Fixed
            }),
    {
        if flags.order >= HUGE_ORDER {
            Kind::Huge
        } else if flags.movable {
            Kind::Movable
        } else {
            Kind::Fixed
        }
    }
}

/// The kind that the two-bit encoding `bits` stands for; unknown encodings
/// are `Fixed`.
pub open spec fn kind_of_bits(bits: u8) -> Kind {
    if bits == 1 {
        Kind::Movable
    } else if bits == 2 {
        Kind::Huge
    } else {
        Kind::Fixed
    }
}

/// The kinds are numbered 0, 1 and 2 in the order `Fixed`, `Movable`,
/// `Huge`; each is read back from its number, and every larger number
/// reads as `Fixed`.
pub proof fn law_kind_encoding(k: Kind, bits: u8)
    ensures
        (k == Kind::Fixed) == (k.value() == 0),
        (k == Kind::Movable) == (k.value() == 1),
        (k == Kind::Huge) == (k.value() == 2),
        kind_of_bits(k.value() as u8) == k,
        bits > 2 ==> kind_of_bits(bits) == Kind::Fixed,
{
}

/// Tree entry: number of free frames, whether a CPU reserved the tree and
/// which kind of frames it holds.
#[derive(Debug, Clone, Copy, PartialEq, Eq, Structural)]
pub struct Tree {
    free: usize,
    reserved: bool,
    kind: Kind,
}

/// Bit encoding of a tree entry: 29 bits of free counter, a reserved bit and
/// two kind bits.
pub open spec fn tree_bits(free: u64, reserved: bool, kind: u64) -> u64 {
    (free & 0x1fff_ffff) | (if reserved { 0x2000_0000u64 } else { 0u64 }) | (kind << 30u64)
}

impl Atomic for Tree {
    closed spec fn bits(self) -> u64 {
        tree_bits(self.free as u64, self.reserved, self.kind.value() as u64)
    }

    fn into_bits(self) -> (r: u64) {
        let r: u64 = if self.reserved { 0x2000_0000 } else { 0 };
        (self.free as u64 & 0x1fff_ffff) | r | ((self.kind.into_bits() as u64) << 30u64)
    }
}

impl Tree {
    /// Number of free frames.
    pub closed spec fn free_view(self) -> nat {
        self.free as nat
    }

    /// Whether the tree is reserved.
    pub closed spec fn reserved_view(self) -> bool {
        self.reserved
    }

    /// Kind of the tree.
    pub closed spec fn kind_view(self) -> Kind {
        self.kind
    }

    /// Entries with counters of at most a tree are equal when their bits are.
    pub proof fn lemma_bits_injective(a: Tree, b: Tree)
        requires
            a.free_view() <= TREE_FRAMES,
            b.free_view() <= TREE_FRAMES,
            a.bits() == b.bits(),
        ensures
            a == b,
    {
        let fa = a.free as u64;
        let fb = b.free as u64;
        let ka = a.kind.value() as u64;
        let kb = b.kind.value() as u64;
        let ra = a.reserved;
        let rb = b.reserved;
        assert(fa == fb && ra == rb && ka == kb) by (bit_vector)
            requires
                fa <= 4096,
                fb <= 4096,
                ka <= 2,
                kb <= 2,
                tree_bits(fa, ra, ka) == tree_bits(fb, rb, kb),
        ;
        assert(a.kind == b.kind);
    }

    /// Creates a new entry.
    pub fn with(free: usize, reserved: bool, kind: Kind) -> (r: Self)
        requires
            free <= TREE_FRAMES,
        ensures
            r.free_view() == free && r.reserved_view() == reserved && r.kind_view() == kind,
    {
        Tree { free, reserved, kind }
    }

    /// Number of free frames.
    pub fn free(self) -> (r: usize)
        ensures
            r == self.free_view(),
    {
        self.free
    }

    /// Whether the tree is reserved.
    pub fn reserved(self) -> (r: bool)
        ensures
            r == self.reserved_view(),
    {
        self.reserved
    }

    /// Kind of the tree.
    pub fn kind(self) -> (r: Kind)
        ensures
            r == self.kind_view(),
    {
        self.kind
    }

    /// The entry with another free counter.
    pub fn with_free(self, free: usize) -> (r: Self)
        requires
            free <= TREE_FRAMES,
        ensures
            r.free_view() == free && r.reserved_view() == self.reserved_view() && r.kind_view() == self.kind_view(),
    {
        Tree { free, reserved: self.reserved, kind: self.kind }
    }

    /// The entry with another reserved flag.
    pub fn with_reserved(self, reserved: bool) -> (r: Self)
        ensures
            r.free_view() == self.free_view() && r.reserved_view() == reserved && r.kind_view() == self.kind_view(),
    {
        Tree { free: self.free, reserved, kind: self.kind }
    }

    /// Increments the free frames counter.
    pub fn inc(self, free: usize) -> (r: Self)
        requires
            self.free_view() + free <= TREE_FRAMES,
        ensures
            r.free_view() == self.free_view() + free && r.reserved_view() == self.reserved_view() && r.kind_view() == self.kind_view(),
    {
        Tree { free: self.free + free, reserved: self.reserved, kind: self.kind }
    }

    /// Decrements the free counter of an unreserved entry with enough free
    /// frames, taking over the kind if this kind does not accept it.
    pub fn dec_force(self, free: usize, kind: Kind) -> (r: Option<Self>)
        ensures
            r is Some <==> !self.reserved_view() && self.free_view() >= free,
            r matches Some(t) ==> t.free_view() == self.free_view() - free && !t.reserved_view()
                && t.kind_view() == if self.kind_view().value() <= kind.value() { self.kind_view() } else { kind },
    {
        if !self.reserved && self.free >= free {
            let k = if !self.kind.accepts(kind) {
                kind
            } else {
                self.kind
            };
            Some(Tree { free: self.free - free, reserved: self.reserved, kind: k })
        } else {
            None
        }
    }

    /// Reserves this entry if its frame count is in `free` and it holds
    /// `kind` or is entirely free; the reserved entry counts no frames.
    pub fn reserve(self, free: core::ops::Range<usize>, kind: Kind) -> (r: Option<Self>)
        ensures
            r is Some <==> !self.reserved_view() && free.start <= self.free_view() < free.end && (kind == self.kind_view() || self.free_view() == TREE_FRAMES),
            r matches Some(t) ==> t.free_view() == 0 && t.reserved_view() && t.kind_view() == kind,
    {
        if !self.reserved && free.start <= self.free && self.free < free.end && (kind == self.kind || self.free == TREE_FRAMES) {
            Some(Self::with(0, true, kind))
        } else {
            None
        }
    }

    /// Add `free` frames to this reserved entry and unreserve it.
    pub fn unreserve_add(self, free: usize, kind: Kind) -> (r: Option<Self>)
        requires
            self.reserved_view() ==> self.free_view() + free <= TREE_FRAMES,
        ensures
            r is Some <==> self.reserved_view(),
            r matches Some(t) ==> t.free_view() == self.free_view() + free && !t.reserved_view() && t.kind_view() == kind,
    {
        if self.reserved {
            Some(Self::with(self.free + free, false, kind))
        } else {
            None
        }
    }

    /// Set the free counter of a reserved entry to zero if it is above `min`.
    pub fn sync_steal(self, min: usize) -> (r: Option<Self>)
        ensures
            r == self.sync_steal_result(min),
    {
        if self.reserved && self.free > min {
            let r = self.with_free(0);
            assert(r == self.with_free_view(0));
            Some(r)
        } else {
            None
        }
    }
}

/// Entry `j` as initialized by `tree_init`.
pub open spec fn init_ok<F: Fn(usize) -> usize>(tree_init: Option<F>, j: int, t: Tree) -> bool {
    &&& match tree_init {
        Some(f) => f.ensures(((j * TREE_FRAMES) as usize,), t.free_view() as usize),
        None => t.free_view() == 0,
    }
    &&& !t.reserved_view()
    &&& t.kind_view() == Kind::Fixed
}

/// The tree entries of the allocator.
pub struct Trees {
    /// Array of level 3 entries, which are the roots of the trees
    entries: Vec<Atom<Tree>>,
}

impl Trees {
    /// Minimum number of free frames of a tree worth reserving.
    pub const MIN_FREE: usize = 256;

    /// The entries.
    pub closed spec fn view(&self) -> Seq<Tree> {
        Seq::new(self.entries@.len(), |i: int| self.entries@[i]@)
    }

    /// The entries' counters are at most a tree and fit a `usize` when summed.
    pub closed spec fn wf(&self) -> bool {
        &&& self.entries@.len() * TREE_FRAMES <= usize::MAX
        &&& forall|i: int| 0 <= i < self.entries@.len() ==> (#[trigger] self.entries@[i])@.free_view() <= TREE_FRAMES
    }

    /// `n` entries, each initialized with `tree_init` of the first frame of
    /// its tree, as free frames of fixed kind; all zero without `tree_init`.
    pub fn new<F: Fn(usize) -> usize>(n: usize, tree_init: Option<F>) -> (r: Self)
        requires
            n * TREE_FRAMES <= usize::MAX,
            tree_init matches Some(f) ==> forall|i: usize| f.requires((i,)),
            tree_init matches Some(f) ==> forall|i: usize, v: usize| f.ensures((i,), v) ==> v <= TREE_FRAMES,
        ensures
            r.wf(),
            r@.len() == n,
            forall|i: int| 0 <= i < n ==> init_ok(tree_init, i, #[trigger] r@[i]),
    {
        let mut entries: Vec<Atom<Tree>> = Vec::new();
        let mut i: usize = 0;
        while i < n
            invariant
                i <= n,
                n * TREE_FRAMES <= usize::MAX,
                entries@.len() == i,
                tree_init matches Some(f) ==> forall|j: usize| f.requires((j,)),
                tree_init matches Some(f) ==> forall|j: usize, v: usize| f.ensures((j,), v) ==> v <= TREE_FRAMES,
                forall|j: int| 0 <= j < i ==> init_ok(tree_init, j, (#[trigger] entries@[j])@),
            decreases n - i,
        {
            let frames = match &tree_init {
                Some(f) => {
                    let v = f(i * TREE_FRAMES);
                    assert(f.ensures(((i * TREE_FRAMES) as usize,), v));
                    v
                },
                None => 0,
            };
            let ghost before = entries@;
            entries.push(Atom::new(Tree::with(frames, false, Kind::Fixed)));
            proof {
                assert(entries@[i as int]@.free_view() as usize == frames);
                assert forall|j: int| 0 <= j < i implies entries@[j] == before[j] by {}
                assert(init_ok(tree_init, i as int, entries@[i as int]@));
            }
            i = i + 1;
        }
        let r = Trees { entries };
        assert(r@.len() == n);
        assert forall|j: int| 0 <= j < n implies init_ok(tree_init, j, #[trigger] r@[j]) by {
            assert(r@[j] == r.entries@[j]@);
        }
        assert forall|j: int| 0 <= j < r.entries@.len() implies (#[trigger] r.entries@[j])@.free_view() <= TREE_FRAMES by {
            assert(r@[j] == r.entries@[j]@);
        }
        r
    }

    /// Number of trees.
    pub fn len(&self) -> (r: usize)
        ensures
            r == self@.len(),
    {
        self.entries.len()
    }

    /// Entry `i`.
    pub fn get(&self, i: usize) -> (r: Tree)
        requires
            i < self@.len(),
        ensures
            r == self@[i as int],
    {
        self.entries[i].load()
    }

    /// Sum of the free counters of the first `k` entries.
    pub open spec fn sum_free(&self, k: int) -> nat
        decreases k,
    {
        if k <= 0 {
            0
        } else {
            self.sum_free(k - 1) + self@[k - 1].free_view()
        }
    }

    proof fn lemma_sum_bounded(&self, k: int)
        requires
            0 <= k <= self@.len(),
            forall|i: int| 0 <= i < self@.len() ==> #[trigger] self@[i].free_view() <= TREE_FRAMES,
        ensures
            self.sum_free(k) <= k * TREE_FRAMES,
        decreases k,
    {
        if k > 0 {
            self.lemma_sum_bounded(k - 1);
        }
    }

    /// Return the total sum of the tree counters
    pub fn free_frames(&self) -> (r: usize)
        requires
            self.wf(),
        ensures
            r == self.sum_free(self@.len() as int),
    {
        let mut sum: usize = 0;
        let mut i: usize = 0;
        assert forall|j: int| 0 <= j < self@.len() implies #[trigger] self@[j].free_view() <= TREE_FRAMES by {
            assert(self.entries@[j]@.free_view() <= TREE_FRAMES);
        }
        while i < self.entries.len()
            invariant
                i <= self@.len(),
                self@.len() * TREE_FRAMES <= usize::MAX,
                forall|j: int| 0 <= j < self@.len() ==> #[trigger] self@[j].free_view() <= TREE_FRAMES,
                sum == self.sum_free(i as int),
            decreases self@.len() - i,
        {
            proof {
                self.lemma_sum_bounded(i + 1);
            }
            sum = sum + self.entries[i].load().free();
            i = i + 1;
        }
        sum
    }

    /// Sync with the global tree, stealing its counter if above `min`.
    pub fn sync(&mut self, i: usize, min: usize) -> (r: Option<Tree>)
        requires
            old(self).wf(),
            i < old(self)@.len(),
        ensures
            final(self).wf(),
            final(self)@ == (match old(self)@[i as int].sync_steal_result(min) {
                Some(n) => old(self)@.update(i as int, n),
                None => old(self)@,
            }),
            r == (if old(self)@[i as int].sync_steal_result(min) is Some { Some(old(self)@[i as int]) } else { None::<Tree> }),
    {
        let res = self.entries[i].fetch_update(|e: Tree| -> (r: Option<Tree>)
            ensures
                r == e.sync_steal_result(min),
            { e.sync_steal(min) });
        assert(self@ =~= match old(self)@[i as int].sync_steal_result(min) {
            Some(n) => old(self)@.update(i as int, n),
            None => old(self)@,
        });
        proof {
            assert forall|j: int| 0 <= j < self.entries@.len() implies (#[trigger] self.entries@[j])@.free_view() <= TREE_FRAMES by {
                if j == i {
                    if res is Ok {
                        old(self)@[j].lemma_with_free_view(0);
                    }
                } else {
                    assert(self.entries@[j] == old(self).entries@[j]);
                }
            }
        }
        match res {
            Ok(v) => Some(v),
            Err(_) => None,
        }
    }
}

impl Trees {
    /// Entry `t` after `free` frames were returned to it: reserved for the
    /// caller (counting no frames) if `may_reserve`, it is not reserved and
    /// then has more than `MIN_FREE` free frames.
    pub open spec fn inc_or_reserve_result(t: Tree, free: nat, may_reserve: bool) -> Tree {
        let v = t.with_free_view(t.free_view() + free);
        if may_reserve && !v.reserved_view() && v.free_view() > Self::MIN_FREE {
            v.with_free_view(0).with_reserved_view(true)
        } else {
            v
        }
    }

    /// Return `free` frames to tree `i`, reserving it if `may_reserve` and
    /// it now has more than `MIN_FREE` free frames; returns the previous
    /// entry.
    pub fn inc_or_reserve(&mut self, i: usize, free: usize, may_reserve: bool) -> (r: Option<Tree>)
        requires
            old(self).wf(),
            i < old(self)@.len(),
            old(self)@[i as int].free_view() + free <= TREE_FRAMES,
        ensures
            final(self).wf(),
            final(self)@ == old(self)@.update(i as int, Self::inc_or_reserve_result(old(self)@[i as int], free as nat, may_reserve)),
            r == Some(old(self)@[i as int]),
    {
        proof {
            assert(self.entries@[i as int]@ == self@[i as int]);
        }
        let res = self.entries[i].fetch_update(|v: Tree| -> (r: Option<Tree>)
            requires
                v.free_view() + free <= TREE_FRAMES,
            ensures
                r == Some(Self::inc_or_reserve_result(v, free as nat, may_reserve)),
            {
                let v = v.inc(free);
                if may_reserve && !v.reserved() && v.free() > Self::MIN_FREE {
                    let n = v.with_free(0).with_reserved(true);
                    proof {
                        v.lemma_with_free_view(0);
                    }
                    Some(n)
                } else {
                    Some(v)
                }
            });
        proof {
            self.lemma_updated(old(self), i as int);
        }
        match res {
            Ok(v) => Some(v),
            Err(_) => None,
        }
    }

    /// Entry `t` after unreserving it with the `free` frames of the
    /// reservation: unchanged if it is not reserved.
    pub open spec fn unreserve_result(t: Tree, free: nat, kind: Kind) -> Tree {
        if t.reserved_view() {
            t.with_free_view(t.free_view() + free).with_reserved_view(false).with_kind_view(kind)
        } else {
            t
        }
    }

    /// Unreserve tree `i`, adding the `free` frames of the reservation to its
    /// counter and giving it `kind`.
    pub fn unreserve(&mut self, i: usize, free: usize, kind: Kind)
        requires
            old(self).wf(),
            i < old(self)@.len(),
            old(self)@[i as int].reserved_view() ==> old(self)@[i as int].free_view() + free <= TREE_FRAMES,
        ensures
            final(self).wf(),
            final(self)@ == old(self)@.update(i as int, Self::unreserve_result(old(self)@[i as int], free as nat, kind)),
    {
        proof {
            assert(self.entries@[i as int]@ == self@[i as int]);
        }
        let _ = self.entries[i].fetch_update(|v: Tree| -> (r: Option<Tree>)
            requires
                v.reserved_view() ==> v.free_view() + free <= TREE_FRAMES,
            ensures
                r is Some <==> v.reserved_view(),
                r matches Some(n) ==> n == Self::unreserve_result(v, free as nat, kind),
            { v.unreserve_add(free, kind) });
        proof {
            self.lemma_updated(old(self), i as int);
        }
    }

    /// The entries equal those of `old` with entry `i` replaced, and all
    /// counters are at most a tree.
    proof fn lemma_updated(&self, old: &Trees, i: int)
        requires
            old.wf(),
            0 <= i < old@.len(),
            self.entries@.len() == old.entries@.len(),
            forall|j: int| 0 <= j < old.entries@.len() && j != i ==> self.entries@[j] == old.entries@[j],
            self.entries@[i]@.free_view() <= TREE_FRAMES,
        ensures
            self.wf(),
            self@ == old@.update(i, self.entries@[i]@),
    {
        assert(self@ =~= old@.update(i, self.entries@[i]@));
    }

    /// Iterate through all trees as long `f` returns `Error::Memory`,
    /// alternating after and before `start`: for `i` in `offset..len` the
    /// visited tree is `search_index(start, len, i)`. Returns the first
    /// result that is not `Error::Memory`.
    pub fn search<F: Fn(usize) -> Result<usize, Error>>(&self, start: usize, offset: usize, len: usize, f: F) -> (r: Result<usize, Error>)
        requires
            self@.len() > 0,
            start + self@.len() + len <= usize::MAX,
            (len + 1) / 2 <= start + self@.len(),
            forall|i: usize| i < self@.len() ==> f.requires((i,)),
        ensures
            r != Err::<usize, Error>(Error::Memory) ==> exists|i: int|
                offset <= i < len && f.ensures((search_index(start as int, self@.len() as int, i) as usize,), r) && forall|
                    k: int,
                | offset <= k < i ==> f.ensures(
                    (#[trigger] search_index(start as int, self@.len() as int, k) as usize,),
                    Err::<usize, Error>(Error::Memory),
                ),
            r == Err::<usize, Error>(Error::Memory) ==> forall|i: int| offset <= i < len ==> f.ensures(
                (#[trigger] search_index(start as int, self@.len() as int, i) as usize,),
                r,
            ),
    {
        let n = self.entries.len();
        assert(n == self@.len());
        let s = start + n;
        let mut i = offset;
        while i < len
            invariant
                n == self@.len() > 0,
                s == start + n,
                s + len <= usize::MAX,
                (len + 1) / 2 <= s,
                offset <= i,
                forall|k: usize| k < n ==> f.requires((k,)),
                forall|k: int| offset <= k < i && k < len ==> f.ensures(
                    (#[trigger] search_index(start as int, n as int, k) as usize,),
                    Err::<usize, Error>(Error::Memory),
                ),
            decreases len - i,
        {
            let j = if i % 2 == 0 {
                s + i / 2
            } else {
                s - (i + 1) / 2
            };
            let j = j % n;
            assert(j == search_index(start as int, n as int, i as int));
            match f(j) {
                Err(Error::Memory) => {},
                r => {
                    return r;
                },
            }
            i = i + 1;
        }
        Err(Error::Memory)
    }
}

/// Tree visited in step `i` of a search of `n` trees around `start`:
/// `start`, `start + 1`, `start - 1`, `start + 2`, ... modulo `n`.
pub open spec fn search_index(start: int, n: int, i: int) -> int {
    (if i % 2 == 0 {
        start + n + i / 2
    } else {
        start + n - (i + 1) / 2
    }) % n
}

impl Tree {
    /// What `sync_steal` returns.
    pub open spec fn sync_steal_result(self, min: usize) -> Option<Tree> {
        if self.reserved_view() && self.free_view() > min {
            Some(self.with_free_view(0))
        } else {
            None
        }
    }

    /// The entry with another free counter.
    pub closed spec fn with_free_view(self, free: nat) -> Tree {
        Tree { free: free as usize, reserved: self.reserved, kind: self.kind }
    }

    /// The entry with another reserved flag.
    pub closed spec fn with_reserved_view(self, reserved: bool) -> Tree {
        Tree { free: self.free, reserved, kind: self.kind }
    }

    /// The entry with another kind.
    pub closed spec fn with_kind_view(self, kind: Kind) -> Tree {
        Tree { free: self.free, reserved: self.reserved, kind }
    }

    /// Fields of an entry with another free counter.
    pub proof fn lemma_with_free_view(self, free: nat)
        requires
            free <= TREE_FRAMES,
        ensures
            self.with_free_view(free).free_view() == free,
            self.with_free_view(free).reserved_view() == self.reserved_view(),
            self.with_free_view(free).kind_view() == self.kind_view(),
    {
    }
}

} // verus!
