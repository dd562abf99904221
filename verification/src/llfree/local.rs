//! Core-local data: the reserved trees of a core and its recent frees.
use vstd::prelude::*;

use super::atomic::{Atom, Atomic};
use super::trees::Kind;
use super::TREE_FRAMES;

verus! {

/// Local copy of a reserved tree: the frame where allocation continues, the
/// free frames taken from the tree and whether a tree is reserved at all.
#[derive(Debug, Clone, Copy, PartialEq, Eq, Structural)]
pub struct LocalTree {
    frame: usize,
    free: usize,
    present: bool,
}

impl Atomic for LocalTree {
    closed spec fn bits(self) -> u64 {
        (self.frame as u64 & 0xffff_ffff_ffff) | ((self.free as u64 & 0x7fff) << 48u64) | (if self.present {
            0x8000_0000_0000_0000u64
        } else {
            0u64
        })
    }

    fn into_bits(self) -> (r: u64) {
        let p: u64 = if self.present { 0x8000_0000_0000_0000 } else { 0 };
        (self.frame as u64 & 0xffff_ffff_ffff) | ((self.free as u64 & 0x7fff) << 48u64) | p
    }
}

impl LocalTree {
    /// Frame where the next allocation starts.
    pub closed spec fn frame_view(self) -> nat {
        self.frame as nat
    }

    /// Free frames of the reservation.
    pub closed spec fn free_view(self) -> nat {
        self.free as nat
    }

    /// A tree is reserved.
    pub closed spec fn present_view(self) -> bool {
        self.present
    }

    /// A reservation starting at `frame` with `free` frames.
    pub fn with(frame: usize, free: usize) -> (r: Self)
        requires
            frame < 0x1_0000_0000_0000,
            free < 0x8000,
        ensures
            r.frame_view() == frame && r.free_view() == free && r.present_view(),
    {
        LocalTree { frame, free, present: true }
    }

    /// No reservation.
    pub fn none() -> (r: Self)
        ensures
            r.frame_view() == 0 && r.free_view() == 0 && !r.present_view(),
    {
        LocalTree { frame: 0, free: 0, present: false }
    }

    /// Frame where the next allocation starts.
    pub fn frame(self) -> (r: usize)
        ensures
            r == self.frame_view(),
    {
        self.frame
    }

    /// Free frames of the reservation.
    pub fn free(self) -> (r: usize)
        ensures
            r == self.free_view(),
    {
        self.free
    }

    /// A tree is reserved.
    pub fn present(self) -> (r: bool)
        ensures
            r == self.present_view(),
    {
        self.present
    }

    /// Take `free` frames from the reservation, if there are enough.
    pub fn dec(self, free: usize) -> (r: Option<Self>)
        ensures
            r is Some <==> self.present_view() && self.free_view() >= free,
            r matches Some(t) ==> t.free_view() == self.free_view() - free && t.frame_view() == self.frame_view() && t.present_view(),
    {
        if self.present {
            if self.free >= free {
                Some(LocalTree { frame: self.frame, free: self.free - free, present: true })
            } else {
                None
            }
        } else {
            None
        }
    }

    /// Return `free` frames at `frame` to the reservation if `frame` is in
    /// the reserved tree.
    pub fn inc(self, frame: usize, free: usize) -> (r: Option<Self>)
        requires
            self.present_view() && self.frame_view() / (TREE_FRAMES as nat) == frame / TREE_FRAMES ==> self.free_view() + free <= TREE_FRAMES,
        ensures
            r is Some <==> self.present_view() && self.frame_view() / (TREE_FRAMES as nat) == frame / TREE_FRAMES,
            r matches Some(t) ==> t.free_view() == self.free_view() + free && t.frame_view() == self.frame_view() && t.present_view(),
    {
        if self.present && self.frame / TREE_FRAMES == frame / TREE_FRAMES {
            Some(LocalTree { frame: self.frame, free: self.free + free, present: true })
        } else {
            None
        }
    }

    /// Move the start of the next allocation to `frame` if it is in the
    /// reserved tree or `force` is set.
    pub fn set_start(self, frame: usize, force: bool) -> (r: Option<Self>)
        ensures
            r is Some <==> force || (self.present_view() && self.frame_view() / (TREE_FRAMES as nat) == frame / TREE_FRAMES),
            r matches Some(t) ==> t.frame_view() == frame && t.free_view() == self.free_view() && t.present_view() == self.present_view(),
    {
        if force || (self.present && self.frame / TREE_FRAMES == frame / TREE_FRAMES) {
            Some(LocalTree { frame, free: self.free, present: self.present })
        } else {
            None
        }
    }

    /// Give up the reservation if it has at least `free` frames.
    pub fn steal(self, free: usize) -> (r: Option<Self>)
        ensures
            r is Some <==> self.present_view() && self.free_view() >= free,
            r matches Some(t) ==> !t.present_view() && t.free_view() == 0 && t.frame_view() == 0,
    {
        if self.present && self.free >= free {
            Some(Self::none())
        } else {
            None
        }
    }
}

/// History of recent frees: the tree of the last frees and how many of them
/// went to it in a row.
#[derive(Debug, Clone, Copy, PartialEq, Eq, Structural)]
pub struct FreeHistory {
    idx: usize,
    counter: usize,
}

impl Atomic for FreeHistory {
    closed spec fn bits(self) -> u64 {
        (self.idx as u64 & 0xffff_ffff_ffff) | ((self.counter as u64 & 0xffff) << 48u64)
    }

    fn into_bits(self) -> (r: u64) {
        (self.idx as u64 & 0xffff_ffff_ffff) | ((self.counter as u64 & 0xffff) << 48u64)
    }
}

impl FreeHistory {
    /// Threshold for the number of frees after which a tree is reserved
    pub const F: usize = 4;

    /// Tree of the last frees.
    pub closed spec fn idx_view(self) -> nat {
        self.idx as nat
    }

    /// Number of further frees that went to that tree.
    pub closed spec fn counter_view(self) -> nat {
        self.counter as nat
    }

    /// An empty history.
    pub fn new() -> (r: Self)
        ensures
            r.idx_view() == 0 && r.counter_view() == 0,
    {
        FreeHistory { idx: 0, counter: 0 }
    }

    /// Add a tree index to the history, returning if there were enough frees
    /// to that tree already.
    pub fn push(&mut self, tree_idx: usize) -> (r: bool)
        requires
            tree_idx < 0x1_0000_0000_0000,
            old(self).counter_view() <= Self::F,
        ensures
            final(self).counter_view() <= Self::F,
            (final(self).idx_view(), final(self).counter_view(), r) == push_step(old(self).idx_view(), old(self).counter_view(), tree_idx as nat),
    {
        if self.idx == tree_idx {
            if self.counter >= Self::F {
                return true;
            }
            self.counter = self.counter + 1;
        } else {
            self.idx = tree_idx;
            self.counter = 0;
        }
        false
    }
}

/// History `(idx, counter)` after a free to tree `tree`, and whether
/// `F` further frees had gone to that tree already: the counter grows while
/// frees go to the same tree, up to `F`, and restarts at another tree.
pub open spec fn push_step(idx: nat, counter: nat, tree: nat) -> (nat, nat, bool) {
    if idx == tree {
        if counter >= FreeHistory::F {
            (idx, counter, true)
        } else {
            (tree, counter + 1, false)
        }
    } else {
        (tree, 0, false)
    }
}

/// History after `k` frees to tree `tree`.
pub open spec fn pushes(idx: nat, counter: nat, tree: nat, k: nat) -> (nat, nat)
    decreases k,
{
    if k == 0 {
        (idx, counter)
    } else {
        let (i, c) = pushes(idx, counter, tree, (k - 1) as nat);
        let (i2, c2, _) = push_step(i, c, tree);
        (i2, c2)
    }
}

/// Whatever the history, once `F + 1` frees in a row went to the same tree
/// every further free to it reports that the tree should be reserved.
pub proof fn law_repeated_frees_reserve(idx: nat, counter: nat, tree: nat, k: nat)
    requires
        k >= FreeHistory::F + 1,
    ensures
        push_step(pushes(idx, counter, tree, k).0, pushes(idx, counter, tree, k).1, tree).2,
{
    lemma_pushes(idx, counter, tree, k);
}

proof fn lemma_pushes(idx: nat, counter: nat, tree: nat, k: nat)
    requires
        k >= 1,
    ensures
        pushes(idx, counter, tree, k).0 == tree,
        pushes(idx, counter, tree, k).1 >= if k - 1 <= FreeHistory::F { k - 1 } else { FreeHistory::F as int },
    decreases k,
{
    if k > 1 {
        lemma_pushes(idx, counter, tree, (k - 1) as nat);
    }
}

/// Core-local data
pub struct Local {
    /// Reserved trees for each kind
    preferred: [Atom<LocalTree>; 3],
    /// Recent frees
    frees: Atom<FreeHistory>,
}

impl Local {
    /// The reservation for each kind.
    pub closed spec fn preferred_view(&self, kind: Kind) -> LocalTree {
        self.preferred@[kind.value() as int]@
    }

    /// The history of frees.
    pub closed spec fn frees_view(&self) -> FreeHistory {
        self.frees@
    }

    /// No reservations and an empty history.
    pub fn new() -> (r: Self)
        ensures
            forall|k: Kind| !(#[trigger] r.preferred_view(k)).present_view(),
            r.frees_view().idx_view() == 0 && r.frees_view().counter_view() == 0,
    {
        Local {
            preferred: [Atom::new(LocalTree::none()), Atom::new(LocalTree::none()), Atom::new(LocalTree::none())],
            frees: Atom::new(FreeHistory::new()),
        }
    }

    /// The reservation for `kind`.
    pub fn preferred(&self, kind: Kind) -> (r: &Atom<LocalTree>)
        ensures
            r@ == self.preferred_view(kind),
    {
        &self.preferred[kind.index()]
    }

    /// Add a tree index to the history, returning if there were enough frees
    /// to that tree already.
    pub fn frees_push(&mut self, tree_idx: usize) -> (r: bool)
        requires
            tree_idx < 0x1_0000_0000_0000,
            old(self).frees_view().counter_view() <= FreeHistory::F,
        ensures
            final(self).frees_view().counter_view() <= FreeHistory::F,
            forall|k: Kind| #[trigger] final(self).preferred_view(k) == old(self).preferred_view(k),
            (final(self).frees_view().idx_view(), final(self).frees_view().counter_view(), r) == push_step(
                old(self).frees_view().idx_view(),
                old(self).frees_view().counter_view(),
                tree_idx as nat,
            ),
    {
        let mut v = self.frees.load();
        let success = v.push(tree_idx);
        self.frees.store(v);
        success
    }
}

impl Default for Local {
    fn default() -> (r: Self)
        ensures
            forall|k: Kind| !(#[trigger] r.preferred_view(k)).present_view(),
            r.frees_view().idx_view() == 0 && r.frees_view().counter_view() == 0,
    {
        Local::new()
    }
}

} // verus!
