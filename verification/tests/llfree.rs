use tau_supervisor::llfree::atomic::Atom;
use tau_supervisor::llfree::id::{FrameId, HugeId, RowId, TreeId};
use tau_supervisor::llfree::local::{FreeHistory, Local, LocalTree};
use tau_supervisor::llfree::lower::{Allocator, HugeEntry, Lower};
use tau_supervisor::llfree::trees::{Kind, Tree, Trees};
use tau_supervisor::llfree::util::spin_wait;
use tau_supervisor::llfree::{Error, Flags};

fn lower(frames: usize) -> Lower {
    let mut allocator = Allocator::new(frames, 0x40).unwrap();
    allocator.free_all();
    allocator.into_lower()
}

#[test]
fn id_conversions() {
    assert_eq!(FrameId(4097).as_tree(), TreeId(1));
    assert_eq!(FrameId(1000).as_huge(), HugeId(1));
    assert_eq!(FrameId(130).as_row(), RowId(2));
    assert_eq!(FrameId(130).row_bit_idx(), 2);
    assert!(FrameId(1024).is_aligned(10));
    assert!(!FrameId(1024 + 512).is_aligned(10));
    assert_eq!(RowId(9).as_huge(), HugeId(1));
    assert_eq!(RowId(9).huge_idx(), 1);
    assert_eq!(RowId(65).as_tree(), TreeId(1));
    assert_eq!(RowId(3).as_frame(), Some(FrameId(192)));
    assert_eq!(HugeId(9).child_idx(), 1);
    assert_eq!(HugeId(9).as_tree(), TreeId(1));
    assert_eq!(HugeId(2).as_frame(), Some(FrameId(1024)));
    assert_eq!(TreeId(2).as_frame(), Some(FrameId(8192)));
    assert_eq!(TreeId(usize::MAX).as_frame(), None);
}

#[test]
fn atom_operations() {
    let mut a = Atom::new(5u64);
    assert_eq!(a.load(), 5);
    assert_eq!(a.swap(7), 5);
    assert_eq!(a.compare_exchange(5, 9), Err(7));
    assert_eq!(a.compare_exchange(7, 9), Ok(7));
    assert_eq!(a.fetch_update(|v| if v > 8 { Some(v + 1) } else { None }), Ok(9));
    assert_eq!(a.load(), 10);
    assert_eq!(a.fetch_update(|_| None), Err(10));
    assert_eq!(a.fetch_or(0b101), 10);
    assert_eq!(a.fetch_and(0b1100), 0b1111);
    assert_eq!(a.load(), 0b1100);
    a.store(1);
    assert_eq!(a.load(), 1);
}

#[test]
fn tree_entries() {
    let t = Tree::with(100, false, Kind::Fixed);
    assert_eq!(t.inc(28).free(), 128);
    assert_eq!(t.dec_force(50, Kind::Movable).map(|t| (t.free(), t.kind())), Some((50, Kind::Fixed)));
    assert_eq!(Tree::with(100, false, Kind::Huge).dec_force(50, Kind::Fixed).map(|t| t.kind()), Some(Kind::Fixed));
    assert!(t.dec_force(101, Kind::Fixed).is_none());
    assert!(t.with_reserved(true).dec_force(1, Kind::Fixed).is_none());
    let r = t.reserve(64..256, Kind::Fixed).unwrap();
    assert_eq!((r.free(), r.reserved()), (0, true));
    assert!(t.reserve(0..64, Kind::Fixed).is_none());
    assert!(t.reserve(64..256, Kind::Movable).is_none());
    assert!(Tree::with(4096, false, Kind::Fixed).reserve(0..5000, Kind::Huge).is_some());
    let u = r.unreserve_add(100, Kind::Movable).unwrap();
    assert_eq!((u.free(), u.reserved(), u.kind()), (100, false, Kind::Movable));
    assert!(t.unreserve_add(1, Kind::Fixed).is_none());
    assert_eq!(r.with_free(300).sync_steal(200).map(|t| t.free()), Some(0));
    assert!(r.with_free(100).sync_steal(200).is_none());
}

#[test]
fn kinds() {
    assert!(Kind::Fixed.accepts(Kind::Huge));
    assert!(!Kind::Huge.accepts(Kind::Movable));
    assert_eq!(Kind::from_flags(Flags::o(9)), Kind::Huge);
    assert_eq!(Kind::from_flags(Flags { order: 0, movable: true }), Kind::Movable);
    assert_eq!(Kind::from_flags(Flags::o(3)), Kind::Fixed);
    assert_eq!(Kind::from_usize(2), Kind::Huge);
    assert_eq!(Kind::from_usize(7), Kind::Fixed);
}

#[test]
fn trees_counters() {
    let mut trees = Trees::new(4, Some(|start: usize| if start == 0 { 4096 } else { 100 }));
    assert_eq!(trees.len(), 4);
    assert_eq!(trees.get(0).free(), 4096);
    assert_eq!(trees.free_frames(), 4096 + 300);
    // returning frames to a tree reserves it once it has enough
    assert_eq!(trees.inc_or_reserve(1, 50, false).map(|t| t.free()), Some(100));
    assert_eq!(trees.get(1).free(), 150);
    assert_eq!(trees.inc_or_reserve(1, 200, true).map(|t| t.free()), Some(150));
    assert_eq!((trees.get(1).free(), trees.get(1).reserved()), (0, true));
    trees.unreserve(1, 350, Kind::Movable);
    assert_eq!((trees.get(1).free(), trees.get(1).reserved(), trees.get(1).kind()), (350, false, Kind::Movable));
    // unreserving a tree that is not reserved changes nothing
    trees.unreserve(2, 10, Kind::Huge);
    assert_eq!((trees.get(2).free(), trees.get(2).kind()), (100, Kind::Fixed));
    let empty = Trees::new(2, None::<fn(usize) -> usize>);
    assert_eq!(empty.free_frames(), 0);
}

#[test]
fn trees_sync() {
    let mut trees = Trees::new(2, Some(|_: usize| 300));
    assert!(trees.sync(0, 10).is_none());
    trees.inc_or_reserve(0, 0, true);
    trees.inc_or_reserve(0, 20, false);
    assert_eq!(trees.sync(0, 10).map(|t| t.free()), Some(20));
    assert_eq!(trees.get(0).free(), 0);
}

#[test]
fn trees_search_alternates() {
    let trees = Trees::new(5, None::<fn(usize) -> usize>);
    // the 5th visited tree answers
    let r = trees.search(1, 0, 5, |i| if i == 4 { Ok(i) } else { Err(Error::Memory) });
    assert_eq!(r, Ok(4));
    // visiting order around 1: 1, 2, 0, 3, 4
    let r = trees.search(1, 0, 5, |i| if i == 0 { Ok(100) } else { Err(Error::Memory) });
    assert_eq!(r, Ok(100));
    let r = trees.search(1, 0, 5, |_| Err(Error::Memory));
    assert_eq!(r, Err(Error::Memory));
    let r = trees.search(1, 0, 5, |i| if i == 2 { Err(Error::Retry) } else { Err(Error::Memory) });
    assert_eq!(r, Err(Error::Retry));
    // an offset skips the start: the first tree visited is the one before it
    let r = trees.search(3, 1, 2, |i| Ok(i));
    assert_eq!(r, Ok(2));
}

#[test]
fn local_trees() {
    let t = LocalTree::with(4096, 10);
    assert_eq!(t.dec(4).map(|t| t.free()), Some(6));
    assert!(t.dec(11).is_none());
    assert!(LocalTree::none().dec(0).is_none());
    assert_eq!(t.inc(5000, 3).map(|t| t.free()), Some(13));
    assert!(t.inc(100, 3).is_none());
    assert_eq!(t.set_start(4100, false).map(|t| t.frame()), Some(4100));
    assert!(t.set_start(100, false).is_none());
    assert_eq!(t.set_start(100, true).map(|t| t.frame()), Some(100));
    assert_eq!(t.steal(10).map(|t| t.present()), Some(false));
    assert!(t.steal(11).is_none());
}

#[test]
fn free_history_reserves_after_repeated_frees() {
    let mut h = FreeHistory::new();
    assert!(!h.push(3));
    for _ in 0..FreeHistory::F {
        assert!(!h.push(3));
    }
    assert!(h.push(3));
    assert!(!h.push(4));
    let mut local = Local::new();
    assert!(!local.preferred(Kind::Fixed).load().present());
    assert!(!local.frees_push(1));
}

#[test]
fn huge_entries() {
    assert_eq!(HugeEntry::new_with(512).free(), 512);
    assert!(HugeEntry::new_huge().huge());
    assert_eq!(HugeEntry::new_with(512).mark_huge(), Some(HugeEntry::new_huge()));
    assert_eq!(HugeEntry::new_with(511).mark_huge(), None);
    assert_eq!(HugeEntry::new_with(10).dec(4), Some(HugeEntry::new_with(6)));
    assert_eq!(HugeEntry::new_with(10).dec(11), None);
    assert_eq!(HugeEntry::new_with(510).inc(2), Some(HugeEntry::new_with(512)));
    assert_eq!(HugeEntry::new_with(511).inc(2), None);
}

#[test]
fn allocator_setup() {
    assert!(Allocator::expected_size(4096).is_some());
    assert!(Allocator::new(4096, 0).is_none());
    assert!(Allocator::new(4096, 0x41).is_none());
    assert!(Allocator::new(4096, usize::MAX - 0x3f).is_none());
    let mut allocator = Allocator::new(1024, 0x40).unwrap();
    allocator.reserve_all();
    assert!(!allocator.as_lower().is_free(FrameId(0), 0));
    let mut lower = allocator.into_lower();
    assert_eq!(lower.put(0, FrameId(512), 9), Ok(()));
    assert!(lower.is_free(FrameId(512), 9));
    assert_eq!(lower.put(0, FrameId(0), 0), Ok(()));
    assert_eq!(lower.stats().free_frames, 513);
}

#[test]
fn lower_get_in_tree() {
    let mut lower = lower(8192);
    assert_eq!(lower.get(RowId(64), 0), Ok(FrameId(4096)));
    assert_eq!(lower.get(RowId(64), 0), Ok(FrameId(4097)));
    assert_eq!(lower.get(RowId(200), 0), Err(Error::InvalidArgument));
    assert_eq!(lower.get(RowId(0), 11), Err(Error::OrderNotSuported));
    let s = lower.stats_at(FrameId(4096), 9).unwrap();
    assert_eq!((s.free_frames, s.free_huge), (510, 0));
    let s = lower.stats_at(FrameId(0), 12).unwrap();
    assert_eq!((s.free_frames, s.free_huge, s.free_trees), (4096, 8, 1));
    assert_eq!(lower.stats_at(FrameId(4096), 0).unwrap().free_frames, 0);
    assert_eq!(lower.stats_at(FrameId(8192), 0), Err(Error::Address));
}

#[test]
fn spin_wait_counts_attempts() {
    assert!(spin_wait(3, || true));
    assert!(!spin_wait(3, || false));
    assert!(!spin_wait(0, || true));
}
