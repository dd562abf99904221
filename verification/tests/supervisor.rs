use tau_supervisor::llfree::id::FrameId;
use tau_supervisor::llfree::lower::{Allocator, Lower};
use tau_supervisor::llfree::Error;
use tau_supervisor::module::{Dependency, DependenciesTable, Invocation, InvocationsTable, ModuleTables};
use tau_supervisor::sbi::{to_hex, SbiError};
use tau_supervisor::scheduler::Thread;
use tau_supervisor::image::{plan_image, plan_segments, segment_mapping, InitError, Segment, PF_R, PF_W, PF_X, PT_LOAD};
use tau_supervisor::state::{user_mapping, Context};
use tau_supervisor::vmem::{fill_stem, flags_new, map_leaves, map_step, stem_range, Mapping, Root};

fn invocation(satp: usize, sepc: usize, sp: usize) -> Invocation {
    Invocation { satp: Root::new(satp).unwrap(), sepc, sp }
}

fn lower(frames: usize) -> Lower {
    let mut allocator = Allocator::new(frames, 0x1000).unwrap();
    allocator.free_all();
    allocator.into_lower()
}

#[test]
fn sbi_error_codes() {
    assert_eq!(SbiError::from_code((0, 42)), Ok(42));
    assert_eq!(SbiError::from_code((-1, 42)), Err(SbiError::Failed));
    assert_eq!(SbiError::from_code((-2, 0)), Err(SbiError::NotSupported));
    assert_eq!(SbiError::from_code((-3, 0)), Err(SbiError::InvalidParam));
    assert_eq!(SbiError::from_code((-4, 0)), Err(SbiError::Denied));
    assert_eq!(SbiError::from_code((-5, 0)), Err(SbiError::InvalidAddress));
    assert_eq!(SbiError::from_code((-6, 0)), Err(SbiError::AlreadyAvailable));
    assert_eq!(SbiError::from_code((-7, 0)), Err(SbiError::AlreadyStarted));
    assert_eq!(SbiError::from_code((-8, 0)), Err(SbiError::AlreadyStopped));
    assert_eq!(SbiError::from_code((-9, 0)), Err(SbiError::Unknown));
    assert_eq!(SbiError::from_code((1, 0)), Err(SbiError::Unknown));
}

#[test]
fn hex_digits() {
    assert_eq!(&to_hex(0x0123_4567_89ab_cdef), b"0123456789abcdef");
    assert_eq!(&to_hex(0), b"0000000000000000");
    assert_eq!(&to_hex(usize::MAX), b"ffffffffffffffff");
}

#[test]
fn page_table_flags() {
    assert_eq!(flags_new(b"-----"), 0b1100_0001);
    assert_eq!(flags_new(b"r----"), 0b1100_0011);
    assert_eq!(flags_new(b"rw--g"), 0b1110_0111);
    assert_eq!(flags_new(b"rwxug"), 0b1111_1111);
    assert_eq!(flags_new(b"---u-"), 0b1101_0001);
}

#[test]
fn sv39_root_roundtrip() {
    let root = Root::sv39(0x8020_3000, 0x1234);
    assert_eq!(root.get(), (8 << 60) | (0x1234 << 44) | 0x80203);
    assert_eq!(root.asid(), 0x1234);
    assert_eq!(root.page(), 0x8020_3000);
    assert!(Root::new(0).is_none());
    assert_eq!(Root::new(7).map(|r| r.get()), Some(7));
}

#[test]
fn mapping_default_is_empty() {
    let m = Mapping::default();
    assert_eq!(m.addr_virtual, 0);
    assert_eq!(m.virtual_pages, 0);
    assert_eq!(m.addr_physical, None);
    assert_eq!(m.physical_pages, 0);
    assert_eq!(m.flags, [0; 5]);
}

#[test]
fn thread_hart_id() {
    let mut thread = Thread { registers: [5; 64], sepc: 9 };
    thread.set_hart_id(3);
    assert_eq!(thread.hart_id(), 3);
    assert_eq!(thread.registers[1], 5);
    assert_eq!(thread.sepc, 9);
}

#[test]
fn invocations_free_list_in_order() {
    let mut table = InvocationsTable::new();
    assert!(table.get(1).is_none());
    // without init the head is slot 0, which points to itself
    table.init();
    for expected in 1u16..0x400 {
        assert_eq!(table.insert(invocation(expected as usize, 2, 3)), Some(expected));
    }
    assert_eq!(table.insert(invocation(1, 2, 3)), None);
}

#[test]
fn invocations_insert_get_remove() {
    let mut table = InvocationsTable::new();
    table.init();
    let a = table.insert(invocation(0x8000_0000_0000_1000, 0x40, 0x80)).unwrap();
    let b = table.insert(invocation(0x8000_0000_0000_2000, 0x44, 0x84)).unwrap();
    assert_eq!((a, b), (1, 2));
    let got = table.get(a).unwrap();
    assert_eq!((got.satp.get(), got.sepc, got.sp), (0x8000_0000_0000_1000, 0x40, 0x80));
    table.remove(a);
    assert!(table.get(a).is_none());
    assert!(table.get(b).is_some());
    // a removed slot is the next one handed out
    assert_eq!(table.insert(invocation(9, 9, 9)), Some(a));
    assert_eq!(table.insert(invocation(9, 9, 9)), Some(3));
    assert!(table.get(0x400).is_none());
    assert!(table.get(u16::MAX).is_none());
}

#[test]
fn dependencies_put_get() {
    let mut table = DependenciesTable::new();
    assert_eq!(table.get(5), Some(Dependency { stem: 0, sepc: 0 }));
    table.put(5, Dependency { stem: 7, sepc: 8 });
    assert_eq!(table.get(5), Some(Dependency { stem: 7, sepc: 8 }));
    assert_eq!(table.get(4), Some(Dependency { stem: 0, sepc: 0 }));
    table.put(0x200, Dependency { stem: 1, sepc: 1 });
    assert_eq!(table.get(0x200), None);
    assert_eq!(table.get(0x1ff), Some(Dependency { stem: 0, sepc: 0 }));
}

#[test]
fn module_tables_start_empty() {
    let tables = ModuleTables::new();
    assert!(tables.invocations.get(0).is_none());
    assert_eq!(tables.dependencies.get(0), Some(Dependency { stem: 0, sepc: 0 }));
}

#[test]
fn lower_get_at_then_put_restores() {
    let mut lower = lower(4096);
    assert!(lower.is_free(FrameId(8), 3));
    assert_eq!(lower.get_at(FrameId(8), 3), Ok(()));
    assert!(!lower.is_free(FrameId(8), 3));
    assert!(!lower.is_free(FrameId(12), 0));
    assert!(lower.is_free(FrameId(16), 0));
    assert_eq!(lower.get_at(FrameId(8), 0), Err(Error::Address));
    assert_eq!(lower.put(0, FrameId(8), 3), Ok(()));
    assert!(lower.is_free(FrameId(8), 3));
    assert_eq!(lower.stats().free_frames, 4096);
    // freeing twice is refused
    assert_eq!(lower.put(0, FrameId(8), 3), Err(Error::Address));
}

#[test]
fn lower_errors() {
    let mut lower = lower(1000);
    assert_eq!(lower.get_at(FrameId(0), 11), Err(Error::OrderNotSuported));
    assert_eq!(lower.get_at(FrameId(1), 1), Err(Error::Address));
    assert_eq!(lower.get_at(FrameId(1000), 0), Err(Error::Address));
    assert_eq!(lower.put(0, FrameId(0), 11), Err(Error::OrderNotSuported));
    assert_eq!(lower.put(0, FrameId(0), 0), Err(Error::Address));
    assert!(!lower.is_free(FrameId(999), 1));
    assert!(lower.is_free(FrameId(998), 1));
}

#[test]
fn lower_stats_count_free_frames() {
    let mut lower = lower(1000);
    let s = lower.stats();
    assert_eq!((s.free_frames, s.free_huge, s.free_trees), (1000, 1, 0));
    let huge = lower.alloc_frames(0, 9).unwrap();
    assert_eq!(huge, FrameId(0));
    assert_eq!(lower.stats().free_frames, 1000 - 512);
    // the second huge frame is only partly managed
    assert_eq!(lower.alloc_frames(0, 9), Err(Error::Memory));
    let frame = lower.alloc_frames(0, 0).unwrap();
    assert!(!lower.is_free(frame, 0));
    assert_eq!(lower.stats().free_frames, 1000 - 512 - 1);
    assert_eq!(lower.put(0, huge, 9), Ok(()));
    assert_eq!(lower.stats().free_frames, 999);
}

#[test]
fn lower_full_tree() {
    let mut lower = lower(8192);
    let s = lower.stats();
    assert_eq!((s.free_frames, s.free_huge, s.free_trees), (8192, 16, 2));
    let a = lower.alloc_frames(1, 10).unwrap();
    assert_eq!(a.0 % 1024, 0);
    assert_eq!(lower.stats().free_huge, 14);
}

#[test]
fn context_pages() {
    let mut context = Context { allocator: lower(64), base_addr: 0x8000_0000 };
    let mut pages = Vec::new();
    for _ in 0..64 {
        let page = context.page(0).unwrap();
        assert_eq!((page - 0x8000_0000) % 0x1000, 0);
        assert!(page < 0x8000_0000 + 64 * 0x1000);
        assert!(!pages.contains(&page));
        pages.push(page);
    }
    assert_eq!(context.page(0), Err(Error::Memory));
    assert_eq!(context.free(0, pages[3]), Ok(()));
    assert_eq!(context.free(0, pages[3]), Err(Error::Address));
    assert_eq!(context.page(1), Ok(pages[3]));
    assert_eq!(context.free(0, 0x8000_0000 + 64 * 0x1000), Err(Error::Memory));
}

#[test]
fn elf_segment_mappings() {
    let m = segment_mapping(0x1_0123, 0x2000, 0x5123, 0x1000, PF_R | PF_X, 0x8000_0000);
    assert_eq!(m.addr_virtual, 0x1_0000);
    assert_eq!(m.virtual_pages, 3);
    assert_eq!(m.addr_physical, Some(0x8000_5000));
    assert_eq!(m.physical_pages, 2);
    assert_eq!(&m.flags, b"r-xu-");
    let m = segment_mapping(0x2000, 0x1000, 0, 0, PF_R | PF_W, 0);
    assert_eq!((m.virtual_pages, m.physical_pages, m.addr_physical), (1, 0, None));
    assert_eq!(&m.flags, b"rw-u-");
}

#[test]
fn user_page_mappings() {
    let m = user_mapping(Some(0x9000_0000), 0x4000, 3);
    assert_eq!((m.addr_virtual, m.virtual_pages, m.addr_physical, m.physical_pages), (0x4000, 3, Some(0x9000_0000), 3));
    assert_eq!(&m.flags, b"rw-u-");
    let m = user_mapping(None, 0x4000, 3);
    assert_eq!((m.addr_physical, m.physical_pages), (None, 0));
}

fn push_u16(v: &mut Vec<u8>, x: u16) {
    v.extend_from_slice(&x.to_le_bytes());
}

fn push_u32(v: &mut Vec<u8>, x: u32) {
    v.extend_from_slice(&x.to_le_bytes());
}

fn push_u64(v: &mut Vec<u8>, x: u64) {
    v.extend_from_slice(&x.to_le_bytes());
}

/// A little-endian 64-bit ELF image with the program headers
/// `(type, flags, offset, vaddr, filesz, memsz)`.
fn elf_image(entry: u64, headers: &[(u32, u32, u64, u64, u64, u64)]) -> Vec<u8> {
    let mut v = vec![0x7f, b'E', b'L', b'F', 2, 1, 1, 0, 0, 0, 0, 0, 0, 0, 0, 0];
    push_u16(&mut v, 2); // executable
    push_u16(&mut v, 0xf3); // RISC-V
    push_u32(&mut v, 1);
    push_u64(&mut v, entry);
    push_u64(&mut v, 64); // program headers right after this header
    push_u64(&mut v, 0); // no section headers
    push_u32(&mut v, 0);
    push_u16(&mut v, 64);
    push_u16(&mut v, 56);
    push_u16(&mut v, headers.len() as u16);
    push_u16(&mut v, 64);
    push_u16(&mut v, 0);
    push_u16(&mut v, 0);
    for &(p_type, p_flags, p_offset, p_vaddr, p_filesz, p_memsz) in headers {
        push_u32(&mut v, p_type);
        push_u32(&mut v, p_flags);
        push_u64(&mut v, p_offset);
        push_u64(&mut v, p_vaddr);
        push_u64(&mut v, p_vaddr);
        push_u64(&mut v, p_filesz);
        push_u64(&mut v, p_memsz);
        push_u64(&mut v, 0x1000);
    }
    v
}

#[test]
fn image_plan_from_elf() {
    let data = elf_image(
        0x4010,
        &[
            (PT_LOAD, PF_R | PF_X, 0x1000, 0x1000, 0x1800, 0x2000),
            (4, PF_R, 0x100, 0x0, 0x10, 0x10),
            (PT_LOAD, PF_R | PF_W, 0x3000, 0x4000, 0x100, 0x100),
        ],
    );
    let plan = plan_image(&data, 0x8000_0000).unwrap();
    assert_eq!(plan.entry, 0x4010);
    assert_eq!(plan.mappings.len(), 2);
    let m = &plan.mappings[0];
    assert_eq!((m.addr_virtual, m.virtual_pages, m.addr_physical, m.physical_pages), (0x1000, 2, Some(0x8000_1000), 2));
    assert_eq!(&m.flags, b"r-xu-");
    let m = &plan.mappings[1];
    assert_eq!((m.addr_virtual, m.virtual_pages, m.addr_physical, m.physical_pages), (0x4000, 1, Some(0x8000_3000), 1));
    assert_eq!(&m.flags, b"rw-u-");
    let (segment, offset) = plan.manifest.unwrap();
    assert_eq!((segment.p_vaddr, offset), (0x4000, 0x10));
}

#[test]
fn image_plan_errors() {
    assert!(matches!(plan_image(&[0u8; 10], 0), Err(InitError::Elf(_))));
    let data = elf_image(0x10, &[(PT_LOAD, PF_R, 0, 0x1000, 0x10, u64::MAX)]);
    assert!(matches!(plan_image(&data, 0), Err(InitError::Overflow)));
    // a non-loadable header is not looked at
    let data = elf_image(0x10, &[(4, PF_R, 0, 0x1000, 0x10, u64::MAX), (PT_LOAD, PF_R, 0, 0x1000, 0x10, 0x10)]);
    let plan = plan_image(&data, 0).unwrap();
    assert!(plan.manifest.is_none());
    assert_eq!(plan.mappings.len(), 1);
    // no loadable segment holds the entry point
    let data = elf_image(0x10, &[(PT_LOAD, PF_R, 0, 0x1000, 0x10, 0x10)]);
    let plan = plan_image(&data, 0).unwrap();
    assert!(plan.manifest.is_none());
    assert_eq!(plan.mappings.len(), 1);
}

#[test]
fn image_plan_of_headers() {
    let load = Segment { p_type: PT_LOAD, p_flags: PF_W, p_offset: 0x2000, p_vaddr: 0x10_0000, p_filesz: 0, p_memsz: 0x1001 };
    let plan = plan_segments(&vec![load, load], 0x10_0800, 0x1000);
    assert_eq!(plan.mappings.len(), 2);
    assert_eq!(plan.mappings[1].virtual_pages, 2);
    assert_eq!(plan.mappings[1].physical_pages, 0);
    assert_eq!(&plan.mappings[1].flags, b"-w-u-");
    assert_eq!(plan.manifest.map(|(_, o)| o), Some(0x800));
}

#[test]
fn stem_ranges() {
    // one page in the first 2 MiB
    assert_eq!(stem_range(0x1000, 1), (0, 1));
    // 513 pages from 2 MiB
    assert_eq!(stem_range(0x20_0000, 513), (1, 3));
    // up to the end of a 1 GiB region
    assert_eq!(stem_range(0x3fe0_0000, 512), (0o777, 0o1000));
}

#[test]
fn map_walk_sources() {
    let m = Mapping { addr_virtual: 0, virtual_pages: 4, addr_physical: Some(0x8000_0000), physical_pages: 2, flags: *b"rw---" };
    let mut current = m.addr_physical;
    let mut sources = Vec::new();
    for _ in 0..4 {
        let (source, next) = map_step(&m, current);
        sources.push(source);
        current = next;
    }
    assert_eq!(sources, vec![Some(0x8000_0000), Some(0x8000_1000), None, None]);
    // a start address without a range still backs the first page
    let m = Mapping { physical_pages: 0, ..m };
    assert_eq!(map_step(&m, m.addr_physical), (Some(0x8000_0000), None));
    let m = Mapping { addr_physical: None, ..m };
    assert_eq!(map_step(&m, None), (None, None));
}

#[test]
fn stem_entries_filled() {
    let mut stem = [0usize; 512];
    stem[3] = (0x9000_0000 >> 2) | 1;
    let next = std::cell::Cell::new(0x1000_0000usize);
    let page = || {
        let p = next.get();
        next.set(p + 0x1000);
        Ok(p)
    };
    let tables = fill_stem(&mut stem, 2, 5, &page).unwrap();
    assert_eq!(tables, vec![(0x1000_0000, true), (0x9000_0000, false), (0x1000_1000, true)]);
    assert_eq!(stem[2], (0x1000_0000 >> 2) | 1);
    assert_eq!(stem[4], (0x1000_1000 >> 2) | 1);
    assert_eq!(stem[5], 0);
    let mut stem = [0usize; 512];
    assert_eq!(fill_stem(&mut stem, 0, 1, || Err(Error::Memory)), Err(Error::Memory));
}

#[test]
fn leaf_entries_written() {
    // three pages from 2 MiB - 4 KiB: the last page of stem entry 0 and two of entry 1
    let m = Mapping { addr_virtual: 0x1f_f000, virtual_pages: 3, addr_physical: Some(0x8000_0000), physical_pages: 1, flags: *b"rw--g" };
    let mut leaves = vec![[0usize; 512]; 2];
    let next = std::cell::Cell::new(0x4000_0000usize);
    let page = || {
        let p = next.get();
        next.set(p + 0x1000);
        Ok(p)
    };
    assert_eq!(map_leaves(&mut leaves, 0, &m, &page), Ok(()));
    let f = flags_new(b"rw--g");
    assert_eq!(leaves[0][511], (0x8000_0000 >> 2) | f);
    assert_eq!(leaves[1][0], (0x4000_0000 >> 2) | f);
    assert_eq!(leaves[1][1], (0x4000_1000 >> 2) | f);
    assert_eq!(leaves[1][2], 0);
    let mut leaves = vec![[0usize; 512]; 2];
    let m = Mapping { addr_physical: None, ..m };
    assert_eq!(map_leaves(&mut leaves, 0, &m, || Err(Error::Memory)), Err(Error::Memory));
}

#[test]
fn huge_get_at_then_put() {
    let mut lower = lower(4096);
    assert_eq!(lower.get_at(FrameId(512), 9), Ok(()));
    assert_eq!(lower.put(0, FrameId(512), 9), Ok(()));
    assert_eq!(lower.get_at(FrameId(1024), 10), Ok(()));
    assert_eq!(lower.stats().free_huge, 6);
    assert_eq!(lower.put(0, FrameId(1024), 10), Ok(()));
    assert_eq!(lower.stats().free_huge, 8);
}

#[test]
fn window_map_without_fresh_pages() {
    // every page has a physical address and every stem entry exists: no page is asked for
    let m = Mapping { addr_virtual: 0x20_0000, virtual_pages: 3, addr_physical: Some(0x9000_0000), physical_pages: 3, flags: *b"r-x--" };
    let mut stem = [0usize; 512];
    stem[1] = (0x7000_0000 >> 2) | 1;
    assert_eq!(fill_stem(&mut stem, 1, 2, || Err(Error::Memory)), Ok(vec![(0x7000_0000, false)]));
    let mut leaves = vec![[0usize; 512]; 1];
    assert_eq!(map_leaves(&mut leaves, 1, &m, || Err(Error::Memory)), Ok(()));
    let f = flags_new(b"r-x--");
    for k in 0..3 {
        assert_eq!(leaves[0][k], ((0x9000_0000 + k * 0x1000) >> 2) | f);
    }
}

#[test]
fn window_map_error_keeps_earlier_pages() {
    let m = Mapping { addr_virtual: 0, virtual_pages: 3, addr_physical: Some(0x9000_0000), physical_pages: 1, flags: *b"rw---" };
    let mut leaves = vec![[7usize; 512]; 1];
    assert_eq!(map_leaves(&mut leaves, 0, &m, || Err(Error::Memory)), Err(Error::Memory));
    assert_eq!(leaves[0][0], (0x9000_0000 >> 2) | flags_new(b"rw---"));
    assert_eq!(leaves[0][1], 7);
    assert_eq!(leaves[0][2], 7);
}

#[test]
fn reserve_all_then_put() {
    let mut allocator = Allocator::new(2048, 0x40).unwrap();
    allocator.reserve_all();
    let mut lower = allocator.into_lower();
    assert_eq!(lower.stats().free_frames, 0);
    assert_eq!(lower.put(0, FrameId(1024), 10), Ok(()));
    assert!(lower.is_free(FrameId(1024), 10));
    // a part of a huge frame is freed too
    assert_eq!(lower.put(0, FrameId(8), 3), Ok(()));
    assert!(lower.is_free(FrameId(8), 3));
    assert!(!lower.is_free(FrameId(16), 0));
    assert_eq!(lower.stats().free_frames, 1024 + 8);
}

#[test]
fn put_part_of_huge_frame() {
    let mut lower = lower(4096);
    assert_eq!(lower.get_at(FrameId(512), 9), Ok(()));
    assert_eq!(lower.put(0, FrameId(512 + 7), 0), Ok(()));
    assert!(lower.is_free(FrameId(512 + 7), 0));
    assert!(!lower.is_free(FrameId(512 + 8), 0));
    assert_eq!(lower.stats().free_frames, 4096 - 512 + 1);
}
