//! Loading a module's ELF image: which pages its loadable segments occupy,
//! with which permissions, and where its manifest lies.
use vstd::prelude::*;

use crate::llfree::Error;
use crate::vmem::Mapping;

verus! {

/// ELF segment type of a loadable segment.
pub const PT_LOAD: u32 = 1;

/// ELF segment permission: executable.
pub const PF_X: u32 = 1;
/// ELF segment permission: writable.
pub const PF_W: u32 = 2;
/// ELF segment permission: readable.
pub const PF_R: u32 = 4;

/// Number of pages that `len` bytes starting at page offset `offset & 0xfff` touch.
pub open spec fn pages_of(offset: u64, len: u64) -> int {
    ((offset & 0xfff) + len + 0xfff) / 0x1000
}

/// The mapping of a loadable ELF segment whose file image lies at
/// `elf_base`: user pages from the segment's page onwards, readable,
/// writable and executable as its flags say, backed by the file's pages.
pub fn segment_mapping(p_vaddr: u64, p_memsz: u64, p_offset: u64, p_filesz: u64, p_flags: u32, elf_base: usize) -> (r: Mapping)
    requires
        (p_vaddr & 0xfff) + p_memsz <= u64::MAX,
        (p_offset & 0xfff) + p_filesz <= u64::MAX,
        elf_base + (p_offset as usize) <= usize::MAX,
    ensures
        mapping_of(r, (Segment { p_type: PT_LOAD, p_flags, p_offset, p_vaddr, p_filesz, p_memsz }), elf_base),
{
    // `-`, `-`, `-`, `u`, `-`
    let mut flags: [u8; 5] = [45, 45, 45, 117, 45];
    if p_flags & PF_R != 0 {
        flags[0] = 114;
    }
    if p_flags & PF_W != 0 {
        flags[1] = 119;
    }
    if p_flags & PF_X != 0 {
        flags[2] = 120;
    }
    let v = (p_vaddr & 0xfff) + p_memsz;
    let p = (p_offset & 0xfff) + p_filesz;
    proof {
        assert(v / 0x1000 + (if v % 0x1000 == 0 { 0int } else { 1 }) == (v + 0xfff) / 0x1000);
        assert(p / 0x1000 + (if p % 0x1000 == 0 { 0int } else { 1 }) == (p + 0xfff) / 0x1000);
    }
    // both rounded up to whole pages
    let virtual_pages = (v / 0x1000 + if v % 0x1000 == 0 {
        0
    } else {
        1
    }) as usize;
    let physical_pages = (p / 0x1000 + if p % 0x1000 == 0 {
        0
    } else {
        1
    }) as usize;
    let addr = (elf_base + p_offset as usize) & !0xfff;
    let addr_physical = if addr == 0 {
        None
    } else {
        Some(addr)
    };
    proof {
        assert(flags@ =~= seq![
            if p_flags & PF_R != 0 { 114u8 } else { 45u8 },
            if p_flags & PF_W != 0 { 119u8 } else { 45u8 },
            if p_flags & PF_X != 0 { 120u8 } else { 45u8 },
            117u8,
            45u8,
        ]);
    }
    Mapping { addr_virtual: (p_vaddr as usize) & !0xfff, virtual_pages, addr_physical, physical_pages, flags }
}

/// A program header of an ELF image, as plain values.
#[derive(Debug, Clone, Copy, PartialEq, Eq, Structural)]
pub struct Segment {
    pub p_type: u32,
    pub p_flags: u32,
    pub p_offset: u64,
    pub p_vaddr: u64,
    pub p_filesz: u64,
    pub p_memsz: u64,
}

/// What `elf::ElfBytes::<LittleEndian>::minimal_parse` makes of `data` if it
/// parses: the entry point and the program headers that the segment table's
/// iterator yields (`None` without a program header table).
pub uninterp spec fn elf_image(data: Seq<u8>) -> Option<(u64, Option<Seq<Segment>>)>;

#[verifier::external_type_specification]
#[verifier::external_body]
pub struct ExParseError(elf::ParseError);

/// Parse `data` as a little-endian ELF image with
/// `elf::ElfBytes::minimal_parse` and list its program headers with
/// `SegmentTable::iter`. The result depends on the bytes alone and is named
/// by `elf_image`; which images parse, and into what, is not stated here.
#[verifier::external_body]
fn parse_elf(data: &[u8]) -> (r: Result<(u64, Option<Vec<Segment>>), elf::ParseError>)
    ensures
        r is Ok <==> elf_image(data@) is Some,
        r matches Ok((entry, segments)) ==> elf_image(data@) == Some((entry, match segments {
            Some(v) => Some(v@),
            None => None::<Seq<Segment>>,
        })),
{
    let elf = elf::ElfBytes::<elf::endian::LittleEndian>::minimal_parse(data)?;
    let segments = elf.segments().map(|table| table.iter().map(|ph| Segment {
        p_type: ph.p_type,
        p_flags: ph.p_flags,
        p_offset: ph.p_offset,
        p_vaddr: ph.p_vaddr,
        p_filesz: ph.p_filesz,
        p_memsz: ph.p_memsz,
    }).collect());
    Ok((elf.ehdr.e_entry, segments))
}

/// Why a module's image cannot be loaded.
#[derive(Debug)]
pub enum InitError {
    /// The image is not an ELF file the parser accepts.
    Elf(elf::ParseError),
    /// A loadable segment's addresses or sizes overflow.
    Overflow,
    /// Allocating page tables or pages failed.
    Allocator(Error),
    /// No loadable segment holds the manifest at the entry point.
    Manifest,
}

/// The address arithmetic of segment `s` in an image at `elf_base` stays in
/// range, if it is loadable (other segments are not looked at).
pub open spec fn segment_fits(s: Segment, elf_base: usize) -> bool {
    s.p_type == PT_LOAD ==> {
        &&& (s.p_vaddr & 0xfff) + s.p_memsz <= u64::MAX
        &&& (s.p_offset & 0xfff) + s.p_filesz <= u64::MAX
        &&& s.p_vaddr + s.p_memsz <= u64::MAX
        &&& elf_base + (s.p_offset as usize) <= usize::MAX
    }
}

/// `m` is the mapping of segment `s` in an image at `elf_base`.
pub open spec fn mapping_of(m: Mapping, s: Segment, elf_base: usize) -> bool {
    let addr = (elf_base + s.p_offset as usize) as usize & !0xfffusize;
    &&& m.addr_virtual == (s.p_vaddr as usize) & !0xfffusize
    &&& m.virtual_pages == pages_of(s.p_vaddr, s.p_memsz) as usize
    &&& m.addr_physical == (if addr == 0 { None } else { Some(addr) })
    &&& m.physical_pages == pages_of(s.p_offset, s.p_filesz) as usize
    &&& m.flags@ == seq![
        if s.p_flags & PF_R != 0 { 114u8 } else { 45u8 },
        if s.p_flags & PF_W != 0 { 119u8 } else { 45u8 },
        if s.p_flags & PF_X != 0 { 120u8 } else { 45u8 },
        117u8,
        45u8,
    ]
}

/// The loadable segments, in order.
pub open spec fn loadable(segments: Seq<Segment>) -> Seq<Segment> {
    segments.filter(|s: Segment| s.p_type == PT_LOAD)
}

/// Segment `s` is loaded at the virtual address `entry`.
pub open spec fn holds(s: Segment, entry: u64) -> bool {
    s.p_type == PT_LOAD && s.p_vaddr <= entry < s.p_vaddr + s.p_memsz
}

/// The last of the first `k` segments that holds `entry`, with the offset
/// of `entry` in it.
pub open spec fn manifest_in(segments: Seq<Segment>, entry: u64, k: int) -> Option<(Segment, usize)>
    decreases k,
{
    if k <= 0 {
        None
    } else if holds(segments[k - 1], entry) {
        Some((segments[k - 1], (entry - segments[k - 1].p_vaddr) as usize))
    } else {
        manifest_in(segments, entry, k - 1)
    }
}

/// How to load an image: the mappings of its loadable segments, in order,
/// its entry point, and the segment holding the manifest at the entry
/// point with the manifest's offset in it.
pub struct ImagePlan {
    pub entry: u64,
    pub mappings: Vec<Mapping>,
    pub manifest: Option<(Segment, usize)>,
}

/// Plan the loading of the program headers `segments` of an image at
/// `elf_base` with entry point `entry`.
pub fn plan_segments(segments: &Vec<Segment>, entry: u64, elf_base: usize) -> (r: ImagePlan)
    requires
        forall|i: int| 0 <= i < segments@.len() ==> segment_fits(#[trigger] segments@[i], elf_base),
    ensures
        r.entry == entry,
        r.mappings@.len() == loadable(segments@).len(),
        forall|i: int| 0 <= i < r.mappings@.len() ==> mapping_of(#[trigger] r.mappings@[i], loadable(segments@)[i], elf_base),
        r.manifest == manifest_in(segments@, entry, segments@.len() as int),
{
    let mut mappings: Vec<Mapping> = Vec::new();
    let mut manifest: Option<(Segment, usize)> = None;
    let mut i: usize = 0;
    while i < segments.len()
        invariant
            i <= segments@.len(),
            forall|j: int| 0 <= j < segments@.len() ==> segment_fits(#[trigger] segments@[j], elf_base),
            mappings@.len() == loadable(segments@.take(i as int)).len(),
            forall|j: int| 0 <= j < mappings@.len() ==> mapping_of(#[trigger] mappings@[j], loadable(segments@.take(i as int))[j], elf_base),
            manifest == manifest_in(segments@, entry, i as int),
        decreases segments@.len() - i,
    {
        let ph = segments[i];
        proof {
            assert(segments@.take(i + 1) =~= segments@.take(i as int).push(ph));
            segments@.take(i as int).lemma_filter_push(ph, |s: Segment| s.p_type == PT_LOAD);
        }
        if ph.p_type == PT_LOAD {
            if ph.p_vaddr <= entry && entry < ph.p_vaddr + ph.p_memsz {
                manifest = Some((ph, (entry - ph.p_vaddr) as usize));
            }
            let m = segment_mapping(ph.p_vaddr, ph.p_memsz, ph.p_offset, ph.p_filesz, ph.p_flags, elf_base);
            mappings.push(m);
        }
        i = i + 1;
    }
    proof {
        assert(segments@.take(segments@.len() as int) =~= segments@);
    }
    ImagePlan { entry, mappings, manifest }
}

/// Whether the address arithmetic of every loadable segment of an image
/// at `elf_base` stays in range.
pub fn segments_fit(segments: &Vec<Segment>, elf_base: usize) -> (r: bool)
    ensures
        r == forall|i: int| 0 <= i < segments@.len() ==> segment_fits(#[trigger] segments@[i], elf_base),
{
    let mut i: usize = 0;
    while i < segments.len()
        invariant
            i <= segments@.len(),
            forall|j: int| 0 <= j < i ==> segment_fits(#[trigger] segments@[j], elf_base),
        decreases segments@.len() - i,
    {
        let s = segments[i];
        if s.p_type == PT_LOAD && (s.p_vaddr & 0xfff > u64::MAX - s.p_memsz || s.p_offset & 0xfff > u64::MAX - s.p_filesz
            || s.p_vaddr > u64::MAX - s.p_memsz || s.p_offset as usize > usize::MAX - elf_base) {
            proof {
                assert(!segment_fits(segments@[i as int], elf_base));
            }
            return false;
        }
        i = i + 1;
    }
    true
}

/// The program headers of a parsed image; none without a table.
pub open spec fn listed(segments: Option<Seq<Segment>>) -> Seq<Segment> {
    match segments {
        Some(s) => s,
        None => Seq::empty(),
    }
}

/// `r` is what planning the image with entry point `entry` and program
/// headers `segs` at `elf_base` gives: `Overflow` if a segment does not
/// fit, else the plan of its loadable segments.
pub open spec fn planned(r: Result<ImagePlan, InitError>, entry: u64, segs: Seq<Segment>, elf_base: usize) -> bool {
    if forall|i: int| 0 <= i < segs.len() ==> segment_fits(#[trigger] segs[i], elf_base) {
        &&& r is Ok
        &&& r->Ok_0.entry == entry
        &&& r->Ok_0.mappings@.len() == loadable(segs).len()
        &&& forall|i: int| 0 <= i < r->Ok_0.mappings@.len() ==> mapping_of(#[trigger] r->Ok_0.mappings@[i], loadable(segs)[i], elf_base)
        &&& r->Ok_0.manifest == manifest_in(segs, entry, segs.len() as int)
    } else {
        r matches Err(InitError::Overflow)
    }
}

/// Plan the loading of the ELF image `data` placed at `elf_base`: the
/// parser's error if it is not an ELF image, `Overflow` if a segment's
/// arithmetic would overflow, else the plan of its program headers.
#[verifier::loop_isolation(false)]
pub fn plan_image(data: &[u8], elf_base: usize) -> (r: Result<ImagePlan, InitError>)
    ensures
        elf_image(data@) is None <==> r matches Err(InitError::Elf(_)),
        elf_image(data@) is Some ==> planned(
            r,
            elf_image(data@)->Some_0.0,
            listed(elf_image(data@)->Some_0.1),
            elf_base,
        ),
{
    let (entry, table) = match parse_elf(data) {
        Ok(image) => image,
        Err(e) => return Err(InitError::Elf(e)),
    };
    let segments = match table {
        Some(v) => v,
        None => Vec::new(),
    };
    proof {
        assert(segments@ == listed(elf_image(data@)->Some_0.1));
    }
    if !segments_fit(&segments, elf_base) {
        return Err(InitError::Overflow);
    }
    Ok(plan_segments(&segments, entry, elf_base))
}

} // verus!
