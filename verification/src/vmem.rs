//! Encodings of the Sv39 virtual memory system: page table entry flags and
//! the `satp` root register.
use vstd::prelude::*;

use crate::llfree::Error;

verus! {

/// `satp` mode of the three level Sv39 paging.
pub const SV39: usize = 8;

/// ASCII `-`, which clears a permission.
pub const DASH: u8 = 45;

/// `1 << k` when the flag character `c` is not `-`, else nothing.
pub open spec fn flag_bit(c: u8, k: usize) -> usize {
    if c != 45 {
        1usize << k
    } else {
        0
    }
}

/// Leaf entry flags for the permission string `rwxug` (a `-` clears a
/// permission): valid, accessed and dirty are always set.
pub open spec fn flags_of(flags: [u8; 5]) -> usize {
    0xc1usize | flag_bit(flags[0], 1) | flag_bit(flags[1], 2) | flag_bit(flags[2], 3) | flag_bit(
        flags[3],
        4,
    ) | flag_bit(flags[4], 5)
}

/// Page table entry flags from a permission string such as `b"rw--g"`: each
/// of read, write, execute, user and global is set unless its character is
/// `-`; valid, accessed and dirty are always set.
pub fn flags_new(flags: &[u8; 5]) -> (r: usize)
    ensures
        r == flags_of(*flags),
{
    let r = flags[0];
    let w = flags[1];
    let x = flags[2];
    let u = flags[3];
    let g = flags[4];
    let mut f: usize = 0b1100_0001;
    f = f | if r != DASH {
        1usize << 1
    } else {
        0
    };
    f = f | if w != DASH {
        1usize << 2
    } else {
        0
    };
    f = f | if x != DASH {
        1usize << 3
    } else {
        0
    };
    f = f | if u != DASH {
        1usize << 4
    } else {
        0
    };
    f = f | if g != DASH {
        1usize << 5
    } else {
        0
    };
    f
}

/// Each permission bit of `flags_new` is set exactly when its own character
/// is not `-`, whatever the other characters are: read is bit 1, write bit
/// 2, execute bit 3, user bit 4 and global bit 5. Valid (bit 0), accessed
/// (bit 6) and dirty (bit 7) are always set and no higher bit is.
pub proof fn law_flags_bits(flags: [u8; 5])
    ensures
        (flags_of(flags) >> 1usize) & 1 == (if flags[0] != 45 { 1usize } else { 0 }),
        (flags_of(flags) >> 2usize) & 1 == (if flags[1] != 45 { 1usize } else { 0 }),
        (flags_of(flags) >> 3usize) & 1 == (if flags[2] != 45 { 1usize } else { 0 }),
        (flags_of(flags) >> 4usize) & 1 == (if flags[3] != 45 { 1usize } else { 0 }),
        (flags_of(flags) >> 5usize) & 1 == (if flags[4] != 45 { 1usize } else { 0 }),
        flags_of(flags) & 0xc1 == 0xc1,
        flags_of(flags) < 0x100,
{
    let a = flag_bit(flags[0], 1);
    let b = flag_bit(flags[1], 2);
    let c = flag_bit(flags[2], 3);
    let d = flag_bit(flags[3], 4);
    let e = flag_bit(flags[4], 5);
    let x = flags_of(flags);
    assert(x == 0xc1usize | a | b | c | d | e);
    assert({
        &&& (x >> 1usize) & 1 == (if a != 0 { 1usize } else { 0 })
        &&& (x >> 2usize) & 1 == (if b != 0 { 1usize } else { 0 })
        &&& (x >> 3usize) & 1 == (if c != 0 { 1usize } else { 0 })
        &&& (x >> 4usize) & 1 == (if d != 0 { 1usize } else { 0 })
        &&& (x >> 5usize) & 1 == (if e != 0 { 1usize } else { 0 })
        &&& x & 0xc1 == 0xc1
        &&& x < 0x100
        &&& (1usize << 1usize) != 0 && (1usize << 2usize) != 0 && (1usize << 3usize) != 0
        &&& (1usize << 4usize) != 0 && (1usize << 5usize) != 0
    }) by (bit_vector)
        requires
            x == 0xc1usize | a | b | c | d | e,
            a == 1usize << 1usize || a == 0,
            b == 1usize << 2usize || b == 0,
            c == 1usize << 3usize || c == 0,
            d == 1usize << 4usize || d == 0,
            e == 1usize << 5usize || e == 0,
    ;
}

/// Value of the `satp` register: the paging mode, the address space
/// identifier and the physical page number of the root page table. It is
/// never zero.
#[derive(Debug, Clone, Copy, PartialEq, Eq, Structural)]
pub struct Root(usize);

/// The `satp` value of an Sv39 root table at `ptr` in address space `asid`.
pub open spec fn sv39_value(ptr: usize, asid: u16) -> usize {
    (8usize << 60usize) | ((asid as usize) << 44usize) | (ptr >> 12usize)
}

/// The address space identifier held by the `satp` value `v`.
pub open spec fn asid_of(v: usize) -> u16 {
    ((v >> 44usize) & 0xffff) as u16
}

/// The root table address held by the `satp` value `v`.
pub open spec fn page_of(v: usize) -> usize {
    (v << 20usize) >> 8usize
}

impl Root {
    #[verifier::type_invariant]
    spec fn inv(self) -> bool {
        self.0 != 0
    }

    /// The register value.
    pub closed spec fn value(self) -> usize {
        self.0
    }

    /// The root with register value `v`, if `v` is not zero.
    pub fn new(v: usize) -> (r: Option<Root>)
        ensures
            r is Some <==> v != 0,
            r matches Some(root) ==> root.value() == v,
    {
        if v != 0 {
            Some(Root(v))
        } else {
            None
        }
    }

    /// The register value, which is not zero.
    pub fn get(self) -> (r: usize)
        ensures
            r == self.value(),
            r != 0,
    {
        proof {
            use_type_invariant(&self);
        }
        self.0
    }

    /// Sv39 root for the table at physical address `ptr` and `asid`.
    pub fn sv39(ptr: usize, asid: u16) -> (r: Root)
        requires
            usize::BITS == 64,
        ensures
            r.value() == sv39_value(ptr, asid),
    {
        let v: usize = (SV39 << 60) | ((asid as usize) << 44) | (ptr >> 12);
        assert(v != 0) by (bit_vector)
            requires
                usize::BITS == 64,
                v == (8usize << 60usize) | ((asid as usize) << 44usize) | (ptr >> 12usize),
        ;
        Root(v)
    }

    /// The address space identifier.
    pub fn asid(self) -> (r: u16)
        requires
            usize::BITS == 64,
        ensures
            r == asid_of(self.value()),
    {
        ((self.0 >> 44) & 0xffff) as u16
    }

    /// Physical address of the root page table.
    pub fn page(self) -> (r: usize)
        requires
            usize::BITS == 64,
        ensures
            r == page_of(self.value()),
    {
        (self.0 << 20) >> 8
    }
}

/// The root of an Sv39 table selects the Sv39 mode (8 in the top four
/// bits), and keeps its address space identifier and the page-aligned table
/// address of at most 56 bits.
pub proof fn law_sv39_roundtrip(ptr: usize, asid: u16)
    requires
        usize::BITS == 64,
        ptr < 1usize << 56usize,
    ensures
        sv39_value(ptr, asid) >> 60usize == 8,
        asid_of(sv39_value(ptr, asid)) == asid,
        page_of(sv39_value(ptr, asid)) == ptr & !0xfffusize,
{
    assert(((8usize << 60usize) | ((asid as usize) << 44usize) | (ptr >> 12usize)) >> 60usize == 8) by (bit_vector)
        requires
            usize::BITS == 64,
            ptr < 1usize << 56usize,
    ;
    assert(((((8usize << 60usize) | ((asid as usize) << 44usize) | (ptr >> 12usize)) >> 44usize) & 0xffff) as u16 == asid)
        by (bit_vector)
        requires
            usize::BITS == 64,
            ptr < 1usize << 56usize,
    ;
    assert((((8usize << 60usize) | ((asid as usize) << 44usize) | (ptr >> 12usize)) << 20usize) >> 8usize == ptr
        & !0xfffusize) by (bit_vector)
        requires
            usize::BITS == 64,
            ptr < 1usize << 56usize,
    ;
}

/// A range of virtual pages to map, either onto consecutive physical pages
/// (as far as `physical_pages` reaches) or onto fresh pages.
#[derive(Debug, Clone, Copy)]
pub struct Mapping {
    pub addr_virtual: usize,
    pub virtual_pages: usize,
    /// Start of the physical range; never `Some(0)`.
    pub addr_physical: Option<usize>,
    pub physical_pages: usize,
    pub flags: [u8; 5],
}

impl Default for Mapping {
    fn default() -> (r: Mapping)
        ensures
            r.addr_virtual == 0 && r.virtual_pages == 0 && r.addr_physical is None && r.physical_pages == 0,
            r.flags@ == seq![0u8, 0u8, 0u8, 0u8, 0u8],
    {
        Mapping { addr_virtual: 0, virtual_pages: 0, addr_physical: None, physical_pages: 0, flags: [0u8; 5] }
    }
}

/// First stem table index of `virtual_pages` pages at `addr_virtual`, and
/// the index after the last one (`0o1000` when the range reaches the end of
/// the stem table).
pub open spec fn stem_range_of(addr_virtual: usize, virtual_pages: usize) -> (usize, usize) {
    let e = ((((addr_virtual >> 12usize) + virtual_pages + 511) as usize) >> 9usize) & 0o777usize;
    ((addr_virtual >> 21usize) & 0o777usize, if e == 0 { 0o1000 } else { e })
}

/// The stem table entries that the pages of a mapping at `addr_virtual`
/// use: the first index, and the index after the last one.
pub fn stem_range(addr_virtual: usize, virtual_pages: usize) -> (r: (usize, usize))
    requires
        (addr_virtual >> 12usize) + virtual_pages + 511 <= usize::MAX,
    ensures
        r == stem_range_of(addr_virtual, virtual_pages),
{
    let si_start = (addr_virtual >> 21) & 0o777;
    let pn = addr_virtual >> 12;
    let limit = pn + virtual_pages + 511;
    let e = (limit >> 9) & 0o777;
    let si_end = if e == 0 {
        0o1000
    } else {
        e
    };
    (si_start, si_end)
}

/// End of the physical range of `mapping`, starting at `start`.
pub open spec fn physical_end(m: Mapping, start: usize) -> int {
    start + ((m.physical_pages << 12usize) as usize)
}

/// Walking the pages of `mapping`: given the physical address that the
/// current page would take (`None` once the physical range is used up),
/// the page's physical address and the state for the next page. A page
/// without a physical address gets a fresh page.
pub open spec fn map_step_of(m: Mapping, current: Option<usize>) -> (Option<usize>, Option<usize>) {
    match current {
        Some(a) => {
            let next = if a + 0x1000 > usize::MAX { usize::MAX } else { (a + 0x1000) as usize };
            let start = match m.addr_physical { Some(s) => s, None => 0 };
            (Some(a), if next >= physical_end(m, start) { None } else { Some(next) })
        },
        None => (None, None),
    }
}

/// One step of walking the pages of `mapping`; the walk starts with
/// `mapping.addr_physical`.
pub fn map_step(mapping: &Mapping, current: Option<usize>) -> (r: (Option<usize>, Option<usize>))
    requires
        physical_end(*mapping, match mapping.addr_physical { Some(s) => s, None => 0 }) <= usize::MAX,
    ensures
        r == map_step_of(*mapping, current),
{
    match current {
        Some(a) => {
            let next = a.saturating_add(0x1000);
            let start = match mapping.addr_physical {
                Some(s) => s,
                None => 0,
            };
            let end = start + (mapping.physical_pages << 12);
            if next >= end {
                (Some(a), None)
            } else {
                (Some(a), Some(next))
            }
        },
        None => (None, None),
    }
}

/// State of the walk before page `k`.
pub open spec fn walk(m: Mapping, k: nat) -> Option<usize>
    decreases k,
{
    if k == 0 {
        m.addr_physical
    } else {
        map_step_of(m, walk(m, (k - 1) as nat)).1
    }
}

/// Walking a mapping maps page `k` onto the `k`-th page of its physical
/// range while that range lasts (and page 0 onto its start whenever a range
/// is given), and every later page onto a fresh page.
pub proof fn law_map_walk(m: Mapping, k: nat)
    requires
        m.addr_physical matches Some(s) ==> physical_end(m, s) <= usize::MAX,
    ensures
        map_step_of(m, walk(m, k)).0 == (match m.addr_physical {
            Some(s) => if k == 0 || s + k * 0x1000 < physical_end(m, s) {
                Some((s + k * 0x1000) as usize)
            } else {
                None
            },
            None => None,
        }),
    decreases k,
{
    if k > 0 {
        law_map_walk(m, (k - 1) as nat);
        lemma_walk(m, k);
    } else {
    }
}

proof fn lemma_walk(m: Mapping, k: nat)
    requires
        m.addr_physical matches Some(s) ==> physical_end(m, s) <= usize::MAX,
    ensures
        walk(m, k) == (match m.addr_physical {
            Some(s) => if k == 0 || s + k * 0x1000 < physical_end(m, s) {
                Some((s + k * 0x1000) as usize)
            } else {
                None
            },
            None => None,
        }),
    decreases k,
{
    if k > 0 {
        lemma_walk(m, (k - 1) as nat);
        if let Some(s) = m.addr_physical {
            if k >= 2 && s + (k - 1) * 0x1000 >= physical_end(m, s) {
                assert(s + k * 0x1000 >= physical_end(m, s));
            }
        }
    }
}

/// Virtual page number of page `k` of `m`.
pub open spec fn vpn(m: Mapping, k: int) -> int {
    (m.addr_virtual >> 12usize) + k
}

/// Leaf table (counted from the one of stem index `si_start`) and entry
/// that map the virtual page `p`.
pub open spec fn leaf_pos(p: int, si_start: int) -> (int, int) {
    ((((p as usize) >> 9usize) & 0o777usize) - si_start, ((p as usize) & 0o777usize) as int)
}

/// Entry `li` of leaf table `t`.
pub open spec fn leaf_entry(leaves: Seq<[usize; 512]>, t: int, li: int) -> usize {
    leaves[t]@[li]
}

/// Entry `e` maps page `k` of `m` with its flags: onto the physical page
/// the walk gives, or onto a fresh page that `page` handed out.
pub open spec fn leaf_ok<F: Fn() -> Result<usize, Error>>(m: Mapping, page: F, k: int, e: usize) -> bool {
    exists|a: usize|
        #![trigger (a >> 2usize) | flags_of(m.flags)]
        e == (a >> 2usize) | flags_of(m.flags) && match map_step_of(m, walk(m, k as nat)).0 {
            Some(s) => a == s,
            None => page.ensures((), Ok::<usize, Error>(a)),
        }
}

proof fn lemma_low_bits(p: usize)
    by (bit_vector)
    ensures
        p & 0o777usize < 512,
{
}

proof fn lemma_pos_distinct(p: usize, q: usize)
    by (bit_vector)
    requires
        p < q,
        q - p < 0x40000,
    ensures
        (p >> 9usize) & 0o777usize != (q >> 9usize) & 0o777usize || p & 0o777usize != q & 0o777usize,
{
}

/// The entries of the first `d` pages of `m` are written in `new` as
/// `leaf_ok` says, and every entry that none of them maps is as in `old`.
pub open spec fn leaves_written<F: Fn() -> Result<usize, Error>>(
    old: Seq<[usize; 512]>,
    new: Seq<[usize; 512]>,
    m: Mapping,
    page: F,
    si_start: int,
    d: int,
) -> bool {
    &&& forall|k: int| 0 <= k < d ==> #[trigger] leaf_ok(
        m,
        page,
        k,
        leaf_entry(new, leaf_pos(vpn(m, k), si_start).0, leaf_pos(vpn(m, k), si_start).1),
    )
    &&& forall|t: int, li: int|
        0 <= t < old.len() && 0 <= li < 512 && (forall|k: int| 0 <= k < d ==> #[trigger] leaf_pos(vpn(m, k), si_start) != (t, li))
            ==> leaf_entry(new, t, li) == leaf_entry(old, t, li)
}

/// Write the leaf entries of the pages of `mapping` into `leaves`, the leaf
/// tables from stem index `si_start` on: each page maps onto the physical
/// page that `map_step` gives, or onto a fresh page from `page`, with the
/// mapping's flags. `page` is only called for a page without a physical
/// address; at its first error the pages before are written and the error
/// is returned.
#[verifier::loop_isolation(false)]
pub fn map_leaves<F: Fn() -> Result<usize, Error>>(leaves: &mut Vec<[usize; 512]>, si_start: usize, mapping: &Mapping, page: F) -> (r: Result<(), Error>)
    requires
        old(leaves)@.len() < 512,
        (mapping.addr_virtual >> 12usize) + mapping.virtual_pages <= usize::MAX,
        mapping.virtual_pages < 0x40000,
        physical_end(*mapping, match mapping.addr_physical { Some(s) => s, None => 0 }) <= usize::MAX,
        forall|k: int| 0 <= k < mapping.virtual_pages ==> 0 <= #[trigger] leaf_pos(vpn(*mapping, k), si_start as int).0 < old(leaves)@.len(),
        page.requires(()),
    ensures
        final(leaves)@.len() == old(leaves)@.len(),
        (forall|k: int| 0 <= k < mapping.virtual_pages ==> #[trigger] map_step_of(*mapping, walk(*mapping, k as nat)).0 is Some) ==> r is Ok,
        r is Ok ==> leaves_written(old(leaves)@, final(leaves)@, *mapping, page, si_start as int, mapping.virtual_pages as int),
        r matches Err(e) ==> page.ensures((), Err::<usize, Error>(e)) && exists|d: int|
            0 <= d < mapping.virtual_pages && #[trigger] map_step_of(*mapping, walk(*mapping, d as nat)).0 is None
                && leaves_written(old(leaves)@, final(leaves)@, *mapping, page, si_start as int, d),
{
    let flags = flags_new(&mapping.flags);
    let v0 = mapping.addr_virtual >> 12;
    let limit = v0 + mapping.virtual_pages;
    let mut p = v0;
    let mut current = mapping.addr_physical;
    let ghost m = *mapping;
    while p < limit
        invariant
            v0 <= p <= limit,
            limit == v0 + m.virtual_pages,
            current == walk(m, (p - v0) as nat),
            leaves@.len() == old(leaves)@.len(),
            forall|k: int| 0 <= k < p - v0 ==> #[trigger] leaf_ok(
                m,
                page,
                k,
                leaf_entry(leaves@, leaf_pos(vpn(m, k), si_start as int).0, leaf_pos(vpn(m, k), si_start as int).1),
            ),
            forall|t: int, li: int| 0 <= t < old(leaves)@.len() && 0 <= li < 512 && (forall|k: int| 0 <= k < p - v0 ==> #[trigger] leaf_pos(vpn(m, k), si_start as int) != (t, li)) ==> leaf_entry(leaves@, t, li) == leaf_entry(old(leaves)@, t, li),
        decreases limit - p,
    {
        let ghost k = (p - v0) as int;
        let (source, next) = map_step(mapping, current);
        let addr = match source {
            Some(a) => a,
            None => {
                match page() {
                    Ok(a) => a,
                    Err(e) => {
                        proof {
                            assert(map_step_of(m, walk(m, k as nat)).0 is None);
                            assert(leaves_written(old(leaves)@, leaves@, m, page, si_start as int, k));
                        }
                        return Err(e);
                    },
                }
            },
        };
        proof {
            assert(vpn(m, k) == p);
            assert(0 <= leaf_pos(vpn(m, k), si_start as int).0 < old(leaves)@.len());
        }
        let t = ((p >> 9) & 0o777) - si_start;
        let li = p & 0o777;
        proof {
            assert(li < 512) by (bit_vector)
                requires
                    li == p & 0o777usize,
            ;
        }
        let ghost before = leaves@;
        let mut table = leaves[t];
        let ghost before_table = table;
        table[li] = (addr >> 2) | flags;
        leaves.set(t, table);
        proof {
            assert(leaf_pos(vpn(m, k), si_start as int) == (t as int, li as int));
            assert(table@ == before_table@.update(li as int, (addr >> 2usize) | flags));
            assert forall|tt: int, ll: int| 0 <= tt < before.len() && 0 <= ll < 512 && (tt, ll) != (t as int, li as int) implies leaf_entry(leaves@, tt, ll) == leaf_entry(before, tt, ll) by {
                if tt == t {
                    assert(leaves@[tt] == table);
                    assert(before[tt] == before_table);
                } else {
                    assert(leaves@[tt] == before[tt]);
                }
            }
            assert(leaf_entry(leaves@, t as int, li as int) == (addr >> 2usize) | flags) by {
                assert(leaves@[t as int] == table);
            }
            assert(leaf_ok(m, page, k, (addr >> 2usize) | flags_of(m.flags)));
            assert forall|j: int| 0 <= j < k implies leaf_pos(vpn(m, j), si_start as int) != leaf_pos(vpn(m, k), si_start as int) by {
                lemma_pos_distinct(vpn(m, j) as usize, p);
            }
            assert forall|j: int| 0 <= j < k + 1 implies #[trigger] leaf_ok(
                m,
                page,
                j,
                leaf_entry(leaves@, leaf_pos(vpn(m, j), si_start as int).0, leaf_pos(vpn(m, j), si_start as int).1),
            ) by {
                if j < k {
                    lemma_low_bits(vpn(m, j) as usize);
                    assert(0 <= leaf_pos(vpn(m, j), si_start as int).0 < old(leaves)@.len());
                    assert(leaf_pos(vpn(m, j), si_start as int) != leaf_pos(vpn(m, k), si_start as int));
                    assert(leaf_entry(leaves@, leaf_pos(vpn(m, j), si_start as int).0, leaf_pos(vpn(m, j), si_start as int).1)
                        == leaf_entry(before, leaf_pos(vpn(m, j), si_start as int).0, leaf_pos(vpn(m, j), si_start as int).1));
                }
            }
            assert forall|tt: int, ll: int| 0 <= tt < old(leaves)@.len() && 0 <= ll < 512 && (forall|j: int| 0 <= j < k + 1 ==> #[trigger] leaf_pos(vpn(m, j), si_start as int) != (tt, ll)) implies leaf_entry(leaves@, tt, ll) == leaf_entry(old(leaves)@, tt, ll) by {
                assert(leaf_pos(vpn(m, k), si_start as int) != (tt, ll));
                assert(forall|j: int| 0 <= j < k ==> #[trigger] leaf_pos(vpn(m, j), si_start as int) != (tt, ll));
            }
        }
        current = next;
        p = p + 1;
    }
    proof {
        assert(leaves_written(old(leaves)@, leaves@, m, page, si_start as int, m.virtual_pages as int));
    }
    Ok(())
}

/// Physical address of the table that a non-leaf entry `e` points to.
pub open spec fn table_of(e: usize) -> usize {
    ((e >> 10usize) << 12usize) as usize
}

/// Non-leaf entry pointing to the table at `phys`.
pub open spec fn pointer_entry(phys: usize) -> usize {
    (phys >> 2usize) | 1
}

/// The stem entries `si_start..si_start + d` of `new` point to the tables
/// of `old`, or to a page from `page` where `old` had none; all other
/// entries are as in `old`.
pub open spec fn stem_filled<F: Fn() -> Result<usize, Error>>(old: Seq<usize>, new: Seq<usize>, page: F, si_start: int, d: int) -> bool {
    &&& forall|i: int| 0 <= i < d ==> stem_slot_filled(old[si_start + i], #[trigger] new[si_start + i], page)
    &&& forall|j: int| 0 <= j < 512 && !(si_start <= j < si_start + d) ==> #[trigger] new[j] == old[j]
}

/// Stem entry `e_new` keeps the table of `e_old`, or points to a page from
/// `page` where `e_old` was empty.
pub open spec fn stem_slot_filled<F: Fn() -> Result<usize, Error>>(e_old: usize, e_new: usize, page: F) -> bool {
    if e_old != 0 {
        e_new == e_old
    } else {
        exists|a: usize| page.ensures((), Ok::<usize, Error>(a)) && e_new == #[trigger] pointer_entry(a)
    }
}

/// Stem entry `e_new`, from `e_old`, and the table `t` reported for it.
pub open spec fn stem_slot_ok<F: Fn() -> Result<usize, Error>>(e_old: usize, t: (usize, bool), e_new: usize, page: F) -> bool {
    if e_old != 0 {
        t == (table_of(e_old), false) && e_new == e_old
    } else {
        t.1 && page.ensures((), Ok::<usize, Error>(t.0)) && e_new == pointer_entry(t.0)
    }
}

proof fn lemma_stem_filled<F: Fn() -> Result<usize, Error>>(
    old: Seq<usize>,
    new: Seq<usize>,
    tables: Seq<(usize, bool)>,
    page: F,
    si_start: int,
    d: int,
)
    requires
        0 <= d <= tables.len(),
        forall|k: int| 0 <= k < d ==> stem_slot_ok(old[si_start + k], #[trigger] tables[k], new[si_start + k], page),
        forall|j: int| 0 <= j < 512 && !(si_start <= j < si_start + d) ==> #[trigger] new[j] == old[j],
    ensures
        stem_filled(old, new, page, si_start, d),
{
    assert forall|i: int| 0 <= i < d implies stem_slot_filled(old[si_start + i], #[trigger] new[si_start + i], page) by {
        assert(stem_slot_ok(old[si_start + i], tables[i], new[si_start + i], page));
        if old[si_start + i] == 0 {
            assert(new[si_start + i] == pointer_entry(tables[i].0));
        }
    }
}

/// Make sure the stem entries `si_start..si_end` point to leaf tables,
/// taking a fresh page from `page` for each empty one. Returns, for each of
/// them in order, the leaf table's physical address and whether it is
/// fresh (and so still has to be cleared). `page` is only called for an
/// empty entry; at its first error the entries before are filled and the
/// error is returned.
pub fn fill_stem<F: Fn() -> Result<usize, Error>>(stem: &mut [usize; 512], si_start: usize, si_end: usize, page: F) -> (r: Result<Vec<(usize, bool)>, Error>)
    requires
        si_start <= si_end <= 512,
        page.requires(()),
    ensures
        (forall|i: int| si_start <= i < si_end ==> #[trigger] old(stem)@[i] != 0) ==> r is Ok,
        r matches Err(e) ==> page.ensures((), Err::<usize, Error>(e)) && exists|d: int|
            0 <= d < si_end - si_start && #[trigger] old(stem)@[si_start + d] == 0 && stem_filled(
                old(stem)@,
                final(stem)@,
                page,
                si_start as int,
                d,
            ),
        r matches Ok(v) ==> {
            &&& v@.len() == si_end - si_start
            &&& forall|i: int| 0 <= i < v@.len() ==> {
                let e = old(stem)@[si_start + i];
                if e != 0 {
                    #[trigger] v@[i] == (table_of(e), false) && final(stem)@[si_start + i] == e
                } else {
                    v@[i].1 && page.ensures((), Ok::<usize, Error>(v@[i].0)) && final(stem)@[si_start + i] == pointer_entry(v@[i].0)
                }
            }
            &&& forall|j: int| 0 <= j < 512 && !(si_start <= j < si_end) ==> #[trigger] final(stem)@[j] == old(stem)@[j]
        },
{
    let mut tables: Vec<(usize, bool)> = Vec::new();
    let mut i: usize = 0;
    while i < si_end - si_start
        invariant
            si_start <= si_end <= 512,
            page.requires(()),
            i <= si_end - si_start,
            tables@.len() == i,
            forall|k: int| 0 <= k < i ==> stem_slot_ok(old(stem)@[si_start + k], #[trigger] tables@[k], stem@[si_start + k], page),
            forall|j: int| 0 <= j < 512 && !(si_start <= j < si_start + i) ==> #[trigger] stem@[j] == old(stem)@[j],
        decreases si_end - si_start - i,
    {
        let e = stem[si_start + i];
        if e != 0 {
            tables.push(((e >> 10) << 12, false));
        } else {
            let phys = match page() {
                Ok(p) => p,
                Err(err) => {
                    proof {
                        lemma_stem_filled(old(stem)@, stem@, tables@, page, si_start as int, i as int);
                    }
                    return Err(err);
                },
            };
            stem[si_start + i] = (phys >> 2) | 1;
            tables.push((phys, true));
        }
        i = i + 1;
    }
    proof {
        assert forall|k: int| 0 <= k < tables@.len() implies {
            let e = old(stem)@[si_start + k];
            if e != 0 {
                #[trigger] tables@[k] == (table_of(e), false) && stem@[si_start + k] == e
            } else {
                tables@[k].1 && page.ensures((), Ok::<usize, Error>(tables@[k].0)) && stem@[si_start + k] == pointer_entry(tables@[k].0)
            }
        } by {
            assert(stem_slot_ok(old(stem)@[si_start + k], tables@[k], stem@[si_start + k], page));
        }
    }
    Ok(tables)
}

} // verus!
