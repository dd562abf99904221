//! Supervisor state: physical pages handed out by the frame allocator.
use vstd::arithmetic::power2::{lemma2_to64, pow2};
use vstd::bits::lemma_usize_shl_is_mul;
use vstd::prelude::*;

use crate::llfree::id::FrameId;
use crate::llfree::lower::Lower;
use crate::llfree::Error;
use crate::vmem::Mapping;

verus! {

/// Size of a page in bytes.
pub const PAGE_SIZE: usize = 0x1000;

/// The allocator of physical pages, whose frame `f` is the page at
/// `base_addr + f * PAGE_SIZE`.
pub struct Context {
    pub allocator: Lower,
    pub base_addr: usize,
}

impl Context {
    /// The allocator is consistent and every managed page has an address.
    pub open spec fn wf(&self) -> bool {
        &&& self.allocator.wf()
        &&& self.base_addr + self.allocator.frames_view() * PAGE_SIZE <= usize::MAX
    }

    /// The frame of the page at `addr`.
    pub open spec fn frame_of(&self, addr: int) -> int {
        (addr - self.base_addr) / PAGE_SIZE as int
    }

    /// Allocate a page for `hart_id`: the address of a frame that was free
    /// and is now allocated, or `Error::Memory` when no frame was free.
    pub fn page(&mut self, hart_id: usize) -> (r: Result<usize, Error>)
        requires
            old(self).wf(),
        ensures
            final(self).wf(),
            final(self).base_addr == old(self).base_addr,
            match r {
                Ok(addr) => {
                    &&& addr >= old(self).base_addr
                    &&& (addr - old(self).base_addr) % PAGE_SIZE as int == 0
                    &&& old(self).allocator.is_free_frame(old(self).frame_of(addr as int))
                    &&& Lower::frames_changed(&old(self).allocator, &final(self).allocator, old(self).frame_of(addr as int), 1, false)
                },
                Err(e) => {
                    &&& e == Error::Memory
                    &&& Lower::same_frames(&old(self).allocator, &final(self).allocator)
                    &&& forall|f: int| 0 <= f < old(self).allocator.frames_view() ==> !#[trigger] old(self).allocator.is_free_frame(f)
                },
            },
    {
        proof {
            lemma2_to64();
        }
        let frame = match self.allocator.alloc_frames(hart_id, 0) {
            Ok(frame) => frame,
            Err(e) => {
                proof {
                    assert forall|f: int| 0 <= f < old(self).allocator.frames_view() implies !#[trigger] old(self).allocator.is_free_frame(f) by {
                        assert(old(self).allocator.valid_block(f, 0));
                        assert(!old(self).allocator.free_range(f, pow2(0) as int));
                    }
                }
                return Err(e);
            },
        };
        proof {
            assert(old(self).allocator.free_range(frame.0 as int, 1));
            assert(old(self).allocator.is_free_frame(frame.0 as int));
            let n = old(self).allocator.frames_view();
            let b = self.base_addr;
            assert(frame.0 * PAGE_SIZE + b <= usize::MAX) by (nonlinear_arith)
                requires
                    frame.0 < n,
                    b + n * PAGE_SIZE <= usize::MAX,
            ;
            assert((frame.0 * PAGE_SIZE) % PAGE_SIZE as int == 0 && (frame.0 * PAGE_SIZE) / PAGE_SIZE as int == frame.0) by (nonlinear_arith);
        }
        let off: usize = frame.0;
        proof {
            lemma_usize_shl_is_mul(off, 12);
        }
        Ok(self.base_addr + (off << 12))
    }

    /// Return the page at `page` for `hart_id`: `Error::Memory` for a page
    /// past the managed frames, else `Ok` and the frame is free if it was
    /// allocated, or `Error::Address` and nothing changes.
    pub fn free(&mut self, hart_id: usize, page: usize) -> (r: Result<(), Error>)
        requires
            old(self).wf(),
            page >= old(self).base_addr,
        ensures
            final(self).wf(),
            final(self).base_addr == old(self).base_addr,
            ({
                let f = old(self).frame_of(page as int);
                if f >= old(self).allocator.frames_view() {
                    r == Err::<(), Error>(Error::Memory) && *final(self) == *old(self)
                } else if !old(self).allocator.is_free_frame(f) {
                    r == Ok::<(), Error>(()) && Lower::frames_changed(&old(self).allocator, &final(self).allocator, f, 1, true)
                } else {
                    r == Err::<(), Error>(Error::Address) && Lower::same_frames(&old(self).allocator, &final(self).allocator)
                }
            }),
    {
        proof {
            lemma2_to64();
        }
        let d: usize = page - self.base_addr;
        let frame = d >> 12;
        proof {
            assert(d >> 12usize == d / 4096) by (bit_vector);
        }
        if frame >= self.allocator.frames() {
            return Err(Error::Memory);
        }
        let r = self.allocator.put(hart_id, FrameId(frame), 0);
        proof {
            let f = frame as int;
            if 0 <= f < old(self).allocator.frames_view() {
                assert(old(self).allocator.valid_block(f, 0));
                if !old(self).allocator.is_free_frame(f) {
                    assert(old(self).allocator.allocated_range(f, pow2(0) as int));
                } else {
                    assert(!old(self).allocator.allocated_range(f, pow2(0) as int));
                }
            }
        }
        r
    }
}

/// The mapping of `number_of_pages` user pages at `virtual_addr`, readable
/// and writable: onto the physical pages from `physical_addr` if it is
/// given, else onto fresh pages.
pub fn user_mapping(physical_addr: Option<usize>, virtual_addr: usize, number_of_pages: usize) -> (r: Mapping)
    ensures
        r.addr_virtual == virtual_addr,
        r.virtual_pages == number_of_pages,
        r.addr_physical == physical_addr,
        r.physical_pages == (if physical_addr is Some { number_of_pages } else { 0 }),
        r.flags@ == seq![114u8, 119u8, 45u8, 117u8, 45u8],
{
    let physical_pages = if physical_addr.is_some() {
        number_of_pages
    } else {
        0
    };
    Mapping {
        addr_virtual: virtual_addr,
        virtual_pages: number_of_pages,
        addr_physical: physical_addr,
        physical_pages,
        // `r`, `w`, `-`, `u`, `-`
        flags: [114, 119, 45, 117, 45],
    }
}

/// A page handed out by `page` is accepted back by `free`, after which
/// every page is exactly as free as before it was handed out.
pub proof fn law_page_then_free(a: &Context, b: &Context, c: &Context, addr: int)
    requires
        a.allocator.is_free_frame(a.frame_of(addr)),
        Lower::frames_changed(&a.allocator, &b.allocator, a.frame_of(addr), 1, false),
        Lower::frames_changed(&b.allocator, &c.allocator, a.frame_of(addr), 1, true),
    ensures
        0 <= a.frame_of(addr) < b.allocator.frames_view() && !b.allocator.is_free_frame(a.frame_of(addr)),
        forall|f: int| 0 <= f < a.allocator.frames_view() ==> #[trigger] c.allocator.is_free_frame(f) == a.allocator.is_free_frame(f),
{
    let f = a.frame_of(addr);
    assert(a.allocator.free_range(f, 1));
    Lower::law_get_then_put(&a.allocator, &b.allocator, &c.allocator, f, 1);
}

} // verus!
