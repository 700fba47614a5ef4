use vstd::prelude::*;
use crate::elf::parser::Segment;
use crate::memory::PAGE_SIZE;
use crate::subsystem::page::fault::{PageFaultError, PageFaultType};
use crate::subsystem::page::meta::{AnonPageMeta, PageMeta, VmaAllocatedArea};
use crate::sched::user_pages::{
    frame_at, frames_known, pages_outside, protected, range_pages, release_pages_in, release_ready, released_metas, remapped,
    shared_metas, shared_pages, UserPageTable,
};
use crate::utils::arc::Arc;

verus! {

/// What fills the pages of a lazily backed area when they are first touched.
pub trait LazyPageBufferSource {
    /// Whether a page buffer of `len` bytes can be filled from byte `offset`.
    spec fn page_readable(&self, offset: int, len: int) -> bool;

    /// What `read_page` leaves in a page buffer that held `buf`.
    spec fn page_contents(&self, offset: int, buf: Seq<u8>) -> Seq<u8>;

    fn read_page(&self, offset: usize, buf: &mut Vec<u8>)
        requires
            self.page_readable(offset as int, old(buf)@.len() as int),
        ensures
            final(buf)@ == self.page_contents(offset as int, old(buf)@),
    ;
}

/// A source that leaves pages as they are.
#[derive(Debug, Copy, Clone, PartialEq, Eq, Structural)]
pub struct LazyPageUninitSource;

impl LazyPageBufferSource for LazyPageUninitSource {
    open spec fn page_readable(&self, offset: int, len: int) -> bool {
        true
    }

    open spec fn page_contents(&self, offset: int, buf: Seq<u8>) -> Seq<u8> {
        buf
    }

    fn read_page(&self, offset: usize, buf: &mut Vec<u8>) {
        let _ = offset;
    }
}

/// A source that zeroes pages.
#[derive(Debug, Copy, Clone, PartialEq, Eq, Structural)]
pub struct LazyPageZeroedSource;

impl LazyPageBufferSource for LazyPageZeroedSource {
    open spec fn page_readable(&self, offset: int, len: int) -> bool {
        true
    }

    open spec fn page_contents(&self, offset: int, buf: Seq<u8>) -> Seq<u8> {
        Seq::new(buf.len(), |_i: int| 0u8)
    }

    fn read_page(&self, offset: usize, buf: &mut Vec<u8>) {
        let _ = offset;
        crate::bytes::zero_from(buf, 0);
        assert(buf@ =~= Seq::new(old(buf)@.len(), |_i: int| 0u8));
    }
}

impl LazyPageBufferSource for Segment {
    open spec fn page_readable(&self, offset: int, len: int) -> bool {
        Segment::page_readable(self, offset, len)
    }

    open spec fn page_contents(&self, offset: int, buf: Seq<u8>) -> Seq<u8> {
        Segment::page_contents(self, offset, buf)
    }

    fn read_page(&self, offset: usize, buf: &mut Vec<u8>) {
        Segment::read_page(self, offset, buf)
    }
}

/// Virtual addresses `start..end` of a lazily backed area.
#[derive(Copy, Debug, Clone, PartialEq, Eq, Structural)]
pub struct LazyVmaBounds(pub usize, pub usize);

impl LazyVmaBounds {
    pub fn start(&self) -> (r: usize)
        ensures
            r == self.0,
    {
        self.0
    }

    pub fn end(&self) -> (r: usize)
        ensures
            r == self.1,
    {
        self.1
    }

    pub fn set_start(&mut self, start: usize)
        ensures
            *final(self) == LazyVmaBounds(start, old(self).1),
    {
        self.0 = start;
    }

    pub fn set_end(&mut self, end: usize)
        ensures
            *final(self) == LazyVmaBounds(old(self).0, end),
    {
        self.1 = end;
    }

    pub fn contains(&self, vma: usize) -> (r: bool)
        ensures
            r == (self.0 <= vma && vma < self.1),
    {
        self.start() <= vma && vma < self.end()
    }
}

/// What the caller of `page_fault` does next.
#[derive(Debug, Clone, Copy, PartialEq, Eq, Structural)]
pub enum LazyFaultAction {
    /// Take a fresh page, fill it with `fill_page` at `source_offset` and map it at `page_vma`.
    Fill { page_vma: usize, source_offset: usize },
    /// Replace the shared page mapped at `page_vma` by a private, writable copy.
    CopyOnWrite { page_vma: usize },
}

/// What to do about a fault of type `fault` at `vma`, an address of the area whose pages
/// start at `area.vma`: an access fault, or one past the area's pages, is not handled; a
/// missing page is filled from its offset in the area; a write to a shared page copies it.
pub open spec fn fault_action(area: VmaAllocatedArea, fault: PageFaultType, vma: usize) -> Result<LazyFaultAction, PageFaultError> {
    let page_offset = (vma - area.vma) / PAGE_SIZE as int;
    match fault {
        PageFaultType::Access => Err(PageFaultError::Unhandled),
        _ => if page_offset >= area.pfn_count {
            Err(PageFaultError::Unhandled)
        } else if fault is Translation {
            Ok(LazyFaultAction::Fill {
                page_vma: (vma - vma % 4096) as usize,
                source_offset: (page_offset * PAGE_SIZE) as usize,
            })
        } else {
            Ok(LazyFaultAction::CopyOnWrite { page_vma: (vma - vma % 4096) as usize })
        },
    }
}

/// An area of virtual memory whose pages are made when first touched.
pub struct LazyPageBuffer<S: LazyPageBufferSource> {
    pub vma_area: VmaAllocatedArea,
    pub anon_vma: Arc<AnonPageMeta>,
    pub vma_bounds: LazyVmaBounds,
    pub source: S,
}

impl LazyPageBuffer<LazyPageUninitSource> {
    pub fn new_uninit(start_address: usize, end_address: usize) -> (r: Self)
        ensures
            r.vma_bounds == LazyVmaBounds(start_address, end_address),
            r.vma_area.vma == start_address,
            r.vma_area.pfn_count == (if end_address >= start_address { end_address - start_address } else { 0 }) / PAGE_SIZE as int,
    {
        Self::new(LazyPageUninitSource, start_address, end_address)
    }
}

impl LazyPageBuffer<LazyPageZeroedSource> {
    pub fn new_zeroed(start_address: usize, end_address: usize) -> (r: Self)
        ensures
            r.vma_bounds == LazyVmaBounds(start_address, end_address),
            r.vma_area.vma == start_address,
            r.vma_area.pfn_count == (if end_address >= start_address { end_address - start_address } else { 0 }) / PAGE_SIZE as int,
    {
        Self::new(LazyPageZeroedSource, start_address, end_address)
    }
}

/// Number of pages needed to reach `addr`.
pub open spec fn pages_up_to(addr: int) -> int {
    (addr + PAGE_SIZE - 1) / PAGE_SIZE as int
}

/// Pages needed to reach `addr`, rounded up.
fn pages_for(addr: usize) -> (r: usize)
    ensures
        r == pages_up_to(addr as int),
{
    addr / PAGE_SIZE + if addr % PAGE_SIZE == 0 { 0 } else { 1 }
}

impl<S: LazyPageBufferSource> LazyPageBuffer<S> {
    /// Shares the valid pages of `parent` within the area's pages with `child`, as a fork
    /// does: each becomes read-only in `parent`, `child` maps its frame read-only after its
    /// own pages, and the frame takes one more use.
    pub fn share_pages(&self, parent: &mut UserPageTable, child: &mut UserPageTable, metas: &mut Vec<PageMeta>)
        requires
            area_end(self.vma_area) <= usize::MAX,
            frames_known(old(metas)@, old(parent).pages@),
        ensures
            final(parent).pages@ == protected(old(parent).pages@, self.vma_area.vma as int, area_end(self.vma_area)),
            final(child).pages@ == old(child).pages@ + shared_pages(
                old(parent).pages@,
                self.vma_area.vma as int,
                area_end(self.vma_area),
            ),
            final(metas)@ == shared_metas(old(metas)@, old(parent).pages@, self.vma_area.vma as int, area_end(self.vma_area)),
    {
        let base_vma = self.vma_area.vma();
        let pfn_count = self.vma_area.pfn_count();
        let end_vma = base_vma + pfn_count * PAGE_SIZE;
        parent.share_range(child, base_vma, end_vma, metas);
    }
}

impl<S: LazyPageBufferSource + Clone> LazyPageBuffer<S> {
    /// The same area for a forked process: its own record of the pages, whose anonymous
    /// metadata descends from this one; `share_pages` shares its valid pages.
    pub fn fork(&self) -> (r: Self)
        ensures
            r.vma_area.vma == self.vma_area.vma,
            r.vma_area.pfn_count == self.vma_area.pfn_count,
            r.vma_bounds == self.vma_bounds,
            r.anon_vma@.parent matches Some(p) && p@ == self.anon_vma@,
            r.anon_vma@.vma_tree@.len() == 0,
    {
        let vma_area = VmaAllocatedArea::new(self.vma_area.vma(), self.vma_area.pfn_count());
        let anon_vma = Arc::new(AnonPageMeta::new(Some(self.anon_vma.share())));
        Self { vma_area, anon_vma, source: self.source.clone(), vma_bounds: self.vma_bounds }
    }
}

impl<S: LazyPageBufferSource> LazyPageBuffer<S> {
    pub fn inner_ref(&self) -> (r: &S)
        ensures
            *r == self.source,
    {
        &self.source
    }

    pub fn inner_mut(&mut self) -> (r: &mut S)
        ensures
            *r == old(self).source,
            final(self).source == *final(r),
            final(self).vma_area == old(self).vma_area,
            final(self).anon_vma == old(self).anon_vma,
            final(self).vma_bounds == old(self).vma_bounds,
    {
        &mut self.source
    }

    /// An area `start_address..end_address` of whole pages filled from `source`.
    pub fn new(source: S, start_address: usize, end_address: usize) -> (r: Self)
        ensures
            r.source == source,
            r.vma_bounds == LazyVmaBounds(start_address, end_address),
            r.vma_area.vma == start_address,
            r.vma_area.pfn_count == (if end_address >= start_address { end_address - start_address } else { 0 }) / PAGE_SIZE as int,
            r.anon_vma@.parent is None,
            r.anon_vma@.vma_tree@.len() == 0,
    {
        let page_count = end_address.saturating_sub(start_address) / PAGE_SIZE;
        let vma_area = VmaAllocatedArea::new(start_address, page_count);
        let anon_vma = Arc::new(AnonPageMeta::new(None));
        Self { vma_area, anon_vma, source, vma_bounds: LazyVmaBounds(start_address, end_address) }
    }

    pub fn start_address(&self) -> (r: usize)
        ensures
            r == self.vma_bounds.0,
    {
        self.vma_bounds.start()
    }

    pub fn contains_vma(&self, vma: usize) -> (r: bool)
        ensures
            r == (self.vma_bounds.0 <= vma && vma < self.vma_bounds.1),
    {
        self.vma_bounds.contains(vma)
    }

    pub fn end_address(&self) -> (r: usize)
        ensures
            r == self.vma_bounds.1,
    {
        self.vma_bounds.end()
    }

    /// Moves the end of the area to `end_address`, growing or shrinking its page count by the
    /// difference in pages. When the area shrinks, every valid page of `table` from the new end
    /// up to the old one loses its use of its frame and becomes invalid.
    pub fn set_end_bound(&mut self, end_address: usize, table: &mut UserPageTable, metas: &mut Vec<PageMeta>)
        requires
            end_address < old(self).vma_bounds.1 ==> release_ready(
                old(metas)@,
                old(table).pages@,
                end_address as int,
                old(self).vma_bounds.1 as int,
            ),
        ensures
            final(self).vma_bounds == LazyVmaBounds(old(self).vma_bounds.0, end_address),
            final(self).vma_area.vma == old(self).vma_area.vma,
            final(self).vma_area.pfn_count == crate::subsystem::page::meta::clamp_count(
                old(self).vma_area.pfn_count + pages_up_to(end_address as int) - pages_up_to(old(self).vma_bounds.1 as int),
            ),
            final(self).source == old(self).source,
            final(self).anon_vma == old(self).anon_vma,
            end_address < old(self).vma_bounds.1 ==> final(metas)@ == released_metas(
                old(metas)@,
                old(table).pages@,
                end_address as int,
                old(self).vma_bounds.1 as int,
            ) && final(table).pages@ == pages_outside(old(table).pages@, end_address as int, old(self).vma_bounds.1 as int),
            end_address >= old(self).vma_bounds.1 ==> final(metas)@ == old(metas)@ && final(table).pages@ == old(table).pages@,
    {
        let old_end_address = self.vma_bounds.end();
        let end_page_before = pages_for(old_end_address);
        let end_page_after = pages_for(end_address);
        if end_page_after >= end_page_before {
            self.vma_area.grow_pfn_count(end_page_after - end_page_before);
        } else {
            self.vma_area.shrink_pfn_count(end_page_before - end_page_after);
        }
        if end_address < self.vma_bounds.end() {
            table.invalidate_range(end_address, old_end_address, metas);
        }
        self.vma_bounds.set_end(end_address);
    }

    /// What to do about a fault of type `fault` at `vma`, an address of this area.
    pub fn page_fault(&self, fault: PageFaultType, vma: usize) -> (r: Result<LazyFaultAction, PageFaultError>)
        requires
            vma >= self.vma_area.vma,
        ensures
            r == fault_action(self.vma_area, fault, vma),
    {
        match fault {
            PageFaultType::Access => Err(PageFaultError::Unhandled),
            _ => {
                let byte_offset = vma - self.vma_area.vma();
                let page_offset = byte_offset / PAGE_SIZE;
                if page_offset >= self.vma_area.pfn_count() {
                    return Err(PageFaultError::Unhandled);
                }
                let page_vma = vma & !(PAGE_SIZE - 1);
                proof {
                    assert(vma & !(4095usize) == vma - vma % 4096) by (bit_vector);
                }
                match fault {
                    PageFaultType::Translation => Ok(LazyFaultAction::Fill { page_vma, source_offset: page_offset * PAGE_SIZE }),
                    _ => Ok(LazyFaultAction::CopyOnWrite { page_vma }),
                }
            },
        }
    }

    /// Fills a fresh page for the page at byte `offset` of the area.
    pub fn fill_page(&self, offset: usize, buf: &mut Vec<u8>)
        requires
            self.source.page_readable(offset as int, old(buf)@.len() as int),
        ensures
            final(buf)@ == self.source.page_contents(offset as int, old(buf)@),
    {
        self.source.read_page(offset, buf)
    }

    /// Drops the area's use of the frame of every valid page of `table` within the area's
    /// pages.
    pub fn release_pages(&self, table: &UserPageTable, metas: &mut Vec<PageMeta>)
        requires
            self.vma_area.vma + self.vma_area.pfn_count * PAGE_SIZE <= usize::MAX,
            release_ready(old(metas)@, table.pages@, self.vma_area.vma as int, area_end(self.vma_area)),
        ensures
            final(metas)@ == released_metas(old(metas)@, table.pages@, self.vma_area.vma as int, area_end(self.vma_area)),
    {
        let base_vma = self.vma_area.vma();
        let pfn_count = self.vma_area.pfn_count();
        let end_vma = base_vma + pfn_count * PAGE_SIZE;
        release_pages_in(&table.pages, base_vma, end_vma, metas);
    }
}

/// The first address past the pages of `area`.
pub open spec fn area_end(area: VmaAllocatedArea) -> int {
    area.vma + area.pfn_count * PAGE_SIZE
}

} // verus!

verus! {

use crate::memory::{reserved, PageAllocator, Pfn};
use crate::subsystem::page::meta::{page_type_of, LOCKED, PAGE_TYPE_ANON, PAGE_TYPE_MASK, PAGE_TYPE_SHIFT};

/// Whether every page that `pages` marks free has metadata in `metas`, indexed by frame
/// number, that is unlocked and of a known type.
pub open spec fn free_pages_ready(pages: PageAllocator, metas: Seq<PageMeta>) -> bool {
    &&& pages.offset + pages.page_count() <= metas.len()
    &&& forall|p: int| 0 <= p < pages.page_count() && !#[trigger] pages.used(p) ==> metas[pages.offset + p].flags.0 & LOCKED == 0
        && page_type_of(metas[pages.offset + p].flags.0) < 3
}

/// Whether `after` is `before` with the page at `i` taken by one more user as an anonymous
/// page of area `anon`, and every other page as it was.
pub open spec fn taken_as_anon(before: Seq<PageMeta>, after: Seq<PageMeta>, i: int, anon: Arc<AnonPageMeta>) -> bool {
    &&& after.len() == before.len()
    &&& after[i].refcount == before[i].refcount.wrapping_add(1)
    &&& after[i].flags.0 == (before[i].flags.0 & !PAGE_TYPE_MASK) | (PAGE_TYPE_ANON << PAGE_TYPE_SHIFT)
    &&& after[i].meta == Some(anon)
    &&& forall|k: int| 0 <= k < before.len() && k != i ==> #[trigger] after[k] == before[k]
}

/// Whether page metadata `a` is `b` with one user less: when that was the last user, the page
/// becomes unused and an anonymous page forgets its area.
pub open spec fn dropped_use(b: PageMeta, a: PageMeta) -> bool {
    &&& a.refcount == b.refcount.wrapping_sub(1)
    &&& b.refcount != 1 ==> a.flags == b.flags && a.meta == b.meta
    &&& b.refcount == 1 ==> a.flags.0 == (b.flags.0 & !PAGE_TYPE_MASK) && (page_type_of(b.flags.0) == PAGE_TYPE_ANON
        ==> a.meta is None) && (page_type_of(b.flags.0) != PAGE_TYPE_ANON ==> a.meta == b.meta)
}

/// Takes the page at `i` for one more user as an anonymous page of `anon`, under its lock.
fn take_page_as_anon(metas: &mut Vec<PageMeta>, i: usize, anon: Arc<AnonPageMeta>)
    requires
        i < old(metas)@.len(),
        old(metas)@[i as int].flags.0 & LOCKED == 0,
        page_type_of(old(metas)@[i as int].flags.0) < 3,
    ensures
        taken_as_anon(old(metas)@, final(metas)@, i as int, anon),
{
    let mut meta = metas.remove(i);
    let ghost f = meta.flags.0;
    meta.inc_refcount();
    let _ = meta.flags.try_lock();
    meta.flags.set_page_type(PAGE_TYPE_ANON);
    meta.meta = Some(anon);
    meta.flags.unlock();
    proof {
        assert(f & 1u32 == 0u32 ==> ((((f | 1u32) & !0xE0u32) | (2u32 << 5u32)) ^ 1u32) == ((f & !0xE0u32) | (2u32 << 5u32)))
            by (bit_vector);
    }
    metas.insert(i, meta);
    proof {
        assert forall|k: int| 0 <= k < old(metas)@.len() && k != i implies #[trigger] metas@[k] == old(metas)@[k] by {
            if k < i {
            } else {
            }
        }
    }
}

impl<S: LazyPageBufferSource> LazyPageBuffer<S> {
    /// Handles a missing page at `source_offset` of the area: reserves a frame from `pages`,
    /// takes it as an anonymous page of this area, and fills `frame`, the frame's bytes, from
    /// the source. Returns the frame for the caller to map, or `None` when no frame is free.
    pub fn fill_fault(
        &self,
        pages: &mut PageAllocator,
        metas: &mut Vec<PageMeta>,
        source_offset: usize,
        frame: &mut Vec<u8>,
    ) -> (r: Option<Pfn>)
        requires
            old(pages).wf(),
            free_pages_ready(*old(pages), old(metas)@),
            self.source.page_readable(source_offset as int, old(frame)@.len() as int),
        ensures
            final(pages).wf(),
            final(pages).offset == old(pages).offset,
            final(pages).bitmask@.len() == old(pages).bitmask@.len(),
            reserved(*old(pages), 1, *final(pages), r),
            r is None ==> final(metas)@ == old(metas)@ && final(frame)@ == old(frame)@,
            r matches Some(pfn) ==> taken_as_anon(old(metas)@, final(metas)@, pfn.0 as int, self.anon_vma)
                && final(frame)@ == self.source.page_contents(source_offset as int, old(frame)@),
    {
        let got = pages.reserve_pages(1);
        match got {
            None => None,
            Some(pfn) => {
                proof {
                    assert(old(pages).free_run(pfn.0 - old(pages).offset, 1));
                    assert(!old(pages).used(pfn.0 - old(pages).offset));
                }
                take_page_as_anon(metas, pfn.0, self.anon_vma.share());
                self.fill_page(source_offset, frame);
                Some(pfn)
            },
        }
    }

    /// Handles a write to a shared page: reserves a frame from `pages`, takes it as an
    /// anonymous page of this area, copies `current`, the bytes of the shared frame
    /// `current_pfn`, into `frame`, the new frame's bytes, and drops the area's use of the
    /// shared frame. Returns the new frame for the caller to map writable, or `None` when no
    /// frame is free.
    pub fn copy_on_write_fault(
        &self,
        pages: &mut PageAllocator,
        metas: &mut Vec<PageMeta>,
        current_pfn: Pfn,
        current: &[u8],
        frame: &mut Vec<u8>,
    ) -> (r: Option<Pfn>)
        requires
            old(pages).wf(),
            free_pages_ready(*old(pages), old(metas)@),
            current_pfn.0 < old(metas)@.len(),
            old(pages).offset <= current_pfn.0 < old(pages).offset + old(pages).page_count(),
            old(pages).used(current_pfn.0 - old(pages).offset),
            old(metas)@[current_pfn.0 as int].refcount == 1 ==> old(metas)@[current_pfn.0 as int].flags.0 & LOCKED == 0,
            current@.len() == old(frame)@.len(),
        ensures
            final(pages).wf(),
            final(pages).offset == old(pages).offset,
            final(pages).bitmask@.len() == old(pages).bitmask@.len(),
            reserved(*old(pages), 1, *final(pages), r),
            r is None ==> final(metas)@ == old(metas)@ && final(frame)@ == old(frame)@,
            r matches Some(pfn) ==> ({
                let taken = old(metas)@.update(pfn.0 as int, final(metas)@[pfn.0 as int]);
                &&& pfn != current_pfn
                &&& taken_as_anon(old(metas)@, taken, pfn.0 as int, self.anon_vma)
                &&& final(metas)@ == taken.update(current_pfn.0 as int, final(metas)@[current_pfn.0 as int])
                &&& dropped_use(old(metas)@[current_pfn.0 as int], final(metas)@[current_pfn.0 as int])
                &&& final(frame)@ == current@
            }),
    {
        let got = pages.reserve_pages(1);
        match got {
            None => None,
            Some(pfn) => {
                proof {
                    assert(old(pages).free_run(pfn.0 - old(pages).offset, 1));
                    assert(!old(pages).used(pfn.0 - old(pages).offset));
                }
                let ghost before = metas@;
                take_page_as_anon(metas, pfn.0, self.anon_vma.share());
                let ghost taken = metas@;
                let n = frame.len();
                crate::bytes::copy_into(frame, 0, current, 0, n);
                assert(frame@ =~= current@);
                let mut old_page = metas.remove(current_pfn.0);
                old_page.dec_refcount();
                metas.insert(current_pfn.0, old_page);
                proof {
                    assert(pfn != current_pfn);
                    assert(taken =~= old(metas)@.update(pfn.0 as int, metas@[pfn.0 as int]));
                    assert(metas@ =~= taken.update(current_pfn.0 as int, metas@[current_pfn.0 as int]));
                }
                Some(pfn)
            },
        }
    }
}


/// Whether a fault of type `fault` at `vma` in `area` can be resolved: a frame is free when
/// the fault asks for one, the source can fill `frame` at the offset a missing page asks
/// for, and the shared frame a write hits has metadata, is in use, can drop a use, and holds
/// as many bytes as `current`.
pub open spec fn fault_ready<S: LazyPageBufferSource>(
    b: LazyPageBuffer<S>,
    fault: PageFaultType,
    vma: usize,
    pages: PageAllocator,
    metas: Seq<PageMeta>,
    table: Seq<(usize, usize, bool)>,
    frame: Seq<u8>,
    current: Seq<u8>,
) -> bool {
    &&& vma >= b.vma_area.vma
    &&& fault_action(b.vma_area, fault, vma) is Ok ==> exists|s: int| #[trigger] pages.free_run(s, 1)
    &&& fault_action(b.vma_area, fault, vma) matches Ok(LazyFaultAction::Fill { source_offset, .. })
        ==> b.source.page_readable(source_offset as int, frame.len() as int)
    &&& fault_action(b.vma_area, fault, vma) matches Ok(LazyFaultAction::CopyOnWrite { page_vma })
        ==> (frame_at(table, page_vma) matches Some(c) ==> {
        &&& c < metas.len()
        &&& pages.offset <= c < pages.offset + pages.page_count()
        &&& pages.used(c - pages.offset)
        &&& metas[c as int].refcount == 1 ==> metas[c as int].flags.0 & LOCKED == 0
        &&& current.len() == frame.len()
    })
}

/// Whether `r` and the states after (`p1`, `m1`, `t1`, `f1`) are what resolving a fault of
/// type `fault` at `vma` in area `b` makes of those before (`p0`, `m0`, `t0`, `f0`), with
/// `current` the bytes of the frame a write hits: see `LazyPageBuffer::handle_fault`.
pub open spec fn fault_resolved<S: LazyPageBufferSource>(
    b: LazyPageBuffer<S>,
    fault: PageFaultType,
    vma: usize,
    p0: PageAllocator,
    p1: PageAllocator,
    m0: Seq<PageMeta>,
    m1: Seq<PageMeta>,
    t0: Seq<(usize, usize, bool)>,
    t1: Seq<(usize, usize, bool)>,
    f0: Seq<u8>,
    f1: Seq<u8>,
    current: Seq<u8>,
    r: Result<Option<Pfn>, PageFaultError>,
) -> bool {
    match fault_action(b.vma_area, fault, vma) {
        Err(e) => r == Err::<Option<Pfn>, PageFaultError>(e) && p1 == p0 && m1 == m0 && t1 == t0 && f1 == f0,
        Ok(LazyFaultAction::Fill { page_vma, source_offset }) => r matches Ok(Some(pfn)) && reserved(p0, 1, p1, Some(pfn))
            && taken_as_anon(m0, m1, pfn.0 as int, b.anon_vma) && f1 == b.source.page_contents(source_offset as int, f0)
            && t1 == t0.push((page_vma, pfn.0, true)),
        Ok(LazyFaultAction::CopyOnWrite { page_vma }) => match frame_at(t0, page_vma) {
            None => r == Ok::<Option<Pfn>, PageFaultError>(None) && p1 == p0 && m1 == m0 && t1 == t0 && f1 == f0,
            Some(c) => r matches Ok(Some(pfn)) && {
                let taken = m0.update(pfn.0 as int, m1[pfn.0 as int]);
                &&& reserved(p0, 1, p1, Some(pfn))
                &&& pfn.0 != c
                &&& taken_as_anon(m0, taken, pfn.0 as int, b.anon_vma)
                &&& m1 == taken.update(c as int, m1[c as int])
                &&& dropped_use(m0[c as int], m1[c as int])
                &&& f1 == current
                &&& t1 == remapped(t0, page_vma, pfn.0)
            },
        },
    }
}

impl<S: LazyPageBufferSource> LazyPageBuffer<S> {
    /// Resolves a fault of type `fault` at `vma`, an address of this area, in the tables
    /// whose valid pages are `table`. A missing page gets a fresh frame filled from the source
    /// in `frame` and mapped at the page. A write to a shared page gets a fresh frame holding a
    /// copy of `current`, the bytes of the frame the first valid page there maps; that frame
    /// loses the area's use and the page maps the copy. Returns the fresh frame, or `None`
    /// when a write hits a page that no valid page maps.
    pub fn handle_fault(
        &self,
        fault: PageFaultType,
        vma: usize,
        pages: &mut PageAllocator,
        metas: &mut Vec<PageMeta>,
        table: &mut UserPageTable,
        frame: &mut Vec<u8>,
        current: &[u8],
    ) -> (r: Result<Option<Pfn>, PageFaultError>)
        requires
            old(pages).wf(),
            free_pages_ready(*old(pages), old(metas)@),
            fault_ready(*self, fault, vma, *old(pages), old(metas)@, old(table).pages@, old(frame)@, current@),
        ensures
            fault_resolved(
                *self,
                fault,
                vma,
                *old(pages),
                *final(pages),
                old(metas)@,
                final(metas)@,
                old(table).pages@,
                final(table).pages@,
                old(frame)@,
                final(frame)@,
                current@,
                r,
            ),
            final(pages).wf(),
    {
        match self.page_fault(fault, vma) {
            Err(e) => Err(e),
            Ok(LazyFaultAction::Fill { page_vma, source_offset }) => {
                match self.fill_fault(pages, metas, source_offset, frame) {
                    Some(pfn) => {
                        table.map_page_range(page_vma, pfn.0, 1);
                        proof {
                            assert(range_pages(page_vma as int, pfn.0 as int, 1) =~= seq![(page_vma, pfn.0, true)]);
                            assert(table.pages@ =~= old(table).pages@.push((page_vma, pfn.0, true)));
                        }
                        Ok(Some(pfn))
                    },
                    None => {
                        proof {
                            let s = choose|s: int| #[trigger] old(pages).free_run(s, 1);
                            assert(old(pages).free_run(s, 1));
                        }
                        Err(PageFaultError::Unhandled)
                    },
                }
            },
            Ok(LazyFaultAction::CopyOnWrite { page_vma }) => {
                match table.lookup(page_vma) {
                    None => Ok(None),
                    Some(c) => {
                        match self.copy_on_write_fault(pages, metas, Pfn(c), current, frame) {
                            Some(pfn) => {
                                table.remap(page_vma, pfn.0);
                                Ok(Some(pfn))
                            },
                            None => {
                                proof {
                                    let s = choose|s: int| #[trigger] old(pages).free_run(s, 1);
                                    assert(old(pages).free_run(s, 1));
                                }
                                Err(PageFaultError::Unhandled)
                            },
                        }
                    },
                }
            },
        }
    }
}

} // verus!
