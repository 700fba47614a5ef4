use vstd::prelude::*;
use crate::driver::{reg_name, reg_window};
use crate::dtb::parser::{lemma_find_prop_from_bounds, FdtNode};

verus! {

broadcast use vstd::layout::layout_of_primitives;

pub const PAGE_SHIFT: usize = 12;

pub const PAGE_SIZE: usize = 4096;

/// Kernel virtual addresses of physical pages carry these upper bits.
pub const KERNEL_DIRECT_MAP: u64 = 0xffff_ff80_0000_0000;

/// Page frame number.
#[derive(Clone, Copy, PartialEq, Eq, Structural, Debug)]
pub struct Pfn(pub usize);

impl Pfn {
    /// Frame of a virtual address: the low 32 bits of the address, divided by the page size.
    pub fn from_virt_addr(virt: usize) -> (r: Pfn)
        ensures
            r.0 == (virt & 0xffff_ffff) as int / PAGE_SIZE as int,
    {
        let low = virt & 0xffff_ffff;
        assert(low >> 12usize == low / 4096) by (bit_vector);
        Pfn(low >> PAGE_SHIFT)
    }

    /// Frame of the page holding the object at `addr`.
    pub fn from_ptr(addr: usize) -> (r: Pfn)
        ensures
            r.0 == (addr & 0xffff_ffff) as int / PAGE_SIZE as int,
    {
        Self::from_virt_addr(addr)
    }

    pub fn number(&self) -> (r: usize)
        ensures
            r == self.0,
    {
        self.0
    }

    /// Kernel virtual address of the start of this frame: its physical address with the
    /// direct-map bits set, which for a frame below the direct map's size is their sum.
    pub fn as_ptr(&self) -> (r: u64)
        requires
            self.0 * PAGE_SIZE <= usize::MAX,
        ensures
            r == (self.0 * PAGE_SIZE) as u64 | KERNEL_DIRECT_MAP,
            self.0 * PAGE_SIZE < 0x80_0000_0000 ==> r == KERNEL_DIRECT_MAP + self.0 * PAGE_SIZE,
    {
        let base: u64 = (self.0 * PAGE_SIZE) as u64;
        assert(base < 0x80_0000_0000u64 ==> base | 0xffff_ff80_0000_0000u64
            == base + 0xffff_ff80_0000_0000u64) by (bit_vector);
        base | KERNEL_DIRECT_MAP
    }
}

impl From<usize> for Pfn {
    fn from(value: usize) -> (r: Pfn)
        ensures
            r.0 == value,
    {
        Pfn(value)
    }
}

impl vstd::std_specs::convert::FromSpecImpl<usize> for Pfn {
    open spec fn obeys_from_spec() -> bool {
        true
    }

    open spec fn from_spec(v: usize) -> Pfn {
        Pfn(v)
    }
}

/// Bits of one bitmask word that the allocator uses: one per byte of the word.
pub const BITMASK_ELEMENT_SIZE: usize = 8;

/// Whether bit `k` of `w` is set.
pub open spec fn bit_set(w: u64, k: u64) -> bool {
    w & (1u64 << k) != 0
}

proof fn lemma_bit_or(w: u64, k: u64, j: u64)
    requires
        k < 64,
        j < 64,
    ensures
        bit_set(w | (1u64 << k), j) == (j == k || bit_set(w, j)),
{
    assert((w | (1u64 << k)) & (1u64 << j) != 0 <==> (j == k || w & (1u64 << j) != 0))
        by (bit_vector)
        requires
            k < 64,
            j < 64,
    ;
}

proof fn lemma_bit_clear(w: u64, k: u64, j: u64)
    requires
        k < 64,
        j < 64,
    ensures
        bit_set(w & !(1u64 << k), j) == (j != k && bit_set(w, j)),
{
    assert((w & !(1u64 << k)) & (1u64 << j) != 0 <==> (j != k && w & (1u64 << j) != 0))
        by (bit_vector)
        requires
            k < 64,
            j < 64,
    ;
}

/// Whether `after` and `r` are what reserving the first run of `count` free pages in frame
/// order makes of `before`: with no such run nothing changes and `r` is `None`; else `r` is the
/// run's first frame and its pages are marked used.
pub open spec fn reserved(before: PageAllocator, count: int, after: PageAllocator, r: Option<Pfn>) -> bool {
    match r {
        None => {
            &&& after.bitmask@ == before.bitmask@
            &&& after@ == before@
            &&& count > 0 ==> forall|s: int| !#[trigger] before.free_run(s, count)
        },
        Some(pfn) => {
            &&& pfn.0 >= before.offset
            &&& count > 0 ==> before.free_run(pfn.0 - before.offset, count)
            &&& count > 0 ==> forall|s: int| s < pfn.0 - before.offset ==> !#[trigger] before.free_run(s, count)
            &&& forall|p: int| 0 <= p < before.page_count() ==> #[trigger] after.used(p)
                == if pfn.0 - before.offset <= p < pfn.0 - before.offset + count { true } else { before.used(p) }
        },
    }
}

/// Physical page allocator: one bit per page, set when the page is in use.
pub struct PageAllocator {
    pub bitmask: Vec<u64>,
    /// Frame number of the first page that the bitmask covers.
    pub offset: usize,
}

impl PageAllocator {
    /// Number of pages that the bitmask covers.
    pub open spec fn page_count(&self) -> int {
        self.bitmask@.len() * BITMASK_ELEMENT_SIZE
    }

    /// Whether the page at local index `p` (counted from `offset`) is in use.
    pub open spec fn used(&self, p: int) -> bool {
        bit_set(self.bitmask@[p / 8], (p % 8) as u64)
    }

    /// The use of every page that the allocator covers, by local index.
    pub open spec fn view(&self) -> Seq<bool> {
        Seq::new(self.page_count() as nat, |p: int| self.used(p))
    }

    /// The frame range that the bitmask covers fits in a machine word.
    pub open spec fn wf(&self) -> bool {
        self.offset + self.page_count() <= usize::MAX
    }

    /// Whether the pages at local indices `[s, s + count)` are all free.
    pub open spec fn free_run(&self, s: int, count: int) -> bool {
        &&& 0 <= s
        &&& s + count <= self.page_count()
        &&& forall|p: int| s <= p < s + count ==> !#[trigger] self.used(p)
    }

    pub fn new(bitmask: Vec<u64>, offset: usize) -> (r: Self)
        ensures
            r.bitmask@ == bitmask@,
            r.offset == offset,
    {
        PageAllocator { bitmask, offset }
    }

    /// Bitmask words needed to cover `size` bytes of memory.
    pub fn bitmask_len_for_memory(size: usize) -> (r: usize)
        ensures
            r == ((size as int + PAGE_SIZE - 1) / PAGE_SIZE as int + BITMASK_ELEMENT_SIZE - 1)
                / BITMASK_ELEMENT_SIZE as int,
    {
        let pages = size / PAGE_SIZE + if size % PAGE_SIZE == 0 { 0 } else { 1 };
        let r = pages / BITMASK_ELEMENT_SIZE + if pages % BITMASK_ELEMENT_SIZE == 0 { 0 } else { 1 };
        r
    }

    pub fn is_free(&self, pfn: Pfn) -> (r: bool)
        requires
            pfn.0 >= self.offset,
            pfn.0 - self.offset < self.page_count(),
        ensures
            r == !self.used(pfn.0 - self.offset),
    {
        let local_pfn: usize = pfn.number() - self.offset;
        let index = local_pfn / BITMASK_ELEMENT_SIZE;
        let offset = local_pfn % BITMASK_ELEMENT_SIZE;
        assert(core::mem::size_of::<u64>() == 8);
        self.bitmask[index] & (1u64 << (offset as u64)) == 0
    }

    /// Marks up to `count` pages from `pfn` on as used, clipped to the covered range.
    /// Returns how many pages were marked.
    pub fn mark_used(&mut self, pfn: Pfn, count: usize) -> (r: usize)
        requires
            old(self).wf(),
            pfn.0 >= old(self).offset,
        ensures
            final(self).wf(),
            final(self).offset == old(self).offset,
            final(self).bitmask@.len() == old(self).bitmask@.len(),
            forall|w: int| 0 <= w < old(self).bitmask@.len() ==> (#[trigger] final(self).bitmask@[w]) >> 8u64
                == old(self).bitmask@[w] >> 8u64,
            r == vstd::math::min(count as int, vstd::math::max(0, old(self).page_count() - (pfn.0 - old(self).offset))),
            forall|p: int| 0 <= p < old(self).page_count() ==> #[trigger] final(self).used(p)
                == if pfn.0 - old(self).offset <= p < pfn.0 - old(self).offset + r { true } else { old(self).used(p) },
    {
        self.mark_range(pfn, count, true)
    }

    /// Marks up to `count` pages from `pfn` on as free, clipped to the covered range.
    /// Returns how many pages were marked.
    pub fn mark_free(&mut self, pfn: Pfn, count: usize) -> (r: usize)
        requires
            old(self).wf(),
            pfn.0 >= old(self).offset,
        ensures
            final(self).wf(),
            final(self).offset == old(self).offset,
            final(self).bitmask@.len() == old(self).bitmask@.len(),
            forall|w: int| 0 <= w < old(self).bitmask@.len() ==> (#[trigger] final(self).bitmask@[w]) >> 8u64
                == old(self).bitmask@[w] >> 8u64,
            r == vstd::math::min(count as int, vstd::math::max(0, old(self).page_count() - (pfn.0 - old(self).offset))),
            forall|p: int| 0 <= p < old(self).page_count() ==> #[trigger] final(self).used(p)
                == if pfn.0 - old(self).offset <= p < pfn.0 - old(self).offset + r { false } else { old(self).used(p) },
    {
        self.mark_range(pfn, count, false)
    }

    fn mark_range(&mut self, pfn: Pfn, count: usize, used: bool) -> (r: usize)
        requires
            old(self).wf(),
            pfn.0 >= old(self).offset,
        ensures
            final(self).wf(),
            final(self).offset == old(self).offset,
            final(self).bitmask@.len() == old(self).bitmask@.len(),
            forall|w: int| 0 <= w < old(self).bitmask@.len() ==> (#[trigger] final(self).bitmask@[w]) >> 8u64
                == old(self).bitmask@[w] >> 8u64,
            r == vstd::math::min(count as int, vstd::math::max(0, old(self).page_count() - (pfn.0 - old(self).offset))),
            forall|p: int| 0 <= p < old(self).page_count() ==> #[trigger] final(self).used(p)
                == if pfn.0 - old(self).offset <= p < pfn.0 - old(self).offset + r { used } else { old(self).used(p) },
    {
        let local_pfn = pfn.number() - self.offset;
        let total = self.bitmask.len() * BITMASK_ELEMENT_SIZE;
        let available = if total > local_pfn { total - local_pfn } else { 0 };
        let effective_count = if count < available { count } else { available };
        let ghost old_self = *self;
        let mut page = local_pfn;
        while page < local_pfn + effective_count
            invariant
                local_pfn <= page <= local_pfn + effective_count,
                effective_count == 0 || local_pfn + effective_count <= total,
                total == self.page_count(),
                self.offset == old_self.offset,
                self.bitmask@.len() == old_self.bitmask@.len(),
                old_self.wf(),
                forall|p: int| 0 <= p < old_self.page_count() ==> #[trigger] self.used(p)
                    == if local_pfn <= p < page { used } else { old_self.used(p) },
                forall|w: int| 0 <= w < old_self.bitmask@.len() ==> (#[trigger] self.bitmask@[w]) >> 8u64
                    == old_self.bitmask@[w] >> 8u64,
            decreases local_pfn + effective_count - page,
        {
            let index = page / BITMASK_ELEMENT_SIZE;
            let offset = page % BITMASK_ELEMENT_SIZE;
            let word = self.bitmask[index];
            let ghost before = *self;
            let new_word = if used {
                word | (1u64 << (offset as u64))
            } else {
                word & !(1u64 << (offset as u64))
            };
            assert(offset < 8 ==> (word | (1u64 << (offset as u64))) >> 8u64 == word >> 8u64
                && (word & !(1u64 << (offset as u64))) >> 8u64 == word >> 8u64) by (bit_vector);
            self.bitmask.set(index, new_word);
            assert forall|w: int| 0 <= w < old_self.bitmask@.len() implies (#[trigger] self.bitmask@[w]) >> 8u64
                == old_self.bitmask@[w] >> 8u64 by {
                if w != index as int {
                    assert(self.bitmask@[w] == before.bitmask@[w]);
                }
            }
            assert forall|p: int| 0 <= p < old_self.page_count() implies #[trigger] self.used(p)
                == if local_pfn <= p < page + 1 { used } else { old_self.used(p) } by {
                assert(before.used(p) == if local_pfn <= p < page { used } else { old_self.used(p) });
                if p / 8 == index as int {
                    if used {
                        lemma_bit_or(word, offset as u64, (p % 8) as u64);
                    } else {
                        lemma_bit_clear(word, offset as u64, (p % 8) as u64);
                    }
                } else {
                    assert(self.bitmask@[p / 8] == before.bitmask@[p / 8]);
                }
            }
            page = page + 1;
        }
        effective_count
    }

    /// Reserves the first run of `count` free pages in frame order and returns its first frame.
    pub fn reserve_pages(&mut self, count: usize) -> (r: Option<Pfn>)
        requires
            old(self).wf(),
        ensures
            final(self).wf(),
            final(self).offset == old(self).offset,
            final(self).bitmask@.len() == old(self).bitmask@.len(),
            forall|w: int| 0 <= w < old(self).bitmask@.len() ==> (#[trigger] final(self).bitmask@[w]) >> 8u64
                == old(self).bitmask@[w] >> 8u64,
            reserved(*old(self), count as int, *final(self), r),
    {
        let total = self.bitmask.len() * BITMASK_ELEMENT_SIZE;
        let mut region_start: usize = 0;
        let mut region_size: usize = 0;
        let mut page: usize = 0;
        while page < total
            invariant
                total == self.page_count(),
                *self == *old(self),
                self.wf(),
                region_start + region_size == page,
                page <= total,
                forall|p: int| region_start <= p < page ==> !#[trigger] self.used(p),
                region_start > 0 ==> self.used(region_start - 1),
                count > 0 ==> region_size < count,
                count > 0 ==> forall|s: int| s + count <= page ==> !#[trigger] self.free_run(s, count as int),
            decreases total - page,
        {
            let free = self.is_free(Pfn(self.offset + page));
            if free {
                region_size += 1;
            } else {
                region_start = page + 1;
                region_size = 0;
            }
            if region_size == count {
                let pfn = Pfn(self.offset + region_start);
                proof {
                    if count > 0 {
                        assert forall|s: int| s < region_start implies !#[trigger] self.free_run(s, count as int) by {
                            assert(s + count <= page);
                        }
                    }
                }
                let ghost before = *self;
                let marked = self.mark_used(pfn, count);
                proof {
                    assert(marked == count);
                    if count > 0 {
                        assert(before.free_run(region_start as int, count as int));
                    }
                    assert(forall|p: int| 0 <= p < old(self).page_count() ==> #[trigger] self.used(p)
                        == if region_start <= p < region_start + count { true } else { old(self).used(p) });
                }
                return Some(pfn);
            }
            proof {
                if count > 0 {
                    assert forall|s: int| s + count <= page + 1 implies !#[trigger] self.free_run(s, count as int) by {
                        if s + count == page + 1 && self.free_run(s, count as int) {
                            if !free {
                                assert(!self.used(page as int));
                            } else if region_start > 0 {
                                assert(s <= region_start - 1 < s + count);
                                assert(!self.used(region_start - 1));
                            }
                        }
                    }
                }
            }
            page = page + 1;
        }
        proof {
            assert(self@ =~= old(self)@);
            if count > 0 {
                assert forall|s: int| !#[trigger] old(self).free_run(s, count as int) by {
                    if old(self).free_run(s, count as int) {
                        assert(s + count <= page);
                    }
                }
            }
        }
        None
    }
}

/// Bytes reserved for the device tree at the start of memory.
pub const DTB_LEN: usize = 0x10_0000;

/// How many of `count` pages from local index `s` an allocator covering `page_count` pages
/// marks.
pub open spec fn clipped(count: int, page_count: int, s: int) -> int {
    vstd::math::min(count, vstd::math::max(0, page_count - s))
}

/// Whether local index `p` lies in the run of `n` pages from `s`.
pub open spec fn in_run(p: int, s: int, n: int) -> bool {
    s <= p < s + n
}

/// Start and size of the memory that the `reg` property of the device tree node `memory`
/// gives, where it has them.
pub fn memory_region(memory: &FdtNode) -> (r: Option<(usize, usize)>)
    ensures
        match reg_window(*memory) {
            None => r is None,
            Some((start, size)) => r == Some((start as usize, size as usize)),
        },
{
    let reg_key: [u8; 3] = [0x72, 0x65, 0x67];
    assert(reg_key@ =~= reg_name());
    let prop = match memory.find_prop_by_name(&reg_key) {
        Some(p) => p,
        None => return None,
    };
    proof {
        lemma_find_prop_from_bounds(memory.properties@, reg_name(), 0);
    }
    let len = match &prop.value {
        Some(v) => v.len(),
        None => return None,
    };
    if len < 16 {
        return None;
    }
    let start = match prop.read_u64(0) {
        Some(a) => a,
        None => return None,
    };
    let size = match prop.read_u64(1) {
        Some(a) => a,
        None => return None,
    };
    Some((start as usize, size as usize))
}

/// The page allocator for `memory_size` bytes of memory from `memory_start`, whose bitmask
/// holds `bitmask`, found at `bitmask_addr`: the device tree at the start of memory, the
/// kernel image `kernel_start..kernel_end` and the bitmask's own pages are marked used. The
/// device tree's frame is taken to be `memory_start` itself, not its frame number.
pub fn init_page_allocator(
    memory_start: usize,
    memory_size: usize,
    bitmask: Vec<u64>,
    bitmask_addr: usize,
    kernel_start: usize,
    kernel_end: usize,
) -> (r: PageAllocator)
    requires
        bitmask@.len() == ((memory_size + PAGE_SIZE - 1) / PAGE_SIZE as int + BITMASK_ELEMENT_SIZE - 1)
            / BITMASK_ELEMENT_SIZE as int,
        memory_start as int / PAGE_SIZE as int + bitmask@.len() * BITMASK_ELEMENT_SIZE <= usize::MAX,
        kernel_start as int / PAGE_SIZE as int >= memory_start as int / PAGE_SIZE as int,
        kernel_start <= kernel_end,
        (bitmask_addr & 0xffff_ffff) as int / PAGE_SIZE as int >= memory_start as int / PAGE_SIZE as int,
    ensures
        r.wf(),
        r.offset == memory_start as int / PAGE_SIZE as int,
        r.bitmask@.len() == bitmask@.len(),
        ({
            let offset = memory_start as int / PAGE_SIZE as int;
            let pc = r.page_count();
            let dtb = memory_start - offset;
            let kernel = kernel_start as int / PAGE_SIZE as int - offset;
            let kernel_pages = (kernel_end - kernel_start + PAGE_SIZE - 1) / PAGE_SIZE as int;
            let own = (bitmask_addr & 0xffff_ffff) as int / PAGE_SIZE as int - offset;
            let own_pages = bitmask@.len() * BITMASK_ELEMENT_SIZE / PAGE_SIZE as int;
            forall|p: int| 0 <= p < pc ==> #[trigger] r.used(p) == (bit_set(bitmask@[p / 8], (p % 8) as u64)
                || in_run(p, dtb, clipped(DTB_LEN as int / PAGE_SIZE as int, pc, dtb))
                || in_run(p, kernel, clipped(kernel_pages, pc, kernel))
                || in_run(p, own, clipped(own_pages, pc, own)))
        }),
{
    let _n = bitmask.len();
    let bitmask_pfn = Pfn::from_ptr(bitmask_addr);
    let bitmask_page_count = (bitmask.len() * BITMASK_ELEMENT_SIZE) / PAGE_SIZE;
    let mut allocator = PageAllocator::new(bitmask, memory_start / PAGE_SIZE);
    let ghost initial = allocator;
    let kernel_image_pfn = Pfn(kernel_start / PAGE_SIZE);
    let span = kernel_end - kernel_start;
    let kernel_image_page_count = span / PAGE_SIZE + if span % PAGE_SIZE == 0 { 0 } else { 1 };
    assert(memory_start >= memory_start as int / PAGE_SIZE as int);
    allocator.mark_used(Pfn(memory_start), DTB_LEN / PAGE_SIZE);
    let ghost after_dtb = allocator;
    allocator.mark_used(kernel_image_pfn, kernel_image_page_count);
    let ghost after_kernel = allocator;
    allocator.mark_used(bitmask_pfn, bitmask_page_count);
    proof {
        let offset = memory_start as int / PAGE_SIZE as int;
        let pc = allocator.page_count();
        assert(kernel_image_page_count == (kernel_end - kernel_start + PAGE_SIZE - 1) / PAGE_SIZE as int);
        assert forall|p: int| 0 <= p < pc implies #[trigger] allocator.used(p) == (bit_set(
            initial.bitmask@[p / 8],
            (p % 8) as u64,
        ) || in_run(p, memory_start - offset, clipped(DTB_LEN as int / PAGE_SIZE as int, pc, memory_start - offset))
            || in_run(p, kernel_start as int / PAGE_SIZE as int - offset, clipped(
            kernel_image_page_count as int,
            pc,
            kernel_start as int / PAGE_SIZE as int - offset,
        )) || in_run(p, bitmask_pfn.0 - offset, clipped(bitmask_page_count as int, pc, bitmask_pfn.0 - offset))) by {
            assert(initial.used(p) == bit_set(initial.bitmask@[p / 8], (p % 8) as u64));
            assert(after_dtb.used(p) == (in_run(p, memory_start - offset, clipped(DTB_LEN as int / PAGE_SIZE as int, pc, memory_start - offset)) || initial.used(p)));
            assert(after_kernel.used(p) == (in_run(p, kernel_start as int / PAGE_SIZE as int - offset, clipped(
                kernel_image_page_count as int,
                pc,
                kernel_start as int / PAGE_SIZE as int - offset,
            )) || after_dtb.used(p)));
        }
    }
    allocator
}

} // verus!
