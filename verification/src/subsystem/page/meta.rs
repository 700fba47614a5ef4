use vstd::prelude::*;
use crate::utils::arc::Arc;
use crate::utils::intrusive_rbtree::RbTree;

verus! {

pub const LOCKED: u32 = 1;
pub const HEAD: u32 = 2;
pub const PAGE_TYPE_MASK: u32 = 0xE0;
pub const PAGE_TYPE_SHIFT: u32 = 5;

/// Page type 0: the page is unused.
pub const PAGE_TYPE_UNUSED: u32 = 0;
/// Page type 1: the page belongs to the kernel.
pub const PAGE_TYPE_KERNEL: u32 = 1;
/// Page type 2: the page backs anonymous user memory.
pub const PAGE_TYPE_ANON: u32 = 2;

pub open spec fn page_type_of(flags: u32) -> u32 {
    (flags & 0xE0u32) >> 5u32
}

/// Flags of a physical page: a lock bit, a head bit and a three-bit page type.
#[derive(Debug, Clone, Copy, PartialEq, Eq, Structural)]
pub struct PageFlags(pub u32);

impl PageFlags {
    pub fn is_head(&self) -> (r: bool)
        ensures
            r == (self.0 & HEAD != 0),
    {
        self.0 & HEAD != 0
    }

    /// Marks this page as a head page.
    pub fn set_head(&mut self)
        ensures
            final(self).0 == old(self).0 | HEAD,
    {
        self.0 = self.0 | HEAD;
    }

    /// Unmarks this page as a head page.
    pub fn clear_head(&mut self)
        ensures
            final(self).0 == old(self).0 & !HEAD,
    {
        self.0 = self.0 & !HEAD;
    }

    pub fn is_locked(&self) -> (r: bool)
        ensures
            r == (self.0 & LOCKED != 0),
    {
        self.0 & LOCKED != 0
    }

    /// Takes the lock bit if it is free.
    pub fn try_lock(&mut self) -> (r: Result<(), ()>)
        ensures
            old(self).0 & LOCKED != 0 ==> r is Err && final(self).0 == old(self).0,
            old(self).0 & LOCKED == 0 ==> r is Ok && final(self).0 == old(self).0 | LOCKED,
    {
        let current = self.0;
        if current & LOCKED != 0 {
            return Err(());
        }
        self.0 = current | LOCKED;
        Ok(())
    }

    pub fn page_type(&self) -> (r: u32)
        ensures
            r == page_type_of(self.0),
            r < 8,
    {
        let f = self.0;
        assert((f & 0xE0u32) >> 5u32 < 8u32) by (bit_vector);
        (self.0 & PAGE_TYPE_MASK) >> PAGE_TYPE_SHIFT
    }

    pub fn is_used(&self) -> (r: bool)
        ensures
            r == (page_type_of(self.0) != 0),
    {
        self.page_type() != 0
    }

    /// Replaces the page type; only the low three bits of `page_type` count, the others
    /// spill into the bits above.
    pub fn set_page_type(&mut self, page_type: u32)
        ensures
            final(self).0 == (old(self).0 & !PAGE_TYPE_MASK) | (page_type << PAGE_TYPE_SHIFT),
    {
        let before = self.0;
        self.0 = (before & !PAGE_TYPE_MASK) | (page_type << PAGE_TYPE_SHIFT);
    }

    /// Flips the lock bit back.
    pub fn unlock(&mut self)
        ensures
            final(self).0 == old(self).0 ^ LOCKED,
    {
        self.0 = self.0 ^ LOCKED;
    }
}

/// Setting a page type below 8 makes it read back and keeps the lock and head bits.
pub proof fn lemma_set_page_type(flags: u32, page_type: u32)
    requires
        page_type < 8,
    ensures
        page_type_of((flags & !PAGE_TYPE_MASK) | (page_type << PAGE_TYPE_SHIFT)) == page_type,
        ((flags & !PAGE_TYPE_MASK) | (page_type << PAGE_TYPE_SHIFT)) & 3 == flags & 3,
{
    assert(page_type < 8u32 ==> ((((flags & !0xE0u32) | (page_type << 5u32)) & 0xE0u32) >> 5u32 == page_type
        && ((flags & !0xE0u32) | (page_type << 5u32)) & 3u32 == flags & 3u32)) by (bit_vector);
}

/// A run of pages of an anonymous area, starting at virtual address `vma`.
#[derive(Debug, Clone, Copy, PartialEq, Eq, Structural)]
pub struct VmaAllocatedArea {
    pub vma: usize,
    pub pfn_count: usize,
}

/// `count` held to the range of `usize`.
pub open spec fn clamp_count(count: int) -> int {
    if count < 0 {
        0
    } else if count > usize::MAX {
        usize::MAX as int
    } else {
        count
    }
}

impl VmaAllocatedArea {
    pub fn new(vma: usize, pfn_count: usize) -> (r: Self)
        ensures
            r.vma == vma,
            r.pfn_count == pfn_count,
    {
        VmaAllocatedArea { vma, pfn_count }
    }

    pub fn vma(&self) -> (r: usize)
        ensures
            r == self.vma,
    {
        self.vma
    }

    pub fn pfn_count(&self) -> (r: usize)
        ensures
            r == self.pfn_count,
    {
        self.pfn_count
    }

    /// Adds `pages` to the count, stopping at the largest count.
    pub fn grow_pfn_count(&mut self, pages: usize)
        ensures
            final(self).vma == old(self).vma,
            final(self).pfn_count == clamp_count(old(self).pfn_count + pages),
    {
        self.pfn_count = self.pfn_count.saturating_add(pages);
    }

    /// Takes `pages` from the count, stopping at zero.
    pub fn shrink_pfn_count(&mut self, pages: usize)
        ensures
            final(self).vma == old(self).vma,
            final(self).pfn_count == clamp_count(old(self).pfn_count - pages),
    {
        self.pfn_count = self.pfn_count.saturating_sub(pages);
    }
}

/// What the pages of one anonymous area share: the area it was forked from, and the runs of
/// pages it has, by virtual address.
pub struct AnonPageMeta {
    pub parent: Option<Arc<AnonPageMeta>>,
    pub vma_tree: RbTree<VmaAllocatedArea>,
}

impl AnonPageMeta {
    pub fn new(parent: Option<Arc<AnonPageMeta>>) -> (r: Self)
        ensures
            r.parent == parent,
            r.vma_tree@.len() == 0,
    {
        AnonPageMeta { parent, vma_tree: RbTree::new() }
    }
}

/// What a page is used for, read under its lock.
pub enum PageMetaVariant<'a> {
    Unused,
    Kernel,
    Anon(&'a AnonPageMeta),
}

/// What a page is used for, read under its lock.
pub enum PageMetaVariantMut<'a> {
    Unused,
    Kernel,
    Anon(&'a AnonPageMeta),
}

/// Metadata of one physical page.
pub struct PageMeta {
    /// Counts the users of this page.
    pub refcount: u32,
    /// Flags, including the page lock.
    pub flags: PageFlags,
    /// The area an anonymous page belongs to.
    pub meta: Option<Arc<AnonPageMeta>>,
}

impl PageMeta {
    pub fn new_unused() -> (r: PageMeta)
        ensures
            r.refcount == 0,
            r.flags.0 == 0,
            r.meta is None,
    {
        Self { refcount: 0, flags: PageFlags(0), meta: None }
    }

    pub fn new_kernel() -> (r: PageMeta)
        ensures
            r.refcount == 0,
            r.flags.0 == 1u32 << PAGE_TYPE_SHIFT,
            page_type_of(r.flags.0) == PAGE_TYPE_KERNEL,
            r.meta is None,
    {
        assert(page_type_of(1u32 << 5u32) == 1u32) by (bit_vector);
        Self { refcount: 0, flags: PageFlags(1 << PAGE_TYPE_SHIFT), meta: None }
    }

    /// Takes the page lock; `misc` keeps the interrupt mask `daif` and the page type. The page
    /// must not be locked already, and its type must be one of the three known ones.
    pub fn spin_lock(&mut self, daif: u32) -> (r: PageMetaHandle<'_>)
        requires
            old(self).flags.0 & LOCKED == 0,
            page_type_of(old(self).flags.0) < 3,
        ensures
            r.misc == daif | page_type_of(old(self).flags.0),
            r.meta.flags.0 == old(self).flags.0 | LOCKED,
            r.meta.refcount == old(self).refcount,
            r.meta.meta == old(self).meta,
    {
        let _ = self.flags.try_lock();
        let page_type = self.flags.page_type();
        proof {
            let f = old(self).flags.0;
            assert(((f | 1u32) & 0xE0u32) >> 5u32 == (f & 0xE0u32) >> 5u32) by (bit_vector);
        }
        PageMetaHandle { meta: self, misc: daif | page_type }
    }

    /// One more user; the count wraps as the atomic counter does.
    pub fn inc_refcount(&mut self)
        ensures
            final(self).refcount == old(self).refcount.wrapping_add(1),
            final(self).flags == old(self).flags,
            final(self).meta == old(self).meta,
    {
        self.refcount = self.refcount.wrapping_add(1);
    }

    /// One user less; when the last one goes, the page forgets its area and becomes unused.
    pub fn dec_refcount(&mut self)
        requires
            old(self).refcount == 1 ==> old(self).flags.0 & LOCKED == 0,
        ensures
            final(self).refcount == old(self).refcount.wrapping_sub(1),
            old(self).refcount != 1 ==> final(self).flags == old(self).flags && final(self).meta == old(self).meta,
            old(self).refcount == 1 ==> final(self).flags.0 == (old(self).flags.0 & !PAGE_TYPE_MASK)
                && (page_type_of(old(self).flags.0) == PAGE_TYPE_ANON ==> final(self).meta is None)
                && (page_type_of(old(self).flags.0) != PAGE_TYPE_ANON ==> final(self).meta == old(self).meta),
    {
        let previous = self.refcount;
        self.refcount = self.refcount.wrapping_sub(1);
        if previous == 1 {
            let page_type = self.flags.page_type();
            if page_type == PAGE_TYPE_ANON {
                self.meta = None;
            }
            self.flags.set_page_type(PAGE_TYPE_UNUSED);
            proof {
                let f = old(self).flags.0;
                assert(((f & !0xE0u32) | (0u32 << 5u32)) == f & !0xE0u32) by (bit_vector);
            }
        }
    }
}

/// A page whose lock is held.
pub struct PageMetaHandle<'a> {
    pub meta: &'a mut PageMeta,
    /// Bits 9:6 keep the interrupt mask to restore.
    pub misc: u32,
}

impl<'a> PageMetaHandle<'a> {
    pub fn set_kernel(&mut self)
        ensures
            final(self).meta.flags.0 == (old(self).meta.flags.0 & !PAGE_TYPE_MASK) | (PAGE_TYPE_KERNEL << PAGE_TYPE_SHIFT),
            final(self).meta.meta == old(self).meta.meta,
            final(self).meta.refcount == old(self).meta.refcount,
            final(self).misc == old(self).misc,
    {
        self.meta.flags.set_page_type(PAGE_TYPE_KERNEL);
    }

    pub fn set_anon(&mut self, anon: Arc<AnonPageMeta>)
        ensures
            final(self).meta.flags.0 == (old(self).meta.flags.0 & !PAGE_TYPE_MASK) | (PAGE_TYPE_ANON << PAGE_TYPE_SHIFT),
            final(self).meta.meta == Some(anon),
            final(self).meta.refcount == old(self).meta.refcount,
            final(self).misc == old(self).misc,
    {
        self.meta.flags.set_page_type(PAGE_TYPE_ANON);
        self.meta.meta = Some(anon);
    }

    /// What the page is used for; an anonymous page must have its area.
    pub fn get(&self) -> (r: PageMetaVariant<'_>)
        requires
            page_type_of(old(self.meta).flags.0) < 3,
            page_type_of(old(self.meta).flags.0) == PAGE_TYPE_ANON ==> old(self.meta).meta is Some,
        ensures
            page_type_of(old(self.meta).flags.0) == PAGE_TYPE_UNUSED ==> r is Unused,
            page_type_of(old(self.meta).flags.0) == PAGE_TYPE_KERNEL ==> r is Kernel,
            page_type_of(old(self.meta).flags.0) == PAGE_TYPE_ANON ==> (r matches PageMetaVariant::Anon(a)
                && *a == old(self.meta).meta->Some_0@),
    {
        let page_type = self.meta.flags.page_type();
        if page_type == PAGE_TYPE_UNUSED {
            PageMetaVariant::Unused
        } else if page_type == PAGE_TYPE_KERNEL {
            PageMetaVariant::Kernel
        } else {
            match &self.meta.meta {
                Some(a) => PageMetaVariant::Anon(a.get()),
                None => PageMetaVariant::Unused,
            }
        }
    }

    /// Gives the lock back and returns the interrupt mask to restore.
    pub fn release(self) -> (r: u32)
        ensures
            r == self.misc & 0x3C0,
    {
        self.meta.flags.unlock();
        self.misc & 0x3C0
    }
}

} // verus!
