use vstd::prelude::*;
use crate::memory::PAGE_SIZE;
use crate::subsystem::page::meta::{page_type_of, PageFlags, PageMeta, LOCKED, PAGE_TYPE_ANON};

verus! {

/// The valid pages of a user process's translation tables, in the order a walk of the tables
/// visits them: the address of each mapped page, the frame it maps, and whether it may be
/// written.
pub struct UserPageTable {
    pub pages: Vec<(usize, usize, bool)>,
}

/// Page metadata `b` once one use of the page is dropped: when that was the last use, the
/// page's type bits clear and an anonymous page forgets its area.
pub open spec fn after_drop(b: PageMeta) -> PageMeta {
    PageMeta {
        refcount: b.refcount.wrapping_sub(1),
        flags: if b.refcount == 1 { PageFlags(b.flags.0 & !0xE0u32) } else { b.flags },
        meta: if b.refcount == 1 && page_type_of(b.flags.0) == PAGE_TYPE_ANON { None } else { b.meta },
    }
}

/// Whether page `e` of a table lies in `[lo, hi)`.
pub open spec fn page_in(e: (usize, usize, bool), lo: int, hi: int) -> bool {
    lo <= e.0 && e.0 < hi
}

/// The metadata `metas` after one use is dropped for every page of `pages` in `[lo, hi)` whose
/// frame has metadata, in the order of `pages`.
pub open spec fn released_metas(metas: Seq<PageMeta>, pages: Seq<(usize, usize, bool)>, lo: int, hi: int) -> Seq<PageMeta>
    decreases pages.len(),
{
    if pages.len() == 0 {
        metas
    } else {
        let m = released_metas(metas, pages.drop_last(), lo, hi);
        let e = pages.last();
        if page_in(e, lo, hi) && e.1 < m.len() {
            m.update(e.1 as int, after_drop(m[e.1 as int]))
        } else {
            m
        }
    }
}

/// The pages of `pages` outside `[lo, hi)`, in order.
pub open spec fn pages_outside(pages: Seq<(usize, usize, bool)>, lo: int, hi: int) -> Seq<(usize, usize, bool)>
    decreases pages.len(),
{
    if pages.len() == 0 {
        pages
    } else {
        let k = pages_outside(pages.drop_last(), lo, hi);
        if page_in(pages.last(), lo, hi) {
            k
        } else {
            k.push(pages.last())
        }
    }
}

/// Whether every page of `pages` in `[lo, hi)` maps a frame that has metadata in `metas` and
/// is not locked, so that its use can be dropped.
pub open spec fn release_ready(metas: Seq<PageMeta>, pages: Seq<(usize, usize, bool)>, lo: int, hi: int) -> bool {
    forall|i: int|
        0 <= i < pages.len() && page_in(#[trigger] pages[i], lo, hi) ==> pages[i].1 < metas.len() && metas[pages[i].1 as int].flags.0
            & LOCKED == 0
}

/// The pages that mapping `count` frames from `pfn` on at `vma` adds, in order, writable.
pub open spec fn range_pages(vma: int, pfn: int, count: int) -> Seq<(usize, usize, bool)> {
    Seq::new(count as nat, |i: int| ((vma + i * PAGE_SIZE) as usize, (pfn + i) as usize, true))
}

/// The frame that the first valid page at `vma` in `pages` maps, if any.
pub open spec fn frame_at(pages: Seq<(usize, usize, bool)>, vma: usize) -> Option<usize>
    decreases pages.len(),
{
    if pages.len() == 0 {
        None
    } else {
        match frame_at(pages.drop_last(), vma) {
            Some(f) => Some(f),
            None => if pages.last().0 == vma {
                Some(pages.last().1)
            } else {
                None
            },
        }
    }
}

/// `pages` with every valid page at `vma` mapping frame `pfn` instead, writable.
pub open spec fn remapped(pages: Seq<(usize, usize, bool)>, vma: usize, pfn: usize) -> Seq<(usize, usize, bool)> {
    Seq::new(pages.len(), |i: int| if pages[i].0 == vma { (vma, pfn, true) } else { pages[i] })
}

/// Page metadata `b` once one more use of the page is taken.
pub open spec fn after_take(b: PageMeta) -> PageMeta {
    PageMeta { refcount: b.refcount.wrapping_add(1), flags: b.flags, meta: b.meta }
}

/// The metadata `metas` after one more use is taken for every page of `pages` in `[lo, hi)`
/// whose frame has metadata, in the order of `pages`.
pub open spec fn shared_metas(metas: Seq<PageMeta>, pages: Seq<(usize, usize, bool)>, lo: int, hi: int) -> Seq<PageMeta>
    decreases pages.len(),
{
    if pages.len() == 0 {
        metas
    } else {
        let m = shared_metas(metas, pages.drop_last(), lo, hi);
        let e = pages.last();
        if page_in(e, lo, hi) && e.1 < m.len() {
            m.update(e.1 as int, after_take(m[e.1 as int]))
        } else {
            m
        }
    }
}

/// `pages` with every page in `[lo, hi)` made read-only.
pub open spec fn protected(pages: Seq<(usize, usize, bool)>, lo: int, hi: int) -> Seq<(usize, usize, bool)> {
    Seq::new(pages.len(), |i: int| if page_in(pages[i], lo, hi) { (pages[i].0, pages[i].1, false) } else { pages[i] })
}

/// The pages of `pages` in `[lo, hi)`, read-only, in order.
pub open spec fn shared_pages(pages: Seq<(usize, usize, bool)>, lo: int, hi: int) -> Seq<(usize, usize, bool)>
    decreases pages.len(),
{
    if pages.len() == 0 {
        pages
    } else {
        let k = shared_pages(pages.drop_last(), lo, hi);
        if page_in(pages.last(), lo, hi) {
            k.push((pages.last().0, pages.last().1, false))
        } else {
            k
        }
    }
}

/// Taking uses keeps the number of pages.
pub proof fn lemma_shared_len(metas: Seq<PageMeta>, pages: Seq<(usize, usize, bool)>, lo: int, hi: int)
    ensures
        shared_metas(metas, pages, lo, hi).len() == metas.len(),
    decreases pages.len(),
{
    if pages.len() > 0 {
        lemma_shared_len(metas, pages.drop_last(), lo, hi);
    }
}

/// Whether every valid page of `pages` maps a frame that has metadata in `metas`.
pub open spec fn frames_known(metas: Seq<PageMeta>, pages: Seq<(usize, usize, bool)>) -> bool {
    forall|i: int| 0 <= i < pages.len() ==> (#[trigger] pages[i]).1 < metas.len()
}

/// Whether `p` and `q` hold the same pages and frames in the same order, whatever may be
/// written.
pub open spec fn same_mappings(p: Seq<(usize, usize, bool)>, q: Seq<(usize, usize, bool)>) -> bool {
    &&& p.len() == q.len()
    &&& forall|i: int| 0 <= i < p.len() ==> (#[trigger] p[i]).0 == q[i].0 && p[i].1 == q[i].1
}

/// Sharing depends on the pages and frames alone.
pub proof fn lemma_shared_same(metas: Seq<PageMeta>, p: Seq<(usize, usize, bool)>, q: Seq<(usize, usize, bool)>, lo: int, hi: int)
    requires
        same_mappings(p, q),
    ensures
        shared_pages(p, lo, hi) == shared_pages(q, lo, hi),
        shared_metas(metas, p, lo, hi) == shared_metas(metas, q, lo, hi),
    decreases p.len(),
{
    if p.len() > 0 {
        assert(same_mappings(p.drop_last(), q.drop_last()));
        lemma_shared_same(metas, p.drop_last(), q.drop_last(), lo, hi);
        assert(p.last().0 == q.last().0 && p.last().1 == q.last().1);
    }
}

/// Dropping uses keeps the number of pages and leaves every unlocked page unlocked.
pub proof fn lemma_released_keeps(metas: Seq<PageMeta>, pages: Seq<(usize, usize, bool)>, lo: int, hi: int)
    ensures
        released_metas(metas, pages, lo, hi).len() == metas.len(),
        forall|p: int|
            0 <= p < metas.len() && metas[p].flags.0 & LOCKED == 0 ==> #[trigger] released_metas(metas, pages, lo, hi)[p].flags.0
                & LOCKED == 0,
    decreases pages.len(),
{
    if pages.len() > 0 {
        lemma_released_keeps(metas, pages.drop_last(), lo, hi);
        let m = released_metas(metas, pages.drop_last(), lo, hi);
        assert forall|p: int| 0 <= p < metas.len() && metas[p].flags.0 & LOCKED == 0 implies #[trigger] released_metas(
            metas,
            pages,
            lo,
            hi,
        )[p].flags.0 & LOCKED == 0 by {
            let f = m[p].flags.0;
            assert(f & 1u32 == 0u32 ==> (f & !0xE0u32) & 1u32 == 0u32) by (bit_vector);
            assert(m[p].flags.0 & LOCKED == 0);
        }
    }
}

/// What is ready for release stays ready once uses of other ranges were dropped.
pub proof fn lemma_ready_after(
    metas: Seq<PageMeta>,
    pages: Seq<(usize, usize, bool)>,
    lo: int,
    hi: int,
    lo2: int,
    hi2: int,
)
    requires
        release_ready(metas, pages, lo2, hi2),
    ensures
        release_ready(released_metas(metas, pages, lo, hi), pages, lo2, hi2),
{
    lemma_released_keeps(metas, pages, lo, hi);
    let m = released_metas(metas, pages, lo, hi);
    assert forall|i: int| 0 <= i < pages.len() && page_in(#[trigger] pages[i], lo2, hi2) implies pages[i].1 < m.len()
        && m[pages[i].1 as int].flags.0 & LOCKED == 0 by {
        assert(metas[pages[i].1 as int].flags.0 & LOCKED == 0);
    }
}

/// Drops one use of the frame of every page of `pages` in `[lo, hi)`, in order.
pub fn release_pages_in(pages: &Vec<(usize, usize, bool)>, lo: usize, hi: usize, metas: &mut Vec<PageMeta>)
    requires
        release_ready(old(metas)@, pages@, lo as int, hi as int),
    ensures
        final(metas)@ == released_metas(old(metas)@, pages@, lo as int, hi as int),
{
    let mut i: usize = 0;
    while i < pages.len()
        invariant
            i <= pages@.len(),
            release_ready(old(metas)@, pages@, lo as int, hi as int),
            metas@ == released_metas(old(metas)@, pages@.subrange(0, i as int), lo as int, hi as int),
        decreases pages@.len() - i,
    {
        let ghost before = metas@;
        proof {
            assert(pages@.subrange(0, i + 1).drop_last() =~= pages@.subrange(0, i as int));
            assert(pages@.subrange(0, i + 1).last() == pages@[i as int]);
        }
        let (vma, pfn, _) = pages[i];
        if lo <= vma && vma < hi {
            proof {
                lemma_released_keeps(old(metas)@, pages@.subrange(0, i as int), lo as int, hi as int);
                assert(page_in(pages@[i as int], lo as int, hi as int));
            }
            let mut meta = metas.remove(pfn);
            let ghost b = meta;
            meta.dec_refcount();
            proof {
                assert(meta == after_drop(b));
            }
            metas.insert(pfn, meta);
            proof {
                assert(metas@ =~= before.update(pfn as int, after_drop(before[pfn as int])));
            }
        }
        i += 1;
    }
    proof {
        assert(pages@.subrange(0, i as int) =~= pages@);
    }
}

impl UserPageTable {
    /// Tables with no valid page.
    pub fn create_user() -> (r: Self)
        ensures
            r.pages@.len() == 0,
    {
        UserPageTable { pages: Vec::new() }
    }

    /// Maps `count` frames from `pfn` on, writable, at the pages from `vma` on, after the pages
    /// already valid.
    pub fn map_page_range(&mut self, vma: usize, pfn: usize, count: usize)
        requires
            count > 0 ==> vma + (count - 1) * PAGE_SIZE <= usize::MAX,
            pfn + count <= usize::MAX + 1,
        ensures
            final(self).pages@ == old(self).pages@ + range_pages(vma as int, pfn as int, count as int),
    {
        let mut i: usize = 0;
        while i < count
            invariant
                i <= count,
                count > 0 ==> vma + (count - 1) * PAGE_SIZE <= usize::MAX,
                pfn + count <= usize::MAX + 1,
                self.pages@ == old(self).pages@ + range_pages(vma as int, pfn as int, i as int),
            decreases count - i,
        {
            proof {
                vstd::arithmetic::mul::lemma_mul_inequality(i as int, count - 1, PAGE_SIZE as int);
            }
            self.pages.push((vma + i * PAGE_SIZE, pfn + i, true));
            i += 1;
            proof {
                assert(self.pages@ =~= old(self).pages@ + range_pages(vma as int, pfn as int, i as int));
            }
        }
    }

    /// The frame that the first valid page at `vma` maps, if any.
    pub fn lookup(&self, vma: usize) -> (r: Option<usize>)
        ensures
            r == frame_at(self.pages@, vma),
    {
        let mut found: Option<usize> = None;
        let mut i: usize = 0;
        while i < self.pages.len()
            invariant
                i <= self.pages@.len(),
                found == frame_at(self.pages@.subrange(0, i as int), vma),
            decreases self.pages@.len() - i,
        {
            proof {
                assert(self.pages@.subrange(0, i + 1).drop_last() =~= self.pages@.subrange(0, i as int));
                assert(self.pages@.subrange(0, i + 1).last() == self.pages@[i as int]);
            }
            let e = self.pages[i];
            if found.is_none() && e.0 == vma {
                found = Some(e.1);
            }
            i += 1;
        }
        proof {
            assert(self.pages@.subrange(0, i as int) =~= self.pages@);
        }
        found
    }

    /// Makes every valid page at `vma` map frame `pfn`, writable.
    pub fn remap(&mut self, vma: usize, pfn: usize)
        ensures
            final(self).pages@ == remapped(old(self).pages@, vma, pfn),
    {
        let mut i: usize = 0;
        while i < self.pages.len()
            invariant
                i <= self.pages@.len(),
                self.pages@.len() == old(self).pages@.len(),
                forall|k: int| 0 <= k < i ==> #[trigger] self.pages@[k] == remapped(old(self).pages@, vma, pfn)[k],
                forall|k: int| i <= k < self.pages@.len() ==> #[trigger] self.pages@[k] == old(self).pages@[k],
            decreases self.pages@.len() - i,
        {
            if self.pages[i].0 == vma {
                self.pages.set(i, (vma, pfn, true));
            }
            i += 1;
        }
        proof {
            assert(self.pages@ =~= remapped(old(self).pages@, vma, pfn));
        }
    }

    /// Shares every valid page in `[lo, hi)` with `child`: the page becomes read-only here,
    /// `child` maps the same frame read-only at the same address after its pages, and the
    /// frame takes one more use.
    pub fn share_range(&mut self, child: &mut UserPageTable, lo: usize, hi: usize, metas: &mut Vec<PageMeta>)
        requires
            forall|i: int| 0 <= i < old(self).pages@.len() && page_in(#[trigger] old(self).pages@[i], lo as int, hi as int)
                ==> old(self).pages@[i].1 < old(metas)@.len(),
        ensures
            final(self).pages@ == protected(old(self).pages@, lo as int, hi as int),
            final(child).pages@ == old(child).pages@ + shared_pages(old(self).pages@, lo as int, hi as int),
            final(metas)@ == shared_metas(old(metas)@, old(self).pages@, lo as int, hi as int),
    {
        let ghost pages0 = self.pages@;
        let mut i: usize = 0;
        while i < self.pages.len()
            invariant
                i <= self.pages@.len(),
                self.pages@.len() == pages0.len(),
                pages0 == old(self).pages@,
                forall|k: int| 0 <= k < pages0.len() && page_in(#[trigger] pages0[k], lo as int, hi as int)
                    ==> pages0[k].1 < old(metas)@.len(),
                forall|k: int| 0 <= k < i ==> #[trigger] self.pages@[k] == protected(pages0, lo as int, hi as int)[k],
                forall|k: int| i <= k < self.pages@.len() ==> #[trigger] self.pages@[k] == pages0[k],
                child.pages@ == old(child).pages@ + shared_pages(pages0.subrange(0, i as int), lo as int, hi as int),
                metas@ == shared_metas(old(metas)@, pages0.subrange(0, i as int), lo as int, hi as int),
            decreases self.pages@.len() - i,
        {
            proof {
                assert(pages0.subrange(0, i + 1).drop_last() =~= pages0.subrange(0, i as int));
                assert(pages0.subrange(0, i + 1).last() == pages0[i as int]);
                lemma_shared_len(old(metas)@, pages0.subrange(0, i as int), lo as int, hi as int);
            }
            let (vma, pfn, _) = self.pages[i];
            if lo <= vma && vma < hi {
                self.pages.set(i, (vma, pfn, false));
                child.pages.push((vma, pfn, false));
                let ghost before = metas@;
                let mut meta = metas.remove(pfn);
                let ghost b = meta;
                meta.inc_refcount();
                proof {
                    assert(meta == after_take(b));
                }
                metas.insert(pfn, meta);
                proof {
                    assert(metas@ =~= before.update(pfn as int, after_take(before[pfn as int])));
                    assert(child.pages@ =~= old(child).pages@ + shared_pages(pages0.subrange(0, i + 1), lo as int, hi as int));
                }
            }
            i += 1;
        }
        proof {
            assert(pages0.subrange(0, i as int) =~= pages0);
            assert(self.pages@ =~= protected(pages0, lo as int, hi as int));
        }
    }

    /// Drops one use of the frame of every valid page in `[lo, hi)`, in walk order, and marks
    /// those pages invalid.
    pub fn invalidate_range(&mut self, lo: usize, hi: usize, metas: &mut Vec<PageMeta>)
        requires
            release_ready(old(metas)@, old(self).pages@, lo as int, hi as int),
        ensures
            final(metas)@ == released_metas(old(metas)@, old(self).pages@, lo as int, hi as int),
            final(self).pages@ == pages_outside(old(self).pages@, lo as int, hi as int),
    {
        release_pages_in(&self.pages, lo, hi, metas);
        let mut kept: Vec<(usize, usize, bool)> = Vec::new();
        let mut i: usize = 0;
        while i < self.pages.len()
            invariant
                i <= self.pages@.len(),
                self.pages@ == old(self).pages@,
                kept@ == pages_outside(self.pages@.subrange(0, i as int), lo as int, hi as int),
            decreases self.pages@.len() - i,
        {
            proof {
                assert(self.pages@.subrange(0, i + 1).drop_last() =~= self.pages@.subrange(0, i as int));
                assert(self.pages@.subrange(0, i + 1).last() == self.pages@[i as int]);
            }
            let e = self.pages[i];
            if !(lo <= e.0 && e.0 < hi) {
                kept.push(e);
            }
            i += 1;
        }
        proof {
            assert(self.pages@.subrange(0, i as int) =~= self.pages@);
        }
        self.pages = kept;
    }
}

} // verus!
