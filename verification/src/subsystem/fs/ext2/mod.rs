pub mod cache;
pub mod cursor;
pub mod inode;
pub mod raw;

use vstd::prelude::*;
use crate::bytes::le_u16;
use crate::subsystem::block::{BlockCache, BlockDriver};
use crate::subsystem::fs::ext2::cache::{
    Ext2InodeCache, bit_set, first_with_number, inode_bitmap_byte, inode_index, inode_record_offset,
    lemma_first_with_number_exists, meta_read_from,
};
use crate::subsystem::fs::ext2::cursor::{
    dentry_bad, dentry_inode_at, dentry_rec_len_at, file_walkable, next_boff,
};
use crate::subsystem::fs::ext2::inode::{
    Ext2DirEntry, Ext2InodeWrapper, cache_grown, cached_number, dir_listing, entries_resolve, entries_view,
    lemma_dir_listing_step, listing_on_disk, resolves,
};
use crate::subsystem::fs::ext2::raw::{Ext2Inode, SUPER_BLOCK_SIZE, SuperBlock, mode_is_directory};
use crate::subsystem::fs::inode::FsError;
use crate::subsystem::fs::tmpfs::{split_path, split_slash};
use crate::utils::string::bytes_equal;

verus! {

/// Byte of the disk where the super block starts.
pub const SUPER_BLOCK_OFFSET: usize = 1024;

/// Magic number of an ext2 super block.
pub const EXT2_MAGIC: u16 = 0xEF53;

/// Number of the root directory's inode.
pub const ROOT_INODE: u32 = 2;

/// Position of the first entry named `name` among `l`, at or after `i`.
pub open spec fn first_named(l: Seq<(Seq<u8>, u32)>, name: Seq<u8>, i: int) -> Option<int>
    decreases l.len() - i,
{
    if i < 0 || i >= l.len() {
        None
    } else if l[i].0 == name {
        Some(i)
    } else {
        first_named(l, name, i + 1)
    }
}

/// The inode that loading inode `n` gives with the cache `ic` over the disk `v`.
pub open spec fn resolved(ic: &Ext2InodeCache, v: Seq<u8>, n: u32) -> Ext2InodeWrapper {
    choose|w: Ext2InodeWrapper| resolves(ic, v, n, w)
}

/// What looking up the entry `name` of directory `dir` gives, with the cache `ic` over `v`.
pub open spec fn child_lookup(v: Seq<u8>, ic: &Ext2InodeCache, dir: Ext2InodeWrapper, name: Seq<u8>) -> Result<
    Ext2InodeWrapper,
    FsError,
> {
    if !mode_is_directory(dir.ext2_inode.mode) {
        Err(FsError::Unsupported)
    } else {
        match dir_listing(v, dir.ext2_inode, ic.cache@, &ic.super_block, 0, 0) {
            Err(e) => Err(e),
            Ok(l) => match first_named(l, name, 0) {
                None => Err(FsError::NoExist),
                Some(i) => Ok(resolved(ic, v, l[i].1)),
            },
        }
    }
}

/// Number of the inode that the entry `name` of directory `dir` names, when the lookup finds one.
pub open spec fn child_number(v: Seq<u8>, ic: &Ext2InodeCache, dir: Ext2InodeWrapper, name: Seq<u8>) -> u32 {
    let l = dir_listing(v, dir.ext2_inode, ic.cache@, &ic.super_block, 0, 0)->Ok_0;
    l[first_named(l, name, 0)->Some_0].1
}

/// Whether the directory `dir` can be listed from `v` with the cache `ic`.
pub open spec fn listable(v: Seq<u8>, ic: &Ext2InodeCache, dir: Ext2InodeWrapper) -> bool {
    file_walkable(v, dir.ext2_inode) && listing_on_disk(v, dir.ext2_inode, ic, 0, 0)
}

/// The inode reached from `dir` through the non-empty parts `parts[i..end]`.
pub open spec fn path_lookup(v: Seq<u8>, ic: &Ext2InodeCache, dir: Ext2InodeWrapper, parts: Seq<Seq<u8>>, i: int, end: int) -> Result<
    Ext2InodeWrapper,
    FsError,
>
    decreases end - i,
{
    if i >= end {
        Ok(dir)
    } else if parts[i].len() == 0 {
        path_lookup(v, ic, dir, parts, i + 1, end)
    } else {
        match child_lookup(v, ic, dir, parts[i]) {
            Err(e) => Err(e),
            Ok(c) => path_lookup(v, ic, c, parts, i + 1, end),
        }
    }
}

/// Whether every directory that the lookup of `parts[i..end]` from `dir` lists can be listed.
pub open spec fn path_listable(v: Seq<u8>, ic: &Ext2InodeCache, dir: Ext2InodeWrapper, parts: Seq<Seq<u8>>, i: int, end: int) -> bool
    decreases end - i,
{
    if i >= end {
        true
    } else if parts[i].len() == 0 {
        path_listable(v, ic, dir, parts, i + 1, end)
    } else {
        &&& listable(v, ic, dir)
        &&& match child_lookup(v, ic, dir, parts[i]) {
            Err(e) => true,
            Ok(c) => path_listable(v, ic, c, parts, i + 1, end),
        }
    }
}

/// Loading an inode gives one inode at most.
pub proof fn lemma_resolves_unique(ic: &Ext2InodeCache, v: Seq<u8>, n: u32, w1: Ext2InodeWrapper, w2: Ext2InodeWrapper)
    requires
        resolves(ic, v, n, w1),
        resolves(ic, v, n, w2),
    ensures
        w1 == w2,
{
    if cached_number(ic.cache@, n) {
        let k1 = choose|k: int| first_with_number(ic.cache@, n, k) && w1 == ic.cache@[k];
        let k2 = choose|k: int| first_with_number(ic.cache@, n, k) && w2 == ic.cache@[k];
        if k1 < k2 {
            assert(ic.cache@[k1].number == n);
        } else if k2 < k1 {
            assert(ic.cache@[k2].number == n);
        }
    } else {
        assert(w1.ext2_inode.block =~= w2.ext2_inode.block);
    }
}

/// Growing the cache with inodes loaded from `v` changes nothing that loading an inode gives.
pub proof fn lemma_resolves_grown(orig: &Ext2InodeCache, now: &Ext2InodeCache, v: Seq<u8>, n: u32, w: Ext2InodeWrapper)
    requires
        cache_grown(*orig, *now, v),
    ensures
        resolves(now, v, n, w) <==> resolves(orig, v, n, w),
{
    if cached_number(orig.cache@, n) {
        let j = choose|j: int| 0 <= j < orig.cache@.len() && #[trigger] orig.cache@[j].number == n;
        lemma_first_with_number_exists(orig.cache@, n, j);
        let g = choose|g: int| first_with_number(orig.cache@, n, g);
        assert(now.cache@.subrange(0, orig.cache@.len() as int)[g] == orig.cache@[g]);
        assert(now.cache@[g].number == n);
        assert(first_with_number(now.cache@, n, g)) by {
            assert forall|i: int| 0 <= i < g implies #[trigger] now.cache@[i].number != n by {
                assert(now.cache@.subrange(0, orig.cache@.len() as int)[i] == orig.cache@[i]);
            }
        }
        assert(cached_number(now.cache@, n));
        if resolves(now, v, n, w) {
            let k = choose|k: int| first_with_number(now.cache@, n, k) && w == now.cache@[k];
            if k < g {
                assert(now.cache@[k].number == n);
            } else if g < k {
                assert(now.cache@[g].number == n);
            }
        }
    } else if cached_number(now.cache@, n) {
        let j = choose|j: int| 0 <= j < now.cache@.len() && #[trigger] now.cache@[j].number == n;
        lemma_first_with_number_exists(now.cache@, n, j);
        let f = choose|f: int| first_with_number(now.cache@, n, f);
        if f < orig.cache@.len() {
            assert(now.cache@.subrange(0, orig.cache@.len() as int)[f] == orig.cache@[f]);
        }
        if resolves(orig, v, n, w) {
            assert(w.ext2_inode.block =~= now.cache@[f].ext2_inode.block);
        }
    }
}

} // verus!

verus! {

/// A revision 1 ext2 file system, with no optional features, over a block cache.
pub struct Ext2Fs {
    pub cache: Ext2InodeCache,
}

impl Ext2Fs {
    /// Reads the super block, 1024 bytes into the disk; `None` when its magic number is not
    /// that of ext2.
    fn parse_super_block<D: BlockDriver>(disk: &mut BlockCache<D>) -> (r: Option<SuperBlock>)
        requires
            old(disk).wf(),
            SUPER_BLOCK_OFFSET + 256 <= old(disk)@.len(),
        ensures
            final(disk).wf(),
            final(disk)@ == old(disk)@,
            r is Some <==> le_u16(old(disk)@, SUPER_BLOCK_OFFSET + 56) == EXT2_MAGIC,
            r matches Some(sb) ==> sb.parsed_from(old(disk)@, SUPER_BLOCK_OFFSET as int),
    {
        proof {
            disk.lemma_sector_count();
        }
        let ghost v = disk@;
        let mut block_raw = crate::bytes::zeroed_bytes(256);
        disk.read(SUPER_BLOCK_OFFSET, &mut block_raw);
        let sb = SuperBlock::parse(block_raw.as_slice(), 0);
        proof {
            assert(forall|k: int| 0 <= k < 256 ==> #[trigger] block_raw@[k] == v[SUPER_BLOCK_OFFSET + k]);
            assert(sb.uuid@ =~= v.subrange(SUPER_BLOCK_OFFSET + 104, SUPER_BLOCK_OFFSET + 120));
            assert(sb.volume_name@ =~= v.subrange(SUPER_BLOCK_OFFSET + 120, SUPER_BLOCK_OFFSET + 136));
            assert(sb.last_mounted@ =~= v.subrange(SUPER_BLOCK_OFFSET + 136, SUPER_BLOCK_OFFSET + 200));
        }
        if sb.magic != EXT2_MAGIC {
            return None;
        }
        Some(sb)
    }

    /// Mounts the file system on `disk`, with no inode loaded yet; `None` when the disk holds
    /// no ext2 super block.
    pub fn new<D: BlockDriver>(disk: &mut BlockCache<D>) -> (r: Option<Self>)
        requires
            old(disk).wf(),
            SUPER_BLOCK_OFFSET + 256 <= old(disk)@.len(),
        ensures
            final(disk).wf(),
            final(disk)@ == old(disk)@,
            r is Some <==> le_u16(old(disk)@, SUPER_BLOCK_OFFSET + 56) == EXT2_MAGIC,
            r matches Some(fs) ==> fs.cache.super_block.parsed_from(old(disk)@, SUPER_BLOCK_OFFSET as int)
                && fs.cache.cache@.len() == 0,
    {
        match Self::parse_super_block(disk) {
            Some(super_block) => Some(Ext2Fs { cache: Ext2InodeCache::new(super_block) }),
            None => None,
        }
    }

    /// Whether the root directory can be loaded from `v`: it is cached, or its record lies on
    /// the disk and its bitmap marks it used.
    pub open spec fn root_ok(&self, v: Seq<u8>) -> bool {
        cached_number(self.cache.cache@, ROOT_INODE) || (self.cache.inode_on_disk(ROOT_INODE, v.len() as int) && bit_set(
            v[inode_bitmap_byte(&self.cache.super_block, ROOT_INODE)],
            inode_index(&self.cache.super_block, ROOT_INODE) % 8,
        ))
    }

    /// Reads the record of inode `n` from the disk, bypassing the cache.
    pub fn lookup_node<D: BlockDriver>(&self, disk: &mut BlockCache<D>, n: u32) -> (r: Option<Ext2Inode>)
        requires
            old(disk).wf(),
            self.cache.inode_on_disk(n, old(disk)@.len() as int),
        ensures
            final(disk).wf(),
            final(disk)@ == old(disk)@,
            r matches Some(node) && node.parsed_from(old(disk)@, inode_record_offset(&self.cache.super_block, n)),
    {
        Some(self.cache.read_node(disk, n))
    }

    /// The root directory, loading it when it is not cached.
    pub fn root<D: BlockDriver>(&mut self, disk: &mut BlockCache<D>) -> (r: Ext2InodeWrapper)
        requires
            old(disk).wf(),
            old(self).root_ok(old(disk)@),
        ensures
            final(disk).wf(),
            final(disk)@ == old(disk)@,
            cache_grown(old(self).cache, final(self).cache, old(disk)@),
            r == resolved(&old(self).cache, old(disk)@, ROOT_INODE),
            resolves(&old(self).cache, old(disk)@, ROOT_INODE, r),
    {
        let ghost v = disk@;
        let ghost before = self.cache;
        proof {
            if cached_number(before.cache@, ROOT_INODE) {
                let j = choose|j: int| 0 <= j < before.cache@.len() && #[trigger] before.cache@[j].number == ROOT_INODE;
                lemma_first_with_number_exists(before.cache@, ROOT_INODE, j);
            } else {
                assert(forall|j: int| 0 <= j < before.cache@.len() ==> #[trigger] before.cache@[j].number != ROOT_INODE);
            }
        }
        let r = self.cache.lookup_or_create(disk, ROOT_INODE);
        proof {
            if cached_number(before.cache@, ROOT_INODE) {
                let f = choose|f: int| first_with_number(before.cache@, ROOT_INODE, f);
            }
        }
        let w = r.unwrap();
        proof {
            assert(self.cache.cache@.subrange(0, before.cache@.len() as int) =~= before.cache@);
            if cached_number(before.cache@, ROOT_INODE) {
                let f = choose|f: int| first_with_number(before.cache@, ROOT_INODE, f);
                assert(resolves(&before, v, ROOT_INODE, w));
            } else {
                assert(self.cache.cache@[before.cache@.len() as int] == w);
            }
            lemma_resolves_unique(&before, v, ROOT_INODE, w, resolved(&before, v, ROOT_INODE));
        }
        w
    }

    /// The entry named `name` of directory `dir`: `NoExist` when it has none.
    pub fn find_child<D: BlockDriver>(&mut self, disk: &mut BlockCache<D>, dir: &Ext2InodeWrapper, name: &[u8]) -> (r: Result<
        Ext2InodeWrapper,
        FsError,
    >)
        requires
            old(disk).wf(),
            listable(old(disk)@, &old(self).cache, *dir),
        ensures
            final(disk).wf(),
            final(disk)@ == old(disk)@,
            cache_grown(old(self).cache, final(self).cache, old(disk)@),
            r == child_lookup(old(disk)@, &old(self).cache, *dir, name@),
            r is Ok ==> resolves(&old(self).cache, old(disk)@, child_number(old(disk)@, &old(self).cache, *dir, name@), r->Ok_0),
    {
        let ghost v = disk@;
        let ghost before = self.cache;
        let list = match dir.list_directory(&mut self.cache, disk) {
            Err(e) => {
                return Err(e);
            },
            Ok(l) => l,
        };
        let ghost l = entries_view(list@);
        let mut i: usize = 0;
        while i < list.len()
            invariant
                disk.wf(),
                disk@ == v,
                v == old(disk)@,
                before == old(self).cache,
                cache_grown(before, self.cache, v),
                entries_resolve(&before, v, list@),
                mode_is_directory(dir.ext2_inode.mode),
                dir_listing(v, dir.ext2_inode, before.cache@, &before.super_block, 0, 0) == Ok::<
                    Seq<(Seq<u8>, u32)>,
                    FsError,
                >(l),
                i <= list@.len(),
                l == entries_view(list@),
                first_named(l, name@, 0) == first_named(l, name@, i as int),
            decreases list@.len() - i,
        {
            if bytes_equal(list[i].name.as_slice(), name) {
                proof {
                    assert(l[i as int].0 == list@[i as int].name@);
                    assert(resolves(&before, v, l[i as int].1, list@[i as int].inode));
                    lemma_resolves_unique(&before, v, l[i as int].1, list@[i as int].inode, resolved(&before, v, l[i as int].1));
                }
                return Ok(list[i].inode);
            }
            proof {
                assert(l[i as int].0 == list@[i as int].name@);
            }
            i += 1;
        }
        Err(FsError::NoExist)
    }

    /// The inode that `path` names: its parts between `/` are looked up one by one from the
    /// root directory, skipping empty ones.
    pub fn open<D: BlockDriver>(&mut self, disk: &mut BlockCache<D>, path: &[u8]) -> (r: Result<Ext2InodeWrapper, FsError>)
        requires
            old(disk).wf(),
            old(self).root_ok(old(disk)@),
            path_listable(
                old(disk)@,
                &old(self).cache,
                resolved(&old(self).cache, old(disk)@, ROOT_INODE),
                split_slash(path@),
                0,
                split_slash(path@).len() as int,
            ),
        ensures
            final(disk).wf(),
            final(disk)@ == old(disk)@,
            cache_grown(old(self).cache, final(self).cache, old(disk)@),
            r == path_lookup(
                old(disk)@,
                &old(self).cache,
                resolved(&old(self).cache, old(disk)@, ROOT_INODE),
                split_slash(path@),
                0,
                split_slash(path@).len() as int,
            ),
    {
        let ghost v = disk@;
        let ghost orig = self.cache;
        let parts = split_path(path);
        let ghost ps = split_slash(path@);
        let ghost n = ps.len() as int;
        let mut current = self.root(disk);
        let mut i: usize = 0;
        while i < parts.len()
            invariant
                disk.wf(),
                disk@ == v,
                v == old(disk)@,
                orig == old(self).cache,
                cache_grown(orig, self.cache, v),
                parts@.len() == n,
                n == ps.len(),
                ps == split_slash(path@),
                forall|k: int| 0 <= k < parts@.len() ==> (#[trigger] parts@[k])@ == ps[k],
                i <= n,
                path_lookup(v, &orig, resolved(&orig, v, ROOT_INODE), ps, 0, n) == path_lookup(v, &orig, current, ps, i as int, n),
                path_listable(v, &orig, current, ps, i as int, n),
            decreases n - i,
        {
            if parts[i].len() == 0 {
                i += 1;
            } else {
                let ghost now = self.cache;
                proof {
                    lemma_dir_listing_grown_child(v, &orig, &now, current, ps[i as int]);
                }
                match self.find_child(disk, &current, parts[i].as_slice()) {
                    Err(e) => {
                        proof {
                            lemma_cache_grown_trans(orig, now, self.cache, v);
                        }
                        return Err(e);
                    },
                    Ok(child) => {
                        proof {
                            lemma_resolves_grown_child(v, &orig, &now, current, ps[i as int], child);
                            lemma_cache_grown_trans(orig, now, self.cache, v);
                        }
                        current = child;
                        i += 1;
                    },
                }
            }
        }
        Ok(current)
    }
}

} // verus!

verus! {

/// Looking up a child with a grown cache fails as with the first cache, and lists under the
/// same conditions.
pub proof fn lemma_dir_listing_grown_child(v: Seq<u8>, orig: &Ext2InodeCache, now: &Ext2InodeCache, dir: Ext2InodeWrapper, name: Seq<u8>)
    requires
        cache_grown(*orig, *now, v),
    ensures
        dir_listing(v, dir.ext2_inode, now.cache@, &now.super_block, 0, 0) == dir_listing(
            v,
            dir.ext2_inode,
            orig.cache@,
            &orig.super_block,
            0,
            0,
        ),
        listable(v, orig, dir) ==> listable(v, now, dir),
        child_lookup(v, now, dir, name) is Err ==> child_lookup(v, now, dir, name) == child_lookup(v, orig, dir, name),
{
    crate::subsystem::fs::ext2::inode::lemma_dir_listing_grown(v, dir.ext2_inode, orig, now, 0, 0);
}

/// When the lookup with a grown cache gives a child, the lookup with the first cache gives the
/// same child.
pub proof fn lemma_resolves_grown_child(
    v: Seq<u8>,
    orig: &Ext2InodeCache,
    now: &Ext2InodeCache,
    dir: Ext2InodeWrapper,
    name: Seq<u8>,
    child: Ext2InodeWrapper,
)
    requires
        cache_grown(*orig, *now, v),
        child_lookup(v, now, dir, name) == Ok::<Ext2InodeWrapper, FsError>(child),
        resolves(now, v, child_number(v, now, dir, name), child),
    ensures
        child_lookup(v, orig, dir, name) == Ok::<Ext2InodeWrapper, FsError>(child),
{
    crate::subsystem::fs::ext2::inode::lemma_dir_listing_grown(v, dir.ext2_inode, orig, now, 0, 0);
    let l = dir_listing(v, dir.ext2_inode, now.cache@, &now.super_block, 0, 0)->Ok_0;
    let i = first_named(l, name, 0)->Some_0;
    lemma_resolves_grown(orig, now, v, l[i].1, child);
    lemma_resolves_unique(orig, v, l[i].1, child, resolved(orig, v, l[i].1));
}

/// Growing a grown cache again is growing the first one.
pub proof fn lemma_cache_grown_trans(a: Ext2InodeCache, b: Ext2InodeCache, c: Ext2InodeCache, v: Seq<u8>)
    requires
        cache_grown(a, b, v),
        cache_grown(b, c, v),
    ensures
        cache_grown(a, c, v),
{
    assert(c.cache@.subrange(0, a.cache@.len() as int) =~= a.cache@) by {
        assert forall|j: int| 0 <= j < a.cache@.len() implies c.cache@[j] == a.cache@[j] by {
            assert(c.cache@.subrange(0, b.cache@.len() as int)[j] == b.cache@[j]);
            assert(b.cache@.subrange(0, a.cache@.len() as int)[j] == a.cache@[j]);
        }
    }
    assert forall|j: int| a.cache@.len() <= j < c.cache@.len() implies {
        let n = (#[trigger] c.cache@[j]).number;
        &&& a.inode_on_disk(n, v.len() as int)
        &&& bit_set(v[inode_bitmap_byte(&a.super_block, n)], inode_index(&a.super_block, n) % 8)
        &&& !cached_number(a.cache@, n)
        &&& meta_read_from(c.cache@[j].ext2_inode, v, inode_record_offset(&a.super_block, n))
    } by {
        let n = c.cache@[j].number;
        if j < b.cache@.len() {
            assert(c.cache@.subrange(0, b.cache@.len() as int)[j] == b.cache@[j]);
        } else {
            assert(!cached_number(b.cache@, n));
            if cached_number(a.cache@, n) {
                let k = choose|k: int| 0 <= k < a.cache@.len() && #[trigger] a.cache@[k].number == n;
                assert(b.cache@.subrange(0, a.cache@.len() as int)[k] == a.cache@[k]);
                assert(b.cache@[k].number == n);
            }
        }
    }
}

} // verus!
