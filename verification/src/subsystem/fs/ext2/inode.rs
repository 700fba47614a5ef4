use vstd::prelude::*;
use crate::subsystem::block::{BlockCache, BlockDriver};
use crate::subsystem::fs::ext2::cache::{
    Ext2InodeCache, bit_set, first_with_number, inode_bitmap_byte, inode_index, inode_record_offset,
    lemma_first_with_number_exists, meta_read_from,
};
use crate::subsystem::fs::ext2::cursor::{
    Ext2InodeCursor, block_ok, data_block, dentry_bad, dentry_inode_at, dentry_name_len_at, dentry_rec_len_at,
    file_bytes, file_walkable, next_boff,
};
use crate::subsystem::fs::ext2::raw::{Ext2Inode, SuperBlock, mode_file_type, mode_is_directory, mode_is_file};
use crate::subsystem::fs::inode::FsError;
use crate::utils::string::{is_utf8, utf8_valid};

verus! {

/// The fields of an ext2 inode that the driver keeps in memory.
#[derive(Clone, Copy)]
pub struct Ext2Meta {
    pub mode: u16,
    pub size: u32,
    pub block: [u32; 15],
    pub links_count: u16,
}

impl Ext2Meta {
    pub fn from_ext2_inode(ext2_inode: &Ext2Inode) -> (r: Self)
        ensures
            r.mode == ext2_inode.mode,
            r.size == ext2_inode.size,
            r.block == ext2_inode.block,
            r.links_count == ext2_inode.links_count,
    {
        Ext2Meta {
            mode: ext2_inode.mode,
            size: ext2_inode.size,
            block: ext2_inode.block,
            links_count: ext2_inode.links_count,
        }
    }

    pub fn is_file(&self) -> (r: bool)
        ensures
            r == mode_is_file(self.mode),
    {
        mode_file_type(self.mode) == 0x8
    }

    pub fn is_directory(&self) -> (r: bool)
        ensures
            r == mode_is_directory(self.mode),
    {
        mode_file_type(self.mode) == 0x4
    }
}

/// An inode of an ext2 file system, with its number.
#[derive(Clone, Copy)]
pub struct Ext2InodeWrapper {
    pub number: u32,
    pub ext2_inode: Ext2Meta,
}

} // verus!

verus! {

/// An entry of a directory listing: its name (at most 32 bytes of it) and its inode.
pub struct Ext2DirEntry {
    pub name: Vec<u8>,
    pub inode: Ext2InodeWrapper,
}

/// Whether an inode numbered `n` is among `s`.
pub open spec fn cached_number(s: Seq<Ext2InodeWrapper>, n: u32) -> bool {
    exists|j: int| 0 <= j < s.len() && #[trigger] s[j].number == n
}

/// Bytes of an entry's name that a listing keeps.
pub open spec fn listed_name_len(v: Seq<u8>, meta: Ext2Meta, off: int) -> int {
    if dentry_name_len_at(v, meta, off) < 32 {
        dentry_name_len_at(v, meta, off)
    } else {
        32
    }
}

/// `p` followed by what `r` lists, or the error of `r`.
pub open spec fn prepend_entries(p: Seq<(Seq<u8>, u32)>, r: Result<Seq<(Seq<u8>, u32)>, FsError>) -> Result<
    Seq<(Seq<u8>, u32)>,
    FsError,
> {
    match r {
        Ok(l) => Ok(p + l),
        Err(e) => Err(e),
    }
}

/// Whether the listing from the entry at `off` on, `boff` bytes into its block, stops there:
/// at the end of the file, or at the start of a block that is a hole.
pub open spec fn listing_stops(v: Seq<u8>, meta: Ext2Meta, off: int, boff: int) -> bool {
    off < 0 || off >= meta.size || (boff == 0 && data_block(v, meta, (off / 1024) as u32) == 0)
}

/// The (name, inode number) pairs that listing a directory gives from the entry at `off` on,
/// `boff` bytes into its block, with the inodes of `cached` already loaded: entries with inode 0
/// are skipped; an entry whose inode is neither loaded nor marked used fails with `NoExist`,
/// and a name that is not UTF-8 fails with `BadMeta`.
#[verifier::opaque]
pub open spec fn dir_listing(v: Seq<u8>, meta: Ext2Meta, cached: Seq<Ext2InodeWrapper>, sb: &SuperBlock, off: int, boff: int) -> Result<
    Seq<(Seq<u8>, u32)>,
    FsError,
>
    decreases (if off < meta.size {
        meta.size - off
    } else {
        0
    }),
{
    if listing_stops(v, meta, off, boff) {
        Ok(Seq::empty())
    } else if off + 8 > meta.size {
        Err(FsError::EndOfFile)
    } else if dentry_bad(v, meta, off, boff) {
        Err(FsError::BadMeta)
    } else {
        let ino = dentry_inode_at(v, meta, off) as u32;
        let rest = dir_listing(
            v,
            meta,
            cached,
            sb,
            off + dentry_rec_len_at(v, meta, off),
            next_boff(v, meta, off, boff),
        );
        let nl = listed_name_len(v, meta, off);
        if ino == 0 {
            rest
        } else if !cached_number(cached, ino) && !bit_set(v[inode_bitmap_byte(sb, ino)], inode_index(sb, ino) % 8) {
            Err(FsError::NoExist)
        } else if off + 8 + nl > meta.size {
            Err(FsError::EndOfFile)
        } else if !utf8_valid(file_bytes(v, meta, off + 8, nl)) {
            Err(FsError::BadMeta)
        } else {
            prepend_entries(seq![(file_bytes(v, meta, off + 8, nl), ino)], rest)
        }
    }
}

/// Whether every entry that the listing from `off` on loads from disk has its record and bitmap
/// bit within `v`.
#[verifier::opaque]
pub open spec fn listing_on_disk(v: Seq<u8>, meta: Ext2Meta, ic: &Ext2InodeCache, off: int, boff: int) -> bool
    decreases (if off < meta.size {
        meta.size - off
    } else {
        0
    }),
{
    if listing_stops(v, meta, off, boff) || off + 8 > meta.size || dentry_bad(v, meta, off, boff) {
        true
    } else {
        let ino = dentry_inode_at(v, meta, off) as u32;
        &&& (ino != 0 && !cached_number(ic.cache@, ino)) ==> ic.inode_on_disk(ino, v.len() as int)
        &&& listing_on_disk(
            v,
            meta,
            ic,
            off + dentry_rec_len_at(v, meta, off),
            next_boff(v, meta, off, boff),
        )
    }
}

/// One step of the listing, at an entry where it does not stop.
pub proof fn lemma_dir_listing_step(
    v: Seq<u8>,
    meta: Ext2Meta,
    cached: Seq<Ext2InodeWrapper>,
    ic: &Ext2InodeCache,
    off: int,
    boff: int,
)
    requires
        !listing_stops(v, meta, off, boff),
    ensures
        dir_listing(v, meta, cached, &ic.super_block, off, boff) == (if off + 8 > meta.size {
            Err(FsError::EndOfFile)
        } else if dentry_bad(v, meta, off, boff) {
            Err(FsError::BadMeta)
        } else {
            let ino = dentry_inode_at(v, meta, off) as u32;
            let rest = dir_listing(
                v,
                meta,
                cached,
                &ic.super_block,
                off + dentry_rec_len_at(v, meta, off),
                next_boff(v, meta, off, boff),
            );
            let nl = listed_name_len(v, meta, off);
            if ino == 0 {
                rest
            } else if !cached_number(cached, ino) && !bit_set(
                v[inode_bitmap_byte(&ic.super_block, ino)],
                inode_index(&ic.super_block, ino) % 8,
            ) {
                Err(FsError::NoExist)
            } else if off + 8 + nl > meta.size {
                Err(FsError::EndOfFile)
            } else if !utf8_valid(file_bytes(v, meta, off + 8, nl)) {
                Err(FsError::BadMeta)
            } else {
                prepend_entries(seq![(file_bytes(v, meta, off + 8, nl), ino)], rest)
            }
        }),
        (off + 8 <= meta.size && !dentry_bad(v, meta, off, boff)) ==> listing_on_disk(v, meta, ic, off, boff) == ({
            let ino = dentry_inode_at(v, meta, off) as u32;
            &&& (ino != 0 && !cached_number(ic.cache@, ino)) ==> ic.inode_on_disk(ino, v.len() as int)
            &&& listing_on_disk(
                v,
                meta,
                ic,
                off + dentry_rec_len_at(v, meta, off),
                next_boff(v, meta, off, boff),
            )
        }),
{
    reveal_with_fuel(dir_listing, 1);
    reveal_with_fuel(listing_on_disk, 1);
}

/// The listing is empty where it stops.
pub proof fn lemma_dir_listing_stops(v: Seq<u8>, meta: Ext2Meta, cached: Seq<Ext2InodeWrapper>, sb: &SuperBlock, off: int, boff: int)
    requires
        listing_stops(v, meta, off, boff),
    ensures
        dir_listing(v, meta, cached, sb, off, boff) == Ok::<Seq<(Seq<u8>, u32)>, FsError>(Seq::empty()),
{
    reveal_with_fuel(dir_listing, 1);
}

} // verus!

verus! {

/// The (name, inode number) pairs of listed entries.
pub open spec fn entries_view(s: Seq<Ext2DirEntry>) -> Seq<(Seq<u8>, u32)> {
    s.map_values(|e: Ext2DirEntry| (e.name@, e.inode.number))
}

/// Whether `now` is the cache `orig` was, with only inodes marked used in `v` added.
pub open spec fn cache_grown(orig: Ext2InodeCache, now: Ext2InodeCache, v: Seq<u8>) -> bool {
    &&& now.super_block == orig.super_block
    &&& orig.cache@.len() <= now.cache@.len()
    &&& now.cache@.subrange(0, orig.cache@.len() as int) == orig.cache@
    &&& forall|j: int| orig.cache@.len() <= j < now.cache@.len() ==> {
        let n = (#[trigger] now.cache@[j]).number;
        &&& orig.inode_on_disk(n, v.len() as int)
        &&& bit_set(v[inode_bitmap_byte(&orig.super_block, n)], inode_index(&orig.super_block, n) % 8)
        &&& !cached_number(orig.cache@, n)
        &&& meta_read_from(now.cache@[j].ext2_inode, v, inode_record_offset(&orig.super_block, n))
    }
}

/// Whether `w` is what loading inode `n` gives with the cache `ic` over the disk `v`: the first
/// cached copy, or else the inode as its record describes it.
pub open spec fn resolves(ic: &Ext2InodeCache, v: Seq<u8>, n: u32, w: Ext2InodeWrapper) -> bool {
    &&& w.number == n
    &&& if cached_number(ic.cache@, n) {
        exists|k: int| first_with_number(ic.cache@, n, k) && w == ic.cache@[k]
    } else {
        meta_read_from(w.ext2_inode, v, inode_record_offset(&ic.super_block, n))
    }
}

/// Whether every listed entry holds what loading its inode gives.
pub open spec fn entries_resolve(ic: &Ext2InodeCache, v: Seq<u8>, s: Seq<Ext2DirEntry>) -> bool {
    forall|i: int| 0 <= i < s.len() ==> resolves(ic, v, (#[trigger] s[i]).inode.number, s[i].inode)
}

/// Loads inode `n`, named by a directory entry, for a listing that started with the cache
/// `orig`.
fn load_listed_inode<D: BlockDriver>(
    icache: &mut Ext2InodeCache,
    cache: &mut BlockCache<D>,
    n: u32,
    Ghost(orig): Ghost<Ext2InodeCache>,
) -> (r: Result<Ext2InodeWrapper, FsError>)
    requires
        old(cache).wf(),
        n != 0,
        !cached_number(orig.cache@, n) ==> orig.inode_on_disk(n, old(cache)@.len() as int),
        cache_grown(orig, *old(icache), old(cache)@),
    ensures
        final(cache).wf(),
        final(cache)@ == old(cache)@,
        cache_grown(orig, *final(icache), old(cache)@),
        r is Err <==> !cached_number(orig.cache@, n) && !bit_set(
            old(cache)@[inode_bitmap_byte(&orig.super_block, n)],
            inode_index(&orig.super_block, n) % 8,
        ),
        r is Err ==> r == Err::<Ext2InodeWrapper, FsError>(FsError::NoExist),
        r matches Ok(w) ==> resolves(&orig, old(cache)@, n, w),
{
    let ghost v = cache@;
    let ghost before = *icache;
    proof {
        if cached_number(orig.cache@, n) {
            let j = choose|j: int| 0 <= j < orig.cache@.len() && #[trigger] orig.cache@[j].number == n;
            assert(before.cache@.subrange(0, orig.cache@.len() as int)[j] == orig.cache@[j]);
            assert(before.cache@[j].number == n);
        }
        if !cached_number(before.cache@, n) {
            assert(!cached_number(orig.cache@, n));
        }
        assert((forall|j: int| 0 <= j < before.cache@.len() ==> #[trigger] before.cache@[j].number != n)
            ==> !cached_number(before.cache@, n));
        if cached_number(before.cache@, n) && !cached_number(orig.cache@, n) {
            let j = choose|j: int| 0 <= j < before.cache@.len() && #[trigger] before.cache@[j].number == n;
            if j < orig.cache@.len() {
                assert(before.cache@.subrange(0, orig.cache@.len() as int)[j] == orig.cache@[j]);
            }
            assert(bit_set(v[inode_bitmap_byte(&orig.super_block, n)], inode_index(&orig.super_block, n) % 8));
        }
    }
    proof {
        if cached_number(before.cache@, n) {
            let k = choose|k: int| 0 <= k < before.cache@.len() && #[trigger] before.cache@[k].number == n;
            lemma_first_with_number_exists(before.cache@, n, k);
        }
    }
    let r = icache.lookup_or_create(cache, n);
    proof {
        if cached_number(before.cache@, n) {
            let f = choose|f: int| first_with_number(before.cache@, n, f);
            assert(icache.cache@ == before.cache@);
            if cached_number(orig.cache@, n) {
                let j = choose|j: int| 0 <= j < orig.cache@.len() && #[trigger] orig.cache@[j].number == n;
                lemma_first_with_number_exists(orig.cache@, n, j);
                let g = choose|g: int| first_with_number(orig.cache@, n, g);
                assert(before.cache@.subrange(0, orig.cache@.len() as int)[g] == orig.cache@[g]);
                if f < g {
                    assert(before.cache@.subrange(0, orig.cache@.len() as int)[f] == orig.cache@[f]);
                } else if g < f {
                    assert(before.cache@[g].number == n);
                }
                assert(f == g);
            } else {
                if f < orig.cache@.len() {
                    assert(before.cache@.subrange(0, orig.cache@.len() as int)[f] == orig.cache@[f]);
                }
            }
        } else {
            assert(forall|j: int| 0 <= j < before.cache@.len() ==> #[trigger] before.cache@[j].number != n);
        }
        if r is Ok {
            assert forall|j: int| 0 <= j < orig.cache@.len() implies icache.cache@[j] == orig.cache@[j] by {
                assert(before.cache@.subrange(0, orig.cache@.len() as int)[j] == orig.cache@[j]);
            }
            assert(icache.cache@.subrange(0, orig.cache@.len() as int) =~= orig.cache@);
        }
    }
    r
}

/// Handles the directory entry at file offset `offset`, `boff` bytes into its block, for a
/// listing: fails as the listing would, or adds the entry to `out` when it names an inode, and
/// gives its record length.
fn list_step<D: BlockDriver>(
    cursor: &mut Ext2InodeCursor,
    icache: &mut Ext2InodeCache,
    cache: &mut BlockCache<D>,
    offset: u64,
    boff: u64,
    out: &mut Vec<Ext2DirEntry>,
    Ghost(orig): Ghost<Ext2InodeCache>,
) -> (r: Result<u64, FsError>)
    requires
        old(cache).wf(),
        file_walkable(old(cache)@, old(cursor).inode),
        offset < old(cursor).inode.size,
        boff < 1024,
        offset % 1024 == boff,
        !listing_stops(old(cache)@, old(cursor).inode, offset as int, boff as int),
        listing_on_disk(old(cache)@, old(cursor).inode, &orig, offset as int, boff as int),
        cache_grown(orig, *old(icache), old(cache)@),
        entries_resolve(&orig, old(cache)@, old(out)@),
    ensures
        entries_resolve(&orig, old(cache)@, final(out)@),
        final(cache).wf(),
        final(cache)@ == old(cache)@,
        final(cursor).inode == old(cursor).inode,
        cache_grown(orig, *final(icache), old(cache)@),
        match r {
            Err(e) => dir_listing(old(cache)@, old(cursor).inode, orig.cache@, &orig.super_block, offset as int, boff as int)
                == Err::<Seq<(Seq<u8>, u32)>, FsError>(e),
            Ok(rec_len) => {
                &&& rec_len == dentry_rec_len_at(old(cache)@, old(cursor).inode, offset as int)
                &&& 8 < rec_len
                &&& boff + rec_len <= 1024
                &&& next_boff(old(cache)@, old(cursor).inode, offset as int, boff as int) == (if boff + rec_len == 1024 {
                    0
                } else {
                    boff + rec_len
                })
                &&& listing_on_disk(
                    old(cache)@,
                    old(cursor).inode,
                    &orig,
                    offset + rec_len,
                    next_boff(old(cache)@, old(cursor).inode, offset as int, boff as int),
                )
                &&& prepend_entries(
                    entries_view(old(out)@),
                    dir_listing(old(cache)@, old(cursor).inode, orig.cache@, &orig.super_block, offset as int, boff as int),
                ) == prepend_entries(
                    entries_view(final(out)@),
                    dir_listing(
                        old(cache)@,
                        old(cursor).inode,
                        orig.cache@,
                        &orig.super_block,
                        offset + rec_len,
                        next_boff(old(cache)@, old(cursor).inode, offset as int, boff as int),
                    ),
                )
                &&& final(cursor).at_block((offset / 1024) as u32)
                &&& final(cursor).offsets_bounded()
            },
        },
{
    let ghost v = cache@;
    let ghost meta = cursor.inode;
    proof {
        lemma_dir_listing_step(v, meta, orig.cache@, &orig, offset as int, boff as int);
    }
    let dentry_header = match cursor.read_dentry_header(cache, offset) {
        Err(e) => {
            return Err(e);
        },
        Ok(h) => h,
    };
    if dentry_header.rec_len <= 8 || dentry_header.rec_len % 4 != 0 || boff + dentry_header.rec_len as u64 > 1024
        || dentry_header.name_len as u16 > dentry_header.rec_len - 8 {
        return Err(FsError::BadMeta);
    }
    proof {
        assert((offset + 7) / 1024 == offset / 1024) by (nonlinear_arith)
            requires
                offset % 1024 == boff,
                boff + 8 < 1024;
    }
    let inode_number = dentry_header.inode;
    let ghost rest = dir_listing(
        v,
        meta,
        orig.cache@,
        &orig.super_block,
        offset + dentry_header.rec_len,
        next_boff(v, meta, offset as int, boff as int),
    );
    if inode_number != 0 {
        let ext2_inode = match load_listed_inode(icache, cache, inode_number, Ghost(orig)) {
            Err(e) => {
                return Err(e);
            },
            Ok(w) => w,
        };
        let name_len: usize = if dentry_header.name_len < 32 { dentry_header.name_len as usize } else { 32 };
        let name = match cursor.read_name(cache, offset + 8, name_len) {
            Err(e) => {
                return Err(e);
            },
            Ok(n) => n,
        };
        if !is_utf8(name.as_slice()) {
            return Err(FsError::BadMeta);
        }
        proof {
            if name_len > 0 {
                assert((offset + 8 + name_len - 1) / 1024 == offset / 1024) by (nonlinear_arith)
                    requires
                        offset % 1024 == boff,
                        boff + 8 + name_len <= 1024;
            }
        }
        let ghost out_before = out@;
        let ghost pair = (name@, inode_number);
        out.push(Ext2DirEntry { name, inode: ext2_inode });
        proof {
            assert(entries_view(out@) =~= entries_view(out_before).push(pair));
            match rest {
                Ok(l) => {
                    assert(entries_view(out_before) + (seq![pair] + l) =~= entries_view(out_before).push(pair) + l);
                },
                Err(e) => {},
            }
        }
    }
    Ok(dentry_header.rec_len as u64)
}

impl Ext2InodeWrapper {
    /// Lists the entries of this directory that name an inode, loading each such inode into
    /// `icache`, block by block until the end of the file or a block that is a hole.
    pub fn list_directory<D: BlockDriver>(&self, icache: &mut Ext2InodeCache, cache: &mut BlockCache<D>) -> (r: Result<
        Vec<Ext2DirEntry>,
        FsError,
    >)
        requires
            old(cache).wf(),
            file_walkable(old(cache)@, self.ext2_inode),
            listing_on_disk(old(cache)@, self.ext2_inode, &*old(icache), 0, 0),
        ensures
            final(cache).wf(),
            final(cache)@ == old(cache)@,
            final(icache).super_block == old(icache).super_block,
            !mode_is_directory(self.ext2_inode.mode) ==> r == Err::<Vec<Ext2DirEntry>, FsError>(FsError::Unsupported),
            cache_grown(*old(icache), *final(icache), old(cache)@),
            mode_is_directory(self.ext2_inode.mode) ==> match r {
                Ok(l) => dir_listing(old(cache)@, self.ext2_inode, old(icache).cache@, &old(icache).super_block, 0, 0)
                    == Ok::<Seq<(Seq<u8>, u32)>, FsError>(entries_view(l@)) && entries_resolve(&*old(icache), old(cache)@, l@),
                Err(e) => dir_listing(old(cache)@, self.ext2_inode, old(icache).cache@, &old(icache).super_block, 0, 0)
                    == Err::<Seq<(Seq<u8>, u32)>, FsError>(e),
            },
    {
        assert(icache.cache@.subrange(0, icache.cache@.len() as int) =~= icache.cache@);
        if !self.ext2_inode.is_directory() {
            return Err(FsError::Unsupported);
        }
        let ghost v = cache@;
        let ghost meta = self.ext2_inode;
        let ghost orig = *icache;
        let ghost total = dir_listing(v, meta, orig.cache@, &orig.super_block, 0, 0);
        let mut list: Vec<Ext2DirEntry> = Vec::new();
        let file_size = self.ext2_inode.size as u64;
        let mut file_offset: u64 = 0;
        let mut block_offset: u64 = 0;
        let mut cursor = Ext2InodeCursor::new(self.ext2_inode);
        proof {
            cache.lemma_sector_count();
            assert(block_ok(v, meta, 0));
        }
        let mut active_block = cursor.get_current_block(cache);
        assert(entries_view(list@) =~= Seq::empty());
        assert(total == prepend_entries(entries_view(list@), total)) by {
            match total {
                Ok(l) => {
                    assert(Seq::<(Seq<u8>, u32)>::empty() + l =~= l);
                },
                Err(e) => {},
            }
        }
        while active_block != 0 && file_offset < file_size
            invariant
                cache.wf(),
                cache@ == v,
                v == old(cache)@,
                cursor.inode == meta,
                meta == self.ext2_inode,
                orig == *old(icache),
                file_size == meta.size,
                file_walkable(v, meta),
                mode_is_directory(meta.mode),
                cache_grown(orig, *icache, v),
                entries_resolve(&orig, v, list@),
                block_offset == 0,
                file_offset % 1024 == 0 || file_offset >= meta.size,
                file_offset < meta.size + 1024,
                file_offset < meta.size ==> active_block == data_block(v, meta, (file_offset / 1024) as u32),
                listing_on_disk(v, meta, &orig, file_offset as int, 0),
                total == dir_listing(v, meta, orig.cache@, &orig.super_block, 0, 0),
                total == prepend_entries(
                    entries_view(list@),
                    dir_listing(v, meta, orig.cache@, &orig.super_block, file_offset as int, 0),
                ),
            decreases meta.size + 1024 - file_offset,
        {
            let ghost outer_start = file_offset;
            while block_offset < 1024 && file_offset < file_size
                invariant
                    cache.wf(),
                    cache@ == v,
                    v == old(cache)@,
                    cursor.inode == meta,
                    meta == self.ext2_inode,
                    orig == *old(icache),
                    file_size == meta.size,
                    file_walkable(v, meta),
                    mode_is_directory(meta.mode),
                    cache_grown(orig, *icache, v),
                    entries_resolve(&orig, v, list@),
                    block_offset <= 1024,
                    file_offset == outer_start + block_offset,
                    outer_start % 1024 == 0,
                    outer_start < meta.size,
                    file_offset < meta.size + 1024,
                    block_offset == 0 ==> data_block(v, meta, (file_offset / 1024) as u32) != 0,
                    block_offset > 0 ==> cursor.at_block((outer_start / 1024) as u32) && cursor.offsets_bounded(),
                    listing_on_disk(v, meta, &orig, file_offset as int, if block_offset == 1024 { 0 } else { block_offset as int }),
                    total == dir_listing(v, meta, orig.cache@, &orig.super_block, 0, 0),
                    total == prepend_entries(
                        entries_view(list@),
                        dir_listing(
                            v,
                            meta,
                            orig.cache@,
                            &orig.super_block,
                            file_offset as int,
                            if block_offset == 1024 { 0 } else { block_offset as int },
                        ),
                    ),
                decreases meta.size + 1024 - file_offset,
            {
                match list_step(&mut cursor, icache, cache, file_offset, block_offset, &mut list, Ghost(orig)) {
                    Err(e) => {
                        return Err(e);
                    },
                    Ok(rec_len) => {
                        file_offset += rec_len;
                        block_offset += rec_len;
                    },
                }
            }
            proof {
                assert(outer_start / 1024 < u32::MAX);
            }
            cursor.next_block();
            proof {
                cache.lemma_sector_count();
                assert(outer_start / 1024 + 1 <= meta.size / 1024 + 1);
                assert(block_ok(v, meta, outer_start / 1024 + 1));
                if block_offset == 1024 {
                    assert(file_offset / 1024 == outer_start / 1024 + 1);
                }
            }
            active_block = cursor.get_current_block(cache);
            if block_offset < 1024 {
                assert(file_offset >= meta.size);
                proof {
                    lemma_dir_listing_stops(v, meta, orig.cache@, &orig.super_block, file_offset as int, block_offset as int);
                    lemma_dir_listing_stops(v, meta, orig.cache@, &orig.super_block, file_offset as int, 0);
                    reveal_with_fuel(listing_on_disk, 1);
                }
            }
            block_offset = 0;
        }
        proof {
            lemma_dir_listing_stops(v, meta, orig.cache@, &orig.super_block, file_offset as int, 0);
            assert(entries_view(list@) + Seq::<(Seq<u8>, u32)>::empty() =~= entries_view(list@));
        }
        Ok(list)
    }
}

} // verus!

verus! {

/// Growing the cache with inodes loaded from `v` changes nothing in a listing, and keeps what
/// it needs on disk.
pub proof fn lemma_dir_listing_grown(
    v: Seq<u8>,
    meta: Ext2Meta,
    orig: &Ext2InodeCache,
    now: &Ext2InodeCache,
    off: int,
    boff: int,
)
    requires
        cache_grown(*orig, *now, v),
    ensures
        dir_listing(v, meta, now.cache@, &now.super_block, off, boff) == dir_listing(
            v,
            meta,
            orig.cache@,
            &orig.super_block,
            off,
            boff,
        ),
        listing_on_disk(v, meta, orig, off, boff) ==> listing_on_disk(v, meta, now, off, boff),
    decreases (if off < meta.size {
        meta.size - off
    } else {
        0
    }),
{
    reveal_with_fuel(dir_listing, 1);
    reveal_with_fuel(listing_on_disk, 1);
    if !listing_stops(v, meta, off, boff) && off + 8 <= meta.size && !dentry_bad(v, meta, off, boff) {
        lemma_dir_listing_grown(v, meta, orig, now, off + dentry_rec_len_at(v, meta, off), next_boff(v, meta, off, boff));
        let ino = dentry_inode_at(v, meta, off) as u32;
        if cached_number(orig.cache@, ino) {
            let j = choose|j: int| 0 <= j < orig.cache@.len() && #[trigger] orig.cache@[j].number == ino;
            assert(now.cache@.subrange(0, orig.cache@.len() as int)[j] == orig.cache@[j]);
            assert(now.cache@[j].number == ino);
        }
        if cached_number(now.cache@, ino) && !cached_number(orig.cache@, ino) {
            let j = choose|j: int| 0 <= j < now.cache@.len() && #[trigger] now.cache@[j].number == ino;
            if j < orig.cache@.len() {
                assert(now.cache@.subrange(0, orig.cache@.len() as int)[j] == orig.cache@[j]);
            }
        }
    }
}

} // verus!

verus! {

use crate::subsystem::fs::ext2::cursor::{Ext2InodeWriteCursor, byte_readable, file_byte, write_ok};

impl Ext2InodeWrapper {
    /// Reads file bytes from `offset` on into `buffer`, up to the end of the file; holes read
    /// as zero. Returns how many bytes were read.
    pub fn read<D: BlockDriver>(&self, disk: &mut BlockCache<D>, offset: u64, buffer: &mut Vec<u8>) -> (r: Result<usize, FsError>)
        requires
            old(disk).wf(),
            offset < 0x1_0000_0000,
            forall|p: int| offset <= p < offset + old(buffer)@.len() && p < self.ext2_inode.size
                ==> #[trigger] byte_readable(old(disk)@, self.ext2_inode, p),
            old(disk).sectors@.len() + 16 * old(buffer)@.len() < usize::MAX,
        ensures
            final(disk).wf(),
            final(disk)@ == old(disk)@,
            r == Ok::<usize, FsError>(vstd::math::min(old(buffer)@.len() as int, vstd::math::max(self.ext2_inode.size - offset, 0)) as usize),
            final(buffer)@.len() == old(buffer)@.len(),
            forall|i: int| 0 <= i < old(buffer)@.len() ==> #[trigger] final(buffer)@[i] == if i < r->Ok_0 {
                file_byte(old(disk)@, self.ext2_inode, offset + i)
            } else {
                old(buffer)@[i]
            },
    {
        let mut cursor = Ext2InodeCursor::new(self.ext2_inode);
        cursor.read(disk, offset, buffer)
    }

    /// Writes `buffer` into the file from `offset` on, reserving the blocks it needs; the
    /// inode's size grows to cover what was written. Returns how many bytes were written.
    pub fn write<D: BlockDriver>(&mut self, icache: &Ext2InodeCache, disk: &mut BlockCache<D>, offset: u64, buffer: &[u8]) -> (r:
        Result<usize, FsError>)
        requires
            old(disk).wf(),
            write_ok(icache, old(self).number, old(disk)@.len() as int),
            offset + buffer@.len() <= u32::MAX,
        ensures
            final(disk).wf(),
            final(disk)@.len() == old(disk)@.len(),
            r is Ok,
            r->Ok_0 <= buffer@.len(),
            final(self).number == old(self).number,
            final(self).ext2_inode.mode == old(self).ext2_inode.mode,
            final(self).ext2_inode.size == if offset + r->Ok_0 > old(self).ext2_inode.size {
                offset + r->Ok_0
            } else {
                old(self).ext2_inode.size as int
            },
            offset + r->Ok_0 > old(self).ext2_inode.size ==> crate::bytes::le_u32(
                final(disk)@,
                crate::subsystem::fs::ext2::cache::inode_record_offset(&icache.super_block, old(self).number) + 4,
            ) == offset + r->Ok_0,
            buffer@.len() > 0 && crate::subsystem::fs::ext2::cursor::mapped_write(
                old(disk)@,
                old(self).ext2_inode,
                offset as int,
                buffer@.len() as int,
                crate::subsystem::fs::ext2::cache::inode_record_offset(&icache.super_block, old(self).number),
            ) ==> r == Ok::<usize, FsError>(buffer@.len() as usize) && crate::subsystem::fs::ext2::cursor::file_bytes(
                final(disk)@,
                final(self).ext2_inode,
                offset as int,
                buffer@.len() as int,
            ) == buffer@,
            buffer@.len() > 0 && crate::subsystem::fs::ext2::cursor::mapped_write(
                old(disk)@,
                old(self).ext2_inode,
                offset as int,
                buffer@.len() as int,
                crate::subsystem::fs::ext2::cache::inode_record_offset(&icache.super_block, old(self).number),
            ) ==> forall|p: int|
                #[trigger] crate::subsystem::fs::ext2::cursor::untouched(
                    old(disk)@,
                    old(self).ext2_inode,
                    offset as int,
                    buffer@.len() as int,
                    crate::subsystem::fs::ext2::cache::inode_record_offset(&icache.super_block, old(self).number),
                    p,
                ) ==> crate::subsystem::fs::ext2::cursor::file_byte(final(disk)@, final(self).ext2_inode, p)
                    == crate::subsystem::fs::ext2::cursor::file_byte(old(disk)@, old(self).ext2_inode, p),
            crate::subsystem::fs::ext2::cursor::growable(
                old(disk)@,
                old(self).ext2_inode,
                icache,
                offset as int,
                buffer@.len() as int,
                crate::subsystem::fs::ext2::cache::inode_record_offset(&icache.super_block, old(self).number),
            ) ==> {
                &&& crate::subsystem::fs::ext2::cursor::file_bytes(
                    final(disk)@,
                    final(self).ext2_inode,
                    offset as int,
                    r->Ok_0 as int,
                ) == buffer@.subrange(0, r->Ok_0 as int)
                &&& r->Ok_0 < buffer@.len() ==> crate::subsystem::fs::ext2::cursor::blocks_full(final(disk)@, icache)
            },
    {
        let mut write_cursor = Ext2InodeWriteCursor::new(self.number, self.ext2_inode);
        let written = write_cursor.write(icache, disk, offset, buffer);
        self.ext2_inode = write_cursor.inner.inode;
        Ok(written)
    }
}

} // verus!

verus! {

use crate::subsystem::fs::ext2::cache::{group_full, lemma_reserved_bit_bound, lemma_reserved_bit_not_full, walked_groups};
use crate::subsystem::fs::ext2::cursor::{
    append_walk_ends, entry_append_writes, mapped_write, untouched, walk_to_last_dentry, writes_low, writes_span,
};
use crate::subsystem::fs::ext2::cache::{first_in_scan, spliced};
use crate::subsystem::fs::ext2::raw::inode_bytes;

/// Whether `i` is the record of a newly created file: a regular file with every access right,
/// one link, two sectors counted, no data block and every other field zero.
pub open spec fn fresh_file_record(i: Ext2Inode) -> bool {
    &&& i.mode == 0x81ff
    &&& i.uid == 0 && i.size == 0 && i.atime == 0 && i.ctime == 0 && i.mtime == 0 && i.dtime == 0
    &&& i.gid == 0 && i.links_count == 1 && i.blocks == 2 && i.flags == 0 && i.osd1 == 0
    &&& forall|k: int| 0 <= k < 15 ==> #[trigger] i.block[k] == 0u32
    &&& i.generation == 0 && i.file_acl == 0 && i.dir_acl == 0 && i.faddr == 0
    &&& forall|k: int| 0 <= k < 12 ==> #[trigger] i.osd2[k] == 0u8
}

/// What `create_file` leaves on the disk `after`, starting from `before`, for the directory
/// `dir` whose record is at `rec`: the first clear bit of the inode bitmaps in scan order, that
/// of some inode `n`, is set (giving `mid`); the record of `n` is written as a fresh file; and
/// where the directory's range for the new entry is mapped, the entry's writes, worked out by a
/// walk of `before`, read back from `after`, every other byte of the directory outside the
/// blocks of that range keeping its value.
pub open spec fn created_file(
    before: Seq<u8>,
    after: Seq<u8>,
    after_dir: Ext2Meta,
    ic: &Ext2InodeCache,
    dir: Ext2Meta,
    rec: int,
    name: Seq<u8>,
) -> bool {
    exists|n: u32, mid: Seq<u8>, i: Ext2Inode|
        #![trigger first_in_scan(before, mid, &ic.super_block, ic.super_block.inode_bitmap_offset_spec(), ic.super_block.inode_bitmap_blocks_spec(), n as int, 1, 0), fresh_file_record(i)]
        n != 0 && first_in_scan(
            before,
            mid,
            &ic.super_block,
            ic.super_block.inode_bitmap_offset_spec(),
            ic.super_block.inode_bitmap_blocks_spec(),
            n as int,
            1,
            0,
        ) && fresh_file_record(i) && {
            let d = spliced(mid, inode_record_offset(&ic.super_block, n), inode_bytes(i));
            let ws = entry_append_writes(before, dir, n, name);
            let lo = writes_low(ws);
            let span = writes_span(ws);
            name.len() > 0 && mapped_write(d, dir, lo, span, rec) ==> {
                &&& forall|k: int| 0 <= k < ws.len() ==> #[trigger] file_bytes(after, after_dir, ws[k].0, ws[k].1.len() as int)
                    == ws[k].1
                &&& forall|p: int|
                    #[trigger] untouched(d, dir, lo, span, rec, p) && !(lo / 1024 <= p / 1024 <= (lo + span - 1) / 1024)
                        ==> file_byte(after, after_dir, p) == file_byte(d, dir, p)
            }
        }
}

/// Whether every inode the allocator can hand out has its record and bitmap bit on a disk of
/// `len` bytes, in a walked group.
pub open spec fn inodes_fit(ic: &Ext2InodeCache, len: int) -> bool {
    forall|n: u32|
        1 <= n <= walked_groups(&ic.super_block) * ic.super_block.block_size_spec() * 8 ==> #[trigger] ic.inode_on_disk(
            n,
            len,
        ) && crate::subsystem::fs::ext2::cache::inode_group(&ic.super_block, n) < walked_groups(&ic.super_block)
}

impl Ext2InodeWrapper {
    /// Creates an empty regular file named `name` in this directory: reserves an inode, writes
    /// its record and appends an entry for it. The directory is walked to its last entry before
    /// the inode is reserved. Fails with `NoSpace` when every inode bitmap is full.
    pub fn create_file<D: BlockDriver>(&mut self, icache: &Ext2InodeCache, disk: &mut BlockCache<D>, name: &[u8]) -> (r: Result<
        (),
        FsError,
    >)
        requires
            old(disk).wf(),
            write_ok(icache, old(self).number, old(disk)@.len() as int),
            inodes_fit(icache, old(disk)@.len() as int),
            file_walkable(old(disk)@, old(self).ext2_inode),
            append_walk_ends(old(disk)@, old(self).ext2_inode, 0, 0, 0, Seq::new(8, |_i: int| 0u8)),
            old(self).ext2_inode.size + 0x3_0000 + name@.len() <= u32::MAX,
        ensures
            final(disk).wf(),
            final(disk)@.len() == old(disk)@.len(),
            final(self).number == old(self).number,
            final(self).ext2_inode.mode == old(self).ext2_inode.mode,
            r is Err <==> forall|g: int| 0 <= g < walked_groups(&icache.super_block) ==> #[trigger] group_full(
                old(disk)@,
                &icache.super_block,
                g,
                icache.super_block.inode_bitmap_offset_spec(),
                icache.super_block.inode_bitmap_blocks_spec(),
            ),
            r is Err ==> r == Err::<(), FsError>(FsError::NoSpace) && final(disk)@ == old(disk)@,
            r is Ok ==> created_file(
                old(disk)@,
                final(disk)@,
                final(self).ext2_inode,
                icache,
                old(self).ext2_inode,
                inode_record_offset(&icache.super_block, old(self).number),
                name@,
            ),
    {
        let mut write_cursor = Ext2InodeWriteCursor::new(self.number, self.ext2_inode);
        let mut dentry_header = crate::bytes::zeroed_bytes(8);
        let (offset, latest, visited) = walk_to_last_dentry(self.ext2_inode, disk, &mut dentry_header);
        let ghost before = disk@;
        let new_inode_number = icache.allocate_inode_number(disk);
        if new_inode_number == 0 {
            return Err(FsError::NoSpace);
        }
        proof {
            lemma_reserved_bit_bound(
                before,
                disk@,
                &icache.super_block,
                icache.super_block.inode_bitmap_offset_spec(),
                icache.super_block.inode_bitmap_blocks_spec(),
                new_inode_number as int,
                1,
            );
            assert(icache.inode_on_disk(new_inode_number, before.len() as int));
            lemma_reserved_bit_not_full(
                before,
                disk@,
                &icache.super_block,
                icache.super_block.inode_bitmap_offset_spec(),
                icache.super_block.inode_bitmap_blocks_spec(),
                new_inode_number as int,
                1,
            );
        }
        let inode = Ext2Inode {
            mode: (0x8 << 12) | 0o777,
            uid: 0,
            size: 0,
            atime: 0,
            ctime: 0,
            mtime: 0,
            dtime: 0,
            gid: 0,
            links_count: 1,
            blocks: 2,
            flags: 0,
            osd1: 0,
            block: [0; 15],
            generation: 0,
            file_acl: 0,
            dir_acl: 0,
            faddr: 0,
            osd2: [0; 12],
        };
        let ghost mid = disk@;
        icache.write_node(disk, new_inode_number, &inode);
        write_cursor.append_after_walk(icache, disk, new_inode_number, name, offset, latest, visited, &dentry_header);
        self.ext2_inode = write_cursor.inner.inode;
        proof {
            assert((0x8u16 << 12u16) | 0o777u16 == 0x81ffu16) by (bit_vector);
            assert(forall|k: int| 0 <= k < 15 ==> #[trigger] inode.block[k] == 0u32);
            assert(forall|k: int| 0 <= k < 12 ==> #[trigger] inode.osd2[k] == 0u8);
            assert(fresh_file_record(inode));
            assert(created_file(
                before,
                disk@,
                self.ext2_inode,
                icache,
                old(self).ext2_inode,
                inode_record_offset(&icache.super_block, old(self).number),
                name@,
            ));
        }
        Ok(())
    }
}

} // verus!
