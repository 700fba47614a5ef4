use vstd::prelude::*;
use crate::bytes::{le_u16, le_u32, zeroed_bytes};
use crate::subsystem::fs::ext2::raw::{LinkedDirectoryEntryHeader, dentry_header_bytes, mode_is_directory};
use crate::utils::string::bytes_equal;
use crate::subsystem::block::{BlockCache, BlockDriver};
use crate::subsystem::fs::ext2::inode::Ext2Meta;
use crate::subsystem::fs::inode::FsError;

verus! {

/// Block size that the cursor assumes.
pub const EXT2_BLOCK_SIZE: usize = 1024;

/// Block numbers held by one indirect block.
pub const POINTERS_PER_BLOCK: u32 = 256;

/// Where the block number of a file block is found: the slot in the inode, and the slots in the
/// indirect blocks below it.
pub struct BlockLocation {
    pub top: u32,
    pub l1: u32,
    pub l2: (u32, u32),
    pub l3: (u32, u32, u32),
}

/// Where the block number of file block `block` is found.
pub open spec fn locate(block: u32) -> BlockLocation {
    let p = POINTERS_PER_BLOCK as int;
    if block < 12 {
        BlockLocation { top: block, l1: 0, l2: (0, 0), l3: (0, 0, 0) }
    } else if block - 12 < p {
        BlockLocation { top: 12, l1: (block - 12) as u32, l2: (0, 0), l3: (0, 0, 0) }
    } else if block - 12 < (p + 1) * p {
        let i = block - p - 12;
        BlockLocation { top: 13, l1: 0, l2: ((i / p) as u32, (i % p) as u32), l3: (0, 0, 0) }
    } else {
        let i = block - (p + 1) * p - 12;
        BlockLocation {
            top: 14,
            l1: 0,
            l2: (0, 0),
            l3: ((i / (p * p)) as u32, ((i % (p * p)) / p) as u32, (i % p) as u32),
        }
    }
}

/// Block number held in slot `idx` of block `blk` of the disk image `v`.
pub open spec fn ptr_at(v: Seq<u8>, blk: u32, idx: u32) -> u32 {
    le_u32(v, blk * 1024 + idx * 4) as u32
}

/// Whether slot `idx` of block `blk` lies within `v`.
pub open spec fn ptr_ok(v: Seq<u8>, blk: u32, idx: u32) -> bool {
    blk * 1024 + idx * 4 + 4 <= v.len()
}

/// The data block that a location points to, through the inode's slots and the indirect blocks.
pub open spec fn lookup(v: Seq<u8>, meta: Ext2Meta, loc: BlockLocation) -> u32 {
    let top = meta.block[loc.top as int];
    if loc.top < 12 {
        top
    } else if loc.top == 12 {
        ptr_at(v, top, loc.l1)
    } else if loc.top == 13 {
        ptr_at(v, ptr_at(v, top, loc.l2.0), loc.l2.1)
    } else {
        ptr_at(v, ptr_at(v, ptr_at(v, top, loc.l3.0), loc.l3.1), loc.l3.2)
    }
}

/// Whether every indirect slot that `lookup` reads lies within `v`.
pub open spec fn lookup_ok(v: Seq<u8>, meta: Ext2Meta, loc: BlockLocation) -> bool {
    let top = meta.block[loc.top as int];
    &&& loc.top < 15
    &&& loc.top == 12 ==> ptr_ok(v, top, loc.l1)
    &&& loc.top == 13 ==> ptr_ok(v, top, loc.l2.0) && ptr_ok(v, ptr_at(v, top, loc.l2.0), loc.l2.1)
    &&& loc.top == 14 ==> ptr_ok(v, top, loc.l3.0) && ptr_ok(v, ptr_at(v, top, loc.l3.0), loc.l3.1)
        && ptr_ok(v, ptr_at(v, ptr_at(v, top, loc.l3.0), loc.l3.1), loc.l3.2)
}

/// The data block holding file block `n`; 0 for a hole.
pub open spec fn data_block(v: Seq<u8>, meta: Ext2Meta, n: u32) -> u32 {
    lookup(v, meta, locate(n))
}

/// Whether byte `p` of the file can be read from `v`.
pub open spec fn byte_readable(v: Seq<u8>, meta: Ext2Meta, p: int) -> bool {
    &&& 0 <= p < 0x4_0000_0000
    &&& lookup_ok(v, meta, locate((p / 1024) as u32))
    &&& data_block(v, meta, (p / 1024) as u32) != 0 ==> data_block(v, meta, (p / 1024) as u32) * 1024 + 1024 <= v.len()
}

/// Byte `p` of the file: zero within a hole.
pub open spec fn file_byte(v: Seq<u8>, meta: Ext2Meta, p: int) -> u8 {
    let b = data_block(v, meta, (p / 1024) as u32);
    if b == 0 {
        0
    } else {
        v[b * 1024 + p % 1024]
    }
}

/// The `len` bytes of the file from `off` on.
pub open spec fn file_bytes(v: Seq<u8>, meta: Ext2Meta, off: int, len: int) -> Seq<u8> {
    Seq::new(len as nat, |i: int| file_byte(v, meta, off + i))
}

/// Whether file block `n`, and the indirect slots that lead to its data block, lie within `v`.
pub open spec fn block_ok(v: Seq<u8>, meta: Ext2Meta, n: int) -> bool {
    &&& 0 <= n <= u32::MAX
    &&& lookup_ok(v, meta, locate(n as u32))
    &&& data_block(v, meta, n as u32) != 0 ==> data_block(v, meta, n as u32) * 1024 + 1024 <= v.len()
}

/// Whether every block of the file, and the one after its last, can be looked up in `v`.
pub open spec fn file_walkable(v: Seq<u8>, meta: Ext2Meta) -> bool {
    forall|n: int| 0 <= n <= meta.size / 1024 + 1 ==> #[trigger] block_ok(v, meta, n)
}

/// Inode number in the directory entry header at file offset `off`.
pub open spec fn dentry_inode_at(v: Seq<u8>, meta: Ext2Meta, off: int) -> int {
    le_u32(file_bytes(v, meta, off, 8), 0)
}

/// Record length in the directory entry header at file offset `off`.
pub open spec fn dentry_rec_len_at(v: Seq<u8>, meta: Ext2Meta, off: int) -> int {
    le_u16(file_bytes(v, meta, off, 8), 4)
}

/// Name length in the directory entry header at file offset `off`.
pub open spec fn dentry_name_len_at(v: Seq<u8>, meta: Ext2Meta, off: int) -> int {
    file_byte(v, meta, off + 6) as int
}

/// Whether the directory entry header at file offset `off`, `boff` bytes into its block,
/// breaks the format: a record too short, unaligned, running past the block, or too short for
/// its name.
pub open spec fn dentry_bad(v: Seq<u8>, meta: Ext2Meta, off: int, boff: int) -> bool {
    let rec_len = dentry_rec_len_at(v, meta, off);
    rec_len <= 8 || rec_len % 4 != 0 || boff + rec_len > 1024 || dentry_name_len_at(v, meta, off) > rec_len - 8
}

/// The search result for an entry found at `off` after an entry of record length `latest`.
pub open spec fn dentry_found(v: Seq<u8>, meta: Ext2Meta, off: int, latest: int) -> DentrySearchOutput {
    DentrySearchOutput {
        dentry_offset: off as u64,
        dentry_inode: dentry_inode_at(v, meta, off) as u32,
        previous_dentry_offset: if latest == 0 {
            None
        } else {
            Some((off - latest) as u64)
        },
    }
}

/// Where the next entry after the one at `off`, `boff` bytes into its block, lies in its block.
pub open spec fn next_boff(v: Seq<u8>, meta: Ext2Meta, off: int, boff: int) -> int {
    if boff + dentry_rec_len_at(v, meta, off) == 1024 {
        0
    } else {
        boff + dentry_rec_len_at(v, meta, off)
    }
}

/// What a search of a directory for the entry named `name` gives from the entry at file offset
/// `off` on, `boff` bytes into its block, after an entry of record length `latest` (0 if none).
/// At the start of each block after the first, a block that is a hole ends the search.
#[verifier::opaque]
pub open spec fn dentry_search(v: Seq<u8>, meta: Ext2Meta, name: Seq<u8>, off: int, boff: int, latest: int) -> Result<
    DentrySearchOutput,
    FsError,
>
    decreases (if off < meta.size {
        meta.size - off
    } else {
        0
    }),
{
    if off < 0 || off >= meta.size {
        Err(FsError::NoExist)
    } else if boff == 0 && off > 0 && data_block(v, meta, (off / 1024) as u32) == 0 {
        Err(FsError::NoExist)
    } else if off + 8 > meta.size {
        Err(FsError::EndOfFile)
    } else if dentry_bad(v, meta, off, boff) {
        Err(FsError::BadMeta)
    } else if dentry_inode_at(v, meta, off) != 0 && off + 8 + dentry_name_len_at(v, meta, off) > meta.size {
        Err(FsError::EndOfFile)
    } else if dentry_inode_at(v, meta, off) != 0 && file_bytes(v, meta, off + 8, dentry_name_len_at(v, meta, off))
        == name {
        Ok(dentry_found(v, meta, off, latest))
    } else {
        dentry_search(
            v,
            meta,
            name,
            off + dentry_rec_len_at(v, meta, off),
            next_boff(v, meta, off, boff),
            dentry_rec_len_at(v, meta, off),
        )
    }
}

/// One step of the search: what it gives at an entry that lies before the end of the file, where
/// no hole ends it.
pub proof fn lemma_dentry_search_step(v: Seq<u8>, meta: Ext2Meta, name: Seq<u8>, off: int, boff: int, latest: int)
    requires
        0 <= off < meta.size,
        !(boff == 0 && off > 0 && data_block(v, meta, (off / 1024) as u32) == 0),
    ensures
        dentry_search(v, meta, name, off, boff, latest) == (if off + 8 > meta.size {
            Err(FsError::EndOfFile)
        } else if dentry_bad(v, meta, off, boff) {
            Err(FsError::BadMeta)
        } else if dentry_inode_at(v, meta, off) != 0 && off + 8 + dentry_name_len_at(v, meta, off) > meta.size {
            Err(FsError::EndOfFile)
        } else if dentry_inode_at(v, meta, off) != 0 && file_bytes(v, meta, off + 8, dentry_name_len_at(v, meta, off))
            == name {
            Ok(dentry_found(v, meta, off, latest))
        } else {
            dentry_search(
                v,
                meta,
                name,
                off + dentry_rec_len_at(v, meta, off),
                next_boff(v, meta, off, boff),
                dentry_rec_len_at(v, meta, off),
            )
        }),
{
    reveal_with_fuel(dentry_search, 1);
}

/// The search ends without a find at the end of the file, and at a block that is a hole.
pub proof fn lemma_dentry_search_stops(v: Seq<u8>, meta: Ext2Meta, name: Seq<u8>, off: int, boff: int, latest: int)
    requires
        off >= meta.size || (boff == 0 && off > 0 && data_block(v, meta, (off / 1024) as u32) == 0),
    ensures
        dentry_search(v, meta, name, off, boff, latest) == Err::<DentrySearchOutput, FsError>(FsError::NoExist),
{
    reveal_with_fuel(dentry_search, 1);
}

/// Bytes that a read of an 8-byte header at `off` fills: the rest of the buffer keeps what it
/// held.
pub open spec fn header_fill(meta: Ext2Meta, off: int) -> int {
    if meta.size - off < 8 {
        meta.size - off
    } else {
        8
    }
}

/// The header buffer after a read at `off` into a buffer holding `hdr`.
pub open spec fn header_after_read(v: Seq<u8>, meta: Ext2Meta, off: int, hdr: Seq<u8>) -> Seq<u8> {
    file_bytes(v, meta, off, header_fill(meta, off)) + hdr.subrange(header_fill(meta, off), 8)
}

/// The walk that appending a directory entry makes to find the last entry: entry by entry
/// within a block, block by block while the block the cursor reaches is not a hole, until the
/// end of the file. State: file offset `off`, bytes `local` into the block, the cursor's block
/// `cur`, the record length of the last entry read, the header buffer, and whether an entry was
/// read. Gives the final offset, last record length, header buffer and whether one was read.
pub open spec fn append_walk(
    v: Seq<u8>,
    meta: Ext2Meta,
    off: int,
    local: int,
    cur: int,
    latest: int,
    hdr: Seq<u8>,
    visited: bool,
) -> (int, int, Seq<u8>, bool)
    decreases (if off < meta.size {
        meta.size - off
    } else {
        0
    }), (if local == 0 {
        0int
    } else {
        1int
    }),
{
    if local == 0 && (data_block(v, meta, cur as u32) == 0 || off >= meta.size) {
        (off, latest, hdr, visited)
    } else if local >= 1024 || off >= meta.size || local < 0 || off < 0 {
        if local == 0 {
            (off, latest, hdr, visited)
        } else {
            append_walk(v, meta, off, 0, cur + 1, latest, hdr, visited)
        }
    } else {
        let h = header_after_read(v, meta, off, hdr);
        let rl = le_u16(h, 4);
        if rl <= 0 {
            (off, latest, hdr, visited)
        } else {
            append_walk(v, meta, off + rl, local + rl, (off + header_fill(meta, off) - 1) / 1024, rl, h, true)
        }
    }
}

/// Whether the walk of `append_walk` ends: no record length it reads is 0.
pub open spec fn append_walk_ends(v: Seq<u8>, meta: Ext2Meta, off: int, local: int, cur: int, hdr: Seq<u8>) -> bool
    decreases (if off < meta.size {
        meta.size - off
    } else {
        0
    }), (if local == 0 {
        0int
    } else {
        1int
    }),
{
    if local == 0 && (data_block(v, meta, cur as u32) == 0 || off >= meta.size) {
        true
    } else if local >= 1024 || off >= meta.size || local < 0 || off < 0 {
        if local == 0 {
            true
        } else {
            append_walk_ends(v, meta, off, 0, cur + 1, hdr)
        }
    } else {
        let h = header_after_read(v, meta, off, hdr);
        let rl = le_u16(h, 4);
        rl > 0 && append_walk_ends(v, meta, off + rl, local + rl, (off + header_fill(meta, off) - 1) / 1024, h)
    }
}

/// Cursor over the data blocks of an ext2 inode.
pub struct Ext2InodeCursor {
    pub inode: Ext2Meta,
    /// Which block we're reading right now.
    pub block: u32,
    /// Offset within the 15 block top level list.
    pub top_offset: u32,
    /// Offset within the singly indirect block.
    pub l1_offset: u32,
    /// Offsets within the doubly indirect blocks.
    pub l2_offsets: [u32; 2],
    /// Offsets within the triply indirect blocks.
    pub l3_offsets: [u32; 3],
}

/// Result of a search for a directory entry.
pub struct DentrySearchOutput {
    /// Offset within the directory file of the entry.
    pub dentry_offset: u64,
    /// Inode of the entry.
    pub dentry_inode: u32,
    /// Offset of the previous entry, if there is one.
    pub previous_dentry_offset: Option<u64>,
}

impl DentrySearchOutput {
    pub fn dentry_offset(&self) -> (r: u64)
        ensures
            r == self.dentry_offset,
    {
        self.dentry_offset
    }

    pub fn dentry_inode(&self) -> (r: u32)
        ensures
            r == self.dentry_inode,
    {
        self.dentry_inode
    }

    pub fn is_dentry_start_of_block(&self) -> (r: bool)
        ensures
            r == (self.dentry_offset % 1024 == 0),
    {
        self.dentry_offset % 1024 == 0
    }

    pub fn previous_dentry_offset(&self) -> (r: Option<u64>)
        ensures
            r == self.previous_dentry_offset,
    {
        self.previous_dentry_offset
    }
}

impl Ext2InodeCursor {
    /// The location the cursor points at.
    pub open spec fn location(&self) -> BlockLocation {
        BlockLocation {
            top: self.top_offset,
            l1: self.l1_offset,
            l2: (self.l2_offsets[0], self.l2_offsets[1]),
            l3: (self.l3_offsets[0], self.l3_offsets[1], self.l3_offsets[2]),
        }
    }

    /// The indirect slots the cursor uses are below 2^30.
    pub open spec fn offsets_bounded(&self) -> bool {
        &&& self.top_offset == 12 ==> self.l1_offset < 0x4000_0000
        &&& self.top_offset == 13 ==> self.l2_offsets[0] < 0x4000_0000 && self.l2_offsets[1] < 0x4000_0000
        &&& self.top_offset == 14 ==> self.l3_offsets[0] < 0x4000_0000 && self.l3_offsets[1] < 0x4000_0000
            && self.l3_offsets[2] < 0x4000_0000
    }

    /// Whether the cursor points at file block `block`.
    pub open spec fn at_block(&self, block: u32) -> bool {
        let loc = locate(block);
        &&& self.block == block
        &&& self.top_offset == loc.top
        &&& self.top_offset < 13 ==> self.l1_offset == loc.l1
        &&& self.top_offset == 13 ==> self.l2_offsets[0] == loc.l2.0 && self.l2_offsets[1] == loc.l2.1
        &&& self.top_offset == 14 ==> self.l3_offsets[0] == loc.l3.0 && self.l3_offsets[1] == loc.l3.1
            && self.l3_offsets[2] == loc.l3.2
    }

    pub fn new(inode: Ext2Meta) -> (r: Self)
        ensures
            r.inode == inode,
            r.at_block(0),
    {
        Self { inode, block: 0, top_offset: 0, l1_offset: 0, l2_offsets: [0; 2], l3_offsets: [0; 3] }
    }

    pub fn meta(&self) -> (r: &Ext2Meta)
        ensures
            *r == self.inode,
    {
        &self.inode
    }

    /// Moves the cursor to the start of file block `block`.
    pub fn jump_to(&mut self, block: u32)
        ensures
            final(self).at_block(block),
            final(self).offsets_bounded(),
            final(self).inode == old(self).inode,
    {
        let p = POINTERS_PER_BLOCK;
        self.block = block;
        if block < 12 {
            self.top_offset = block;
            self.l1_offset = 0;
            self.l2_offsets = [0; 2];
        } else if block - 12 < p {
            self.top_offset = 12;
            self.l1_offset = block - 12;
            self.l2_offsets = [0; 2];
        } else if block - 12 < (p + 1) * p {
            let l2_index = block - p - 12;
            self.top_offset = 13;
            self.l1_offset = 0;
            self.l2_offsets = [l2_index / p, l2_index % p];
        } else {
            let l3_index = block - (p + 1) * p - 12;
            self.top_offset = 14;
            self.l1_offset = 0;
            self.l3_offsets = [l3_index / (p * p), (l3_index % (p * p)) / p, l3_index % p];
        }
    }

    /// Moves the cursor to the start of the next file block.
    pub fn next_block(&mut self)
        requires
            old(self).block < u32::MAX,
        ensures
            final(self).at_block((old(self).block + 1) as u32),
            final(self).inode == old(self).inode,
    {
        self.jump_to(self.block + 1);
    }

    /// Reads the block number in slot `idx` of block `blk` through the cache.
    fn read_ptr<D: BlockDriver>(cache: &mut BlockCache<D>, blk: u32, idx: u32) -> (r: u32)
        requires
            old(cache).wf(),
            ptr_ok(old(cache)@, blk, idx),
            old(cache).sectors@.len() + 4 < usize::MAX,
            idx < 0x4000_0000,
        ensures
            final(cache).wf(),
            final(cache)@ == old(cache)@,
            final(cache).sectors@.len() <= old(cache).sectors@.len() + 4,
            r == ptr_at(old(cache)@, blk, idx),
    {
        let mut buf: Vec<u8> = vec![0u8, 0u8, 0u8, 0u8];
        let off = blk as usize * 1024 + idx as usize * 4;
        cache.read(off, &mut buf);
        crate::bytes::read_le_u32(buf.as_slice(), 0)
    }

    /// The data block the cursor points at; 0 for a hole.
    pub fn get_current_block<D: BlockDriver>(&self, cache: &mut BlockCache<D>) -> (r: u32)
        requires
            old(cache).wf(),
            lookup_ok(old(cache)@, self.inode, self.location()),
            self.offsets_bounded(),
            old(cache).sectors@.len() + 12 < usize::MAX,
        ensures
            final(cache).wf(),
            final(cache)@ == old(cache)@,
            final(cache).sectors@.len() <= old(cache).sectors@.len() + 12,
            r == lookup(old(cache)@, self.inode, self.location()),
    {
        let top_level_block = self.inode.block[self.top_offset as usize];
        if self.top_offset < 12 {
            top_level_block
        } else if self.top_offset == 12 {
            Self::read_ptr(cache, top_level_block, self.l1_offset)
        } else if self.top_offset == 13 {
            let bottom = Self::read_ptr(cache, top_level_block, self.l2_offsets[0]);
            Self::read_ptr(cache, bottom, self.l2_offsets[1])
        } else {
            let middle = Self::read_ptr(cache, top_level_block, self.l3_offsets[0]);
            let bottom = Self::read_ptr(cache, middle, self.l3_offsets[1]);
            Self::read_ptr(cache, bottom, self.l3_offsets[2])
        }
    }

    /// Reads file bytes from `offset` on into `buf`, up to the end of the file; holes read as
    /// zero. Returns how many bytes were read.
    pub fn read<D: BlockDriver>(&mut self, cache: &mut BlockCache<D>, offset: u64, buf: &mut Vec<u8>) -> (r: Result<usize, FsError>)
        requires
            old(cache).wf(),
            offset < 0x1_0000_0000,
            forall|p: int| offset <= p < offset + old(buf)@.len() && p < old(self).inode.size
                ==> #[trigger] byte_readable(old(cache)@, old(self).inode, p),
            old(cache).sectors@.len() + 16 * old(buf)@.len() < usize::MAX,
        ensures
            final(cache).wf(),
            final(cache)@ == old(cache)@,
            final(self).inode == old(self).inode,
            r == Ok::<usize, FsError>(vstd::math::min(old(buf)@.len() as int, vstd::math::max(old(self).inode.size - offset, 0)) as usize),
            final(buf)@.len() == old(buf)@.len(),
            forall|i: int| 0 <= i < old(buf)@.len() ==> #[trigger] final(buf)@[i] == if i < r->Ok_0 {
                file_byte(old(cache)@, old(self).inode, offset + i)
            } else {
                old(buf)@[i]
            },
            r->Ok_0 > 0 ==> final(self).at_block(((offset + r->Ok_0 - 1) / 1024) as u32) && final(self).offsets_bounded(),
            r->Ok_0 == 0 ==> *final(self) == *old(self),
    {
        let file_size = self.inode.size as u64;
        let maximum = if file_size > offset { (file_size - offset) as usize } else { 0 };
        let effective = if buf.len() < maximum { buf.len() } else { maximum };
        let ghost v = cache@;
        let ghost meta = self.inode;
        let mut have_read: usize = 0;
        while have_read < effective
            invariant
                cache.wf(),
                cache@ == v,
                self.inode == meta,
                meta == old(self).inode,
                v == old(cache)@,
                offset < 0x1_0000_0000,
                effective <= buf@.len(),
                effective == 0 || offset + effective <= meta.size,
                buf@.len() == old(buf)@.len(),
                have_read <= effective,
                forall|p: int| offset <= p < offset + old(buf)@.len() && p < meta.size
                    ==> #[trigger] byte_readable(v, meta, p),
                cache.sectors@.len() + 16 * (effective - have_read) <= old(cache).sectors@.len() + 16 * effective,
                old(cache).sectors@.len() + 16 * old(buf)@.len() < usize::MAX,
                forall|i: int| 0 <= i < buf@.len() ==> #[trigger] buf@[i] == if i < have_read {
                    file_byte(v, meta, offset + i)
                } else {
                    old(buf)@[i]
                },
                have_read > 0 ==> self.at_block(((offset + have_read - 1) / 1024) as u32) && self.offsets_bounded(),
                have_read == 0 ==> *self == *old(self),
            decreases effective - have_read,
        {
            let pos = offset + have_read as u64;
            let block_number = (pos / 1024) as u32;
            let block_offset = (pos % 1024) as usize;
            self.jump_to(block_number);
            proof {
                assert(byte_readable(v, meta, pos as int));
            }
            let block = self.get_current_block(cache);
            let room = 1024 - block_offset;
            let to_read = if effective - have_read < room { effective - have_read } else { room };
            proof {
                assert(block == data_block(v, meta, block_number));
            }
            if block == 0 {
                let mut i: usize = 0;
                while i < to_read
                    invariant
                        i <= to_read,
                        have_read + to_read <= effective,
                        effective <= buf@.len(),
                        buf@.len() == old(buf)@.len(),
                        block == 0,
                        block == data_block(v, meta, block_number),
                        block_number == pos / 1024,
                        pos == offset + have_read,
                        block_offset == pos % 1024,
                        block_offset + to_read <= 1024,
                        forall|j: int| 0 <= j < buf@.len() ==> #[trigger] buf@[j] == if j < have_read + i {
                            file_byte(v, meta, offset + j)
                        } else {
                            old(buf)@[j]
                        },
                    decreases to_read - i,
                {
                    proof {
                        let p = offset + have_read + i;
                        assert(p / 1024 == block_number) by (nonlinear_arith)
                            requires p == pos + i, i < to_read, block_offset + to_read <= 1024,
                                block_offset == pos % 1024, block_number == pos / 1024;
                    }
                    buf.set(have_read + i, 0);
                    i += 1;
                }
            } else {
                let mut part: Vec<u8> = Vec::new();
                let mut i: usize = 0;
                while i < to_read
                    invariant
                        i <= to_read,
                        part@.len() == i,
                    decreases to_read - i,
                {
                    part.push(0);
                    i += 1;
                }
                proof {
                    assert(block * 1024 + 1024 <= v.len());
                }
                let addr = block as usize * 1024 + block_offset;
                cache.read(addr, &mut part);
                let mut i: usize = 0;
                while i < to_read
                    invariant
                        i <= to_read,
                        addr + to_read <= v.len(),
                        part@ == v.subrange(addr as int, addr + to_read),
                        addr == block * 1024 + block_offset,
                        block != 0,
                        have_read + to_read <= effective,
                        effective <= buf@.len(),
                        buf@.len() == old(buf)@.len(),
                        block == data_block(v, meta, block_number),
                        block_number == pos / 1024,
                        pos == offset + have_read,
                        block_offset == pos % 1024,
                        block_offset + to_read <= 1024,
                        forall|j: int| 0 <= j < buf@.len() ==> #[trigger] buf@[j] == if j < have_read + i {
                            file_byte(v, meta, offset + j)
                        } else {
                            old(buf)@[j]
                        },
                    decreases to_read - i,
                {
                    proof {
                        let p = offset + have_read + i;
                        assert(p / 1024 == block_number && p % 1024 == block_offset + i) by (nonlinear_arith)
                            requires p == pos + i, i < to_read, block_offset + to_read <= 1024,
                                block_offset == pos % 1024, block_number == pos / 1024;
                    }
                    buf.set(have_read + i, part[i]);
                    i += 1;
                }
            }
            proof {
                assert((pos + to_read - 1) / 1024 == pos / 1024) by (nonlinear_arith)
                    requires to_read >= 1, block_offset + to_read <= 1024, block_offset == pos % 1024;
            }
            have_read += to_read;
        }
        Ok(have_read)
    }

    /// Reads exactly `buf.len()` file bytes from `offset` on, or fails with `EndOfFile`.
    pub fn read_exact<D: BlockDriver>(&mut self, cache: &mut BlockCache<D>, offset: u64, buf: &mut Vec<u8>) -> (r: Result<(), FsError>)
        requires
            old(cache).wf(),
            offset < 0x1_0000_0000,
            forall|p: int| offset <= p < offset + old(buf)@.len() && p < old(self).inode.size
                ==> #[trigger] byte_readable(old(cache)@, old(self).inode, p),
            old(cache).sectors@.len() + 16 * old(buf)@.len() < usize::MAX,
        ensures
            final(cache).wf(),
            final(cache)@ == old(cache)@,
            final(self).inode == old(self).inode,
            r is Ok <==> (old(buf)@.len() == 0 || offset + old(buf)@.len() <= old(self).inode.size),
            r is Ok ==> forall|i: int| 0 <= i < old(buf)@.len() ==> #[trigger] final(buf)@[i]
                == file_byte(old(cache)@, old(self).inode, offset + i),
            r is Err ==> r == Err::<(), FsError>(FsError::EndOfFile),
            final(buf)@.len() == old(buf)@.len(),
            r is Ok && old(buf)@.len() > 0 ==> final(self).at_block(((offset + old(buf)@.len() - 1) / 1024) as u32)
                && final(self).offsets_bounded(),
            old(buf)@.len() == 0 ==> *final(self) == *old(self),
    {
        let want = buf.len();
        match self.read(cache, offset, buf) {
            Ok(len) => {
                if len != want {
                    Err(FsError::EndOfFile)
                } else {
                    Ok(())
                }
            },
            Err(e) => Err(e),
        }
    }

    /// Reads the directory entry header at file offset `offset`.
    pub fn read_dentry_header<D: BlockDriver>(&mut self, cache: &mut BlockCache<D>, offset: u64) -> (r: Result<
        LinkedDirectoryEntryHeader,
        FsError,
    >)
        requires
            old(cache).wf(),
            offset < 0x1_0000_0000,
            file_walkable(old(cache)@, old(self).inode),
        ensures
            final(cache).wf(),
            final(cache)@ == old(cache)@,
            final(self).inode == old(self).inode,
            r is Ok <==> offset + 8 <= old(self).inode.size,
            r is Err ==> r == Err::<LinkedDirectoryEntryHeader, FsError>(FsError::EndOfFile),
            r matches Ok(h) ==> {
                let b = file_bytes(old(cache)@, old(self).inode, offset as int, 8);
                &&& h.inode == le_u32(b, 0)
                &&& h.rec_len == le_u16(b, 4)
                &&& h.name_len == b[6]
                &&& h.file_type == b[7]
                &&& final(self).at_block(((offset + 7) / 1024) as u32)
                &&& final(self).offsets_bounded()
            },
    {
        let ghost v = cache@;
        let ghost meta = self.inode;
        proof {
            cache.lemma_sector_count();
            assert forall|p: int| offset <= p < offset + 8 && p < meta.size implies #[trigger] byte_readable(v, meta, p) by {
                assert(p / 1024 <= meta.size / 1024);
                assert(block_ok(v, meta, p / 1024));
            }
        }
        let mut dentry_buffer = zeroed_bytes(8);
        match self.read_exact(cache, offset, &mut dentry_buffer) {
            Err(e) => {
                return Err(e);
            },
            Ok(()) => {},
        }
        assert(dentry_buffer@ =~= file_bytes(v, meta, offset as int, 8));
        Ok(LinkedDirectoryEntryHeader::parse(dentry_buffer.as_slice(), 0))
    }

    /// Reads the `len` name bytes of a directory entry at file offset `offset`.
    pub(crate) fn read_name<D: BlockDriver>(&mut self, cache: &mut BlockCache<D>, offset: u64, len: usize) -> (r: Result<
        Vec<u8>,
        FsError,
    >)
        requires
            old(cache).wf(),
            offset < 0x1_0000_0000,
            len <= 255,
            file_walkable(old(cache)@, old(self).inode),
        ensures
            final(cache).wf(),
            final(cache)@ == old(cache)@,
            final(self).inode == old(self).inode,
            r is Ok <==> len == 0 || offset + len <= old(self).inode.size,
            r is Err ==> r == Err::<Vec<u8>, FsError>(FsError::EndOfFile),
            r matches Ok(n) ==> n@ == file_bytes(old(cache)@, old(self).inode, offset as int, len as int),
            r is Ok && len > 0 ==> final(self).at_block(((offset + len - 1) / 1024) as u32) && final(self).offsets_bounded(),
            len == 0 ==> *final(self) == *old(self),
    {
        let ghost v = cache@;
        let ghost meta = self.inode;
        proof {
            cache.lemma_sector_count();
            assert forall|p: int| offset <= p < offset + len && p < meta.size implies #[trigger] byte_readable(v, meta, p) by {
                assert(p / 1024 <= meta.size / 1024);
                assert(block_ok(v, meta, p / 1024));
            }
        }
        let mut name_buffer = zeroed_bytes(len);
        match self.read_exact(cache, offset, &mut name_buffer) {
            Err(e) => {
                return Err(e);
            },
            Ok(()) => {},
        }
        assert(name_buffer@ =~= file_bytes(v, meta, offset as int, len as int));
        Ok(name_buffer)
    }

    /// Looks at the directory entry at file offset `offset`, `boff` bytes into its block: fails
    /// as the search would, gives the entry when it is the one named `name`, or else gives its
    /// record length, after which the search goes on with the next entry.
    fn examine_dentry<D: BlockDriver>(
        &mut self,
        cache: &mut BlockCache<D>,
        name: &[u8],
        offset: u64,
        boff: u64,
        latest: u64,
    ) -> (r: Result<Result<DentrySearchOutput, u64>, FsError>)
        requires
            old(cache).wf(),
            file_walkable(old(cache)@, old(self).inode),
            offset < old(self).inode.size,
            boff < 1024,
            offset % 1024 == boff,
            latest <= offset,
            boff == 0 && offset > 0 ==> data_block(old(cache)@, old(self).inode, (offset / 1024) as u32) != 0,
        ensures
            final(cache).wf(),
            final(cache)@ == old(cache)@,
            final(self).inode == old(self).inode,
            match r {
                Err(e) => dentry_search(old(cache)@, old(self).inode, name@, offset as int, boff as int, latest as int)
                    == Err::<DentrySearchOutput, FsError>(e),
                Ok(Ok(d)) => dentry_search(old(cache)@, old(self).inode, name@, offset as int, boff as int, latest as int)
                    == Ok::<DentrySearchOutput, FsError>(d),
                Ok(Err(rec_len)) => {
                    &&& rec_len == dentry_rec_len_at(old(cache)@, old(self).inode, offset as int)
                    &&& 8 < rec_len
                    &&& boff + rec_len <= 1024
                    &&& next_boff(old(cache)@, old(self).inode, offset as int, boff as int) == (if boff + rec_len == 1024 {
                        0
                    } else {
                        boff + rec_len
                    })
                    &&& dentry_search(old(cache)@, old(self).inode, name@, offset as int, boff as int, latest as int)
                        == dentry_search(
                        old(cache)@,
                        old(self).inode,
                        name@,
                        offset + rec_len,
                        next_boff(old(cache)@, old(self).inode, offset as int, boff as int),
                        rec_len as int,
                    )
                    &&& final(self).at_block((offset / 1024) as u32)
                    &&& final(self).offsets_bounded()
                },
            },
    {
        let ghost v = cache@;
        let ghost meta = self.inode;
        proof {
            lemma_dentry_search_step(v, meta, name@, offset as int, boff as int, latest as int);
        }
        let dentry_header = match self.read_dentry_header(cache, offset) {
            Err(e) => {
                return Err(e);
            },
            Ok(h) => h,
        };
        if dentry_header.rec_len <= 8 || dentry_header.rec_len % 4 != 0 || boff + dentry_header.rec_len as u64 > 1024
            || dentry_header.name_len as u16 > dentry_header.rec_len - 8 {
            return Err(FsError::BadMeta);
        }
        proof {
            assert((offset + 7) / 1024 == offset / 1024) by (nonlinear_arith)
                requires
                    offset % 1024 == boff,
                    boff + 8 < 1024;
        }
        if dentry_header.inode != 0 {
            let name_len = dentry_header.name_len as usize;
            let name_buffer = match self.read_name(cache, offset + 8, name_len) {
                Err(e) => {
                    return Err(e);
                },
                Ok(n) => n,
            };
            proof {
                if name_len > 0 {
                    assert((offset + 8 + name_len - 1) / 1024 == offset / 1024) by (nonlinear_arith)
                        requires
                            offset % 1024 == boff,
                            boff + 8 + name_len <= 1024;
                }
            }
            if bytes_equal(name_buffer.as_slice(), name) {
                if latest == 0 {
                    return Ok(
                        Ok(
                            DentrySearchOutput {
                                dentry_offset: offset,
                                dentry_inode: dentry_header.inode,
                                previous_dentry_offset: None,
                            },
                        ),
                    );
                } else {
                    return Ok(
                        Ok(
                            DentrySearchOutput {
                                dentry_offset: offset,
                                dentry_inode: dentry_header.inode,
                                previous_dentry_offset: Some(offset - latest),
                            },
                        ),
                    );
                }
            }
        }
        Ok(Err(dentry_header.rec_len as u64))
    }

    /// Searches the directory this cursor reads for the entry named `name`, entry by entry and
    /// block by block from the block the cursor points at, checking each header on the way.
    pub fn find_dentry_with_name<D: BlockDriver>(&mut self, cache: &mut BlockCache<D>, name: &[u8]) -> (r: Result<
        DentrySearchOutput,
        FsError,
    >)
        requires
            old(cache).wf(),
            file_walkable(old(cache)@, old(self).inode),
            lookup_ok(old(cache)@, old(self).inode, old(self).location()),
            old(self).offsets_bounded(),
        ensures
            final(cache).wf(),
            final(cache)@ == old(cache)@,
            final(self).inode == old(self).inode,
            r == if !mode_is_directory(old(self).inode.mode) {
                Err(FsError::Unsupported)
            } else if lookup(old(cache)@, old(self).inode, old(self).location()) == 0 {
                Err(FsError::NoExist)
            } else {
                dentry_search(old(cache)@, old(self).inode, name@, 0, 0, 0)
            },
    {
        if !self.inode.is_directory() {
            return Err(FsError::Unsupported);
        }
        let ghost v = cache@;
        let ghost meta = self.inode;
        let ghost total = dentry_search(v, meta, name@, 0, 0, 0);
        let file_size = self.inode.size as u64;
        let mut file_offset: u64 = 0;
        let mut block_offset: u64 = 0;
        let mut latest_rec_len: u64 = 0;
        proof {
            cache.lemma_sector_count();
        }
        let mut active_block = self.get_current_block(cache);
        while active_block != 0 && file_offset < file_size
            invariant
                cache.wf(),
                cache@ == v,
                v == old(cache)@,
                self.inode == meta,
                meta == old(self).inode,
                file_size == meta.size,
                file_walkable(v, meta),
                block_offset == 0,
                file_offset % 1024 == 0 || file_offset >= meta.size,
                file_offset < meta.size + 1024,
                latest_rec_len <= 1024,
                latest_rec_len <= file_offset,
                file_offset > 0 ==> lookup(v, meta, old(self).location()) != 0,
                mode_is_directory(meta.mode),
                total == dentry_search(v, meta, name@, 0, 0, 0),
                file_offset == 0 ==> active_block == lookup(v, meta, old(self).location()),
                0 < file_offset < meta.size ==> active_block == data_block(v, meta, (file_offset / 1024) as u32),
                total == dentry_search(v, meta, name@, file_offset as int, 0, latest_rec_len as int),
            decreases meta.size + 1024 - file_offset,
        {
            let ghost outer_start = file_offset;
            while block_offset < 1024 && file_offset < file_size
                invariant
                    cache.wf(),
                    cache@ == v,
                    v == old(cache)@,
                    self.inode == meta,
                    meta == old(self).inode,
                    file_size == meta.size,
                    file_walkable(v, meta),
                    block_offset <= 1024,
                    file_offset == outer_start + block_offset,
                    outer_start % 1024 == 0,
                    outer_start < meta.size,
                    file_offset < meta.size + 1024,
                    latest_rec_len <= 1024,
                    latest_rec_len <= file_offset,
                    lookup(v, meta, old(self).location()) != 0,
                    mode_is_directory(meta.mode),
                    total == dentry_search(v, meta, name@, 0, 0, 0),
                    block_offset == 0 && file_offset > 0 ==> data_block(v, meta, (file_offset / 1024) as u32) != 0,
                    block_offset > 0 ==> self.at_block((outer_start / 1024) as u32) && self.offsets_bounded(),
                    block_offset < 1024 ==> total == dentry_search(
                        v,
                        meta,
                        name@,
                        file_offset as int,
                        block_offset as int,
                        latest_rec_len as int,
                    ),
                    block_offset == 1024 ==> total == dentry_search(v, meta, name@, file_offset as int, 0, latest_rec_len as int),
                decreases meta.size + 1024 - file_offset,
            {
                match self.examine_dentry(cache, name, file_offset, block_offset, latest_rec_len) {
                    Err(e) => {
                        return Err(e);
                    },
                    Ok(Ok(d)) => {
                        return Ok(d);
                    },
                    Ok(Err(rec_len)) => {
                        latest_rec_len = rec_len;
                        file_offset += rec_len;
                        block_offset += rec_len;
                    },
                }
            }
            proof {
                assert(outer_start / 1024 < u32::MAX);
            }
            self.next_block();
            proof {
                cache.lemma_sector_count();
                assert(outer_start / 1024 + 1 <= meta.size / 1024 + 1);
                assert(block_ok(v, meta, outer_start / 1024 + 1));
                if block_offset == 1024 {
                    assert(file_offset / 1024 == outer_start / 1024 + 1);
                }
            }
            active_block = self.get_current_block(cache);
            if block_offset < 1024 {
                assert(file_offset >= meta.size);
                proof {
                    lemma_dentry_search_stops(v, meta, name@, file_offset as int, block_offset as int, latest_rec_len as int);
                    lemma_dentry_search_stops(v, meta, name@, file_offset as int, 0, latest_rec_len as int);
                }
            }
            block_offset = 0;
        }
        proof {
            if file_offset > 0 || file_offset >= meta.size {
                lemma_dentry_search_stops(v, meta, name@, file_offset as int, 0, latest_rec_len as int);
            }
        }
        Err(FsError::NoExist)
    }
}

} // verus!

verus! {

use crate::subsystem::fs::ext2::cache::{
    Ext2InodeCache, inode_group, inode_record_offset, lemma_reserved_bit_bound, spliced, walked_groups,
};
use crate::subsystem::fs::ext2::raw::{Ext2Inode, inode_bytes};
use crate::bytes::u32_le_bytes;

/// Whether block `b` lies on a disk of `len` bytes.
pub open spec fn block_on_disk(b: u32, len: int) -> bool {
    b * 1024 + 1024 <= len
}

/// Whether a write cursor on inode `n` can work with the cache `ic` on a disk of `len` bytes:
/// the layout is one the allocators work with, the inode's record lies on the disk, and so does
/// every block the allocators can hand out.
pub open spec fn write_ok(ic: &Ext2InodeCache, n: u32, len: int) -> bool {
    &&& ic.layout_ok(len)
    &&& ic.inode_on_disk(n, len)
    &&& inode_group(&ic.super_block, n) < walked_groups(&ic.super_block)
    &&& (walked_groups(&ic.super_block) * ic.super_block.block_size_spec() * 8 + ic.super_block.first_data_block)
        * 1024 + 1024 <= len
}

/// Inode record `i` with the block ids `block`.
pub open spec fn with_blocks(i: Ext2Inode, block: [u32; 15]) -> Ext2Inode {
    Ext2Inode { block, ..i }
}

/// Inode record `i` with size `size`.
pub open spec fn with_size(i: Ext2Inode, size: u32) -> Ext2Inode {
    Ext2Inode { size, ..i }
}

/// After writing the bytes of `x` over slot `idx` of block `blk`, the slot holds `x`.
pub proof fn lemma_ptr_written(before: Seq<u8>, after: Seq<u8>, blk: u32, idx: u32, x: u32)
    requires
        ptr_ok(before, blk, idx),
        after == before.subrange(0, blk * 1024 + idx * 4) + u32_le_bytes(x) + before.subrange(
            blk * 1024 + idx * 4 + 4,
            before.len() as int,
        ),
    ensures
        ptr_at(after, blk, idx) == x,
        after.len() == before.len(),
{
    crate::bytes::lemma_u32_le_bytes_roundtrip(x);
    let p = blk * 1024 + idx * 4;
    let b = u32_le_bytes(x);
    assert(after[p] == b[0] && after[p + 1] == b[1] && after[p + 2] == b[2] && after[p + 3] == b[3]);
}

/// Whether block `b` lies on the disk of `disk`.
fn check_block<D: BlockDriver>(disk: &BlockCache<D>, b: u32) -> (r: bool)
    requires
        disk.wf(),
    ensures
        r == block_on_disk(b, disk@.len() as int),
{
    let size = disk.size() as u64;
    (b as u64) * 1024 + 1024 <= size
}

/// The block number in slot `idx` of block `blk`, or `None` when the slot lies off the disk.
fn read_ptr_checked<D: BlockDriver>(disk: &mut BlockCache<D>, blk: u32, idx: u32) -> (r: Option<u32>)
    requires
        old(disk).wf(),
        idx < 0x4000_0000,
    ensures
        final(disk).wf(),
        final(disk)@ == old(disk)@,
        r == if ptr_ok(old(disk)@, blk, idx) {
            Some(ptr_at(old(disk)@, blk, idx))
        } else {
            None::<u32>
        },
{
    let size = disk.size() as u64;
    let at = (blk as u64) * 1024 + (idx as u64) * 4;
    if at + 4 > size {
        return None;
    }
    proof {
        disk.lemma_sector_count();
    }
    let mut buf: Vec<u8> = vec![0u8, 0u8, 0u8, 0u8];
    disk.read(at as usize, &mut buf);
    Some(crate::bytes::read_le_u32(buf.as_slice(), 0))
}

impl Ext2InodeCursor {
    /// The data block the cursor points at, or `None` when a slot on the way lies off the disk.
    pub fn current_block_checked<D: BlockDriver>(&self, disk: &mut BlockCache<D>) -> (r: Option<u32>)
        requires
            old(disk).wf(),
            self.offsets_bounded(),
            self.top_offset < 15,
        ensures
            final(disk).wf(),
            final(disk)@ == old(disk)@,
            r is Some <==> lookup_ok(old(disk)@, self.inode, self.location()),
            r matches Some(b) ==> b == lookup(old(disk)@, self.inode, self.location()),
    {
        let top_level_block = self.inode.block[self.top_offset as usize];
        if self.top_offset < 12 {
            Some(top_level_block)
        } else if self.top_offset == 12 {
            read_ptr_checked(disk, top_level_block, self.l1_offset)
        } else if self.top_offset == 13 {
            match read_ptr_checked(disk, top_level_block, self.l2_offsets[0]) {
                Some(bottom) => read_ptr_checked(disk, bottom, self.l2_offsets[1]),
                None => None,
            }
        } else {
            match read_ptr_checked(disk, top_level_block, self.l3_offsets[0]) {
                Some(middle) => match read_ptr_checked(disk, middle, self.l3_offsets[1]) {
                    Some(bottom) => read_ptr_checked(disk, bottom, self.l3_offsets[2]),
                    None => None,
                },
                None => None,
            }
        }
    }
}

/// Rounding up to a multiple of 4 moves by less than 4.
pub proof fn lemma_align4(x: usize)
    requires
        x + 4 <= usize::MAX,
    ensures
        x <= ((x + 3) as usize & !3usize) <= x + 3,
{
    let y = (x + 3) as usize;
    assert(y & !3usize <= y && y - (y & !3usize) <= 3) by (bit_vector);
}

/// Reads the directory entries of one block, from file offset `offset` on, as the walk to the
/// last entry does: each header read into `hdr`, moving by its record length, until the block's
/// end or the file's.
fn walk_block<D: BlockDriver>(
    cursor: &mut Ext2InodeCursor,
    disk: &mut BlockCache<D>,
    offset: u64,
    latest: u64,
    hdr: &mut Vec<u8>,
    visited: bool,
) -> (r: (u64, u64, bool))
    requires
        old(disk).wf(),
        file_walkable(old(disk)@, old(cursor).inode),
        old(hdr)@.len() == 8,
        offset < old(cursor).inode.size,
        latest < 0x1_0000,
        data_block(old(disk)@, old(cursor).inode, old(cursor).block) != 0,
        old(cursor).at_block(old(cursor).block),
        old(cursor).offsets_bounded(),
        append_walk_ends(old(disk)@, old(cursor).inode, offset as int, 0, old(cursor).block as int, old(hdr)@),
    ensures
        final(disk).wf(),
        final(disk)@ == old(disk)@,
        final(cursor).inode == old(cursor).inode,
        final(hdr)@.len() == 8,
        r.0 < old(cursor).inode.size + 0x1_0000,
        r.0 > offset,
        r.1 <= r.0,
        r.1 < 0x1_0000,
        final(cursor).at_block(final(cursor).block),
        final(cursor).offsets_bounded(),
        final(cursor).block <= (old(cursor).inode.size - 1) / 1024,
        append_walk(old(disk)@, old(cursor).inode, offset as int, 0, old(cursor).block as int, latest as int, old(hdr)@, visited)
            == append_walk(
            old(disk)@,
            old(cursor).inode,
            r.0 as int,
            0,
            final(cursor).block + 1,
            r.1 as int,
            final(hdr)@,
            r.2,
        ),
        append_walk_ends(old(disk)@, old(cursor).inode, r.0 as int, 0, final(cursor).block + 1, final(hdr)@),
{
    let ghost v = disk@;
    let ghost meta = cursor.inode;
    let ghost start_block = cursor.block;
    let file_size = cursor.inode.size as u64;
    let mut offset = offset;
    let mut latest = latest;
    let mut visited = visited;
    let mut local: u64 = 0;
    let ghost start_off = offset;
    let ghost total = append_walk(v, meta, offset as int, 0, start_block as int, latest as int, hdr@, visited);
    while local < 1024 && offset < file_size
        invariant
            offset == start_off + local,
            local > 0 ==> latest <= offset,
            disk.wf(),
            disk@ == v,
            cursor.inode == meta,
            file_size == meta.size,
            file_walkable(v, meta),
            hdr@.len() == 8,
            offset < meta.size + 0x1_0000,
            latest < 0x1_0000,
            local < 1024 + 0x1_0000,
            local == 0 ==> offset < meta.size && data_block(v, meta, start_block) != 0,
            local > 0 ==> cursor.at_block(cursor.block) && cursor.offsets_bounded() && cursor.block <= (meta.size - 1) / 1024,
            total == append_walk(
                v,
                meta,
                offset as int,
                local as int,
                if local == 0 { start_block as int } else { cursor.block as int },
                latest as int,
                hdr@,
                visited,
            ),
            append_walk_ends(v, meta, offset as int, local as int, if local == 0 { start_block as int } else { cursor.block as int }, hdr@),
        decreases meta.size + 0x1_0000 - offset,
    {
        proof {
            disk.lemma_sector_count();
            assert forall|p: int| offset <= p < offset + 8 && p < meta.size implies #[trigger] byte_readable(v, meta, p) by {
                assert(p / 1024 <= meta.size / 1024);
                assert(block_ok(v, meta, p / 1024));
            }
        }
        let ghost before_hdr = hdr@;
        let _ = cursor.read(disk, offset, hdr);
        proof {
            assert(hdr@ =~= header_after_read(v, meta, offset as int, before_hdr));
        }
        latest = crate::bytes::read_le_u16(hdr.as_slice(), 4) as u64;
        visited = true;
        offset += latest;
        local += latest;
    }
    (offset, latest, visited)
}

/// Walks the directory with inode `meta` to just past its last entry, as appending an entry
/// does; gives the offset reached, the last record length read and whether any entry was read,
/// and leaves the last header read in `hdr`.
pub(crate) fn walk_to_last_dentry<D: BlockDriver>(meta: Ext2Meta, disk: &mut BlockCache<D>, hdr: &mut Vec<u8>) -> (r: (u64, u64, bool))
    requires
        old(disk).wf(),
        file_walkable(old(disk)@, meta),
        old(hdr)@.len() == 8,
        append_walk_ends(old(disk)@, meta, 0, 0, 0, old(hdr)@),
    ensures
        final(disk).wf(),
        final(disk)@ == old(disk)@,
        final(hdr)@.len() == 8,
        r.0 < meta.size + 0x1_0000,
        r.1 < 0x1_0000,
        r.1 <= r.0,
        (r.0 as int, r.1 as int, final(hdr)@, r.2) == append_walk(old(disk)@, meta, 0, 0, 0, 0, old(hdr)@, false),
{
    let ghost v = disk@;
    let file_size = meta.size as u64;
    let mut cursor = Ext2InodeCursor::new(meta);
    let mut offset: u64 = 0;
    let mut latest_rec_len: u64 = 0;
    let mut file_visited = false;
    let ghost total = append_walk(v, meta, 0, 0, 0, 0, hdr@, false);
    cursor.jump_to(0);
    proof {
        disk.lemma_sector_count();
        assert(block_ok(v, meta, 0));
    }
    let mut active = cursor.get_current_block(disk);
    while active != 0 && offset < file_size
        invariant
            disk.wf(),
            disk@ == v,
            cursor.inode == meta,
            file_size == meta.size,
            file_walkable(v, meta),
            hdr@.len() == 8,
            offset < meta.size + 0x1_0000,
            latest_rec_len < 0x1_0000,
            latest_rec_len <= offset,
            cursor.offsets_bounded(),
            cursor.block <= meta.size / 1024 + 1,
            cursor.at_block(cursor.block),
            active == data_block(v, meta, cursor.block),
            total == append_walk(v, meta, offset as int, 0, cursor.block as int, latest_rec_len as int, hdr@, file_visited),
            append_walk_ends(v, meta, offset as int, 0, cursor.block as int, hdr@),
        decreases meta.size + 0x1_0000 - offset,
    {
        let (o, l, f) = walk_block(&mut cursor, disk, offset, latest_rec_len, hdr, file_visited);
        offset = o;
        latest_rec_len = l;
        file_visited = f;
        let ghost last = cursor.block;
        proof {
            assert(last <= (meta.size - 1) / 1024);
            assert((meta.size - 1) / 1024 + 1 <= meta.size / 1024 + 1) by (nonlinear_arith)
                requires meta.size >= 1;
        }
        cursor.next_block();
        proof {
            disk.lemma_sector_count();
            assert(cursor.block == last + 1);
            assert(block_ok(v, meta, cursor.block as int));
        }
        active = cursor.get_current_block(disk);
    }
    (offset, latest_rec_len, file_visited)
}

/// A cursor that writes the data of an inode, allocating the blocks it needs.
pub struct Ext2InodeWriteCursor {
    pub inner: Ext2InodeCursor,
    /// Number of the inode written.
    pub inode_number: u32,
}

impl Ext2InodeWriteCursor {
    pub fn new(inode_number: u32, inode: Ext2Meta) -> (r: Self)
        ensures
            r.inode_number == inode_number,
            r.inner.inode == inode,
            r.inner.at_block(0),
    {
        Ext2InodeWriteCursor { inner: Ext2InodeCursor::new(inode), inode_number }
    }

    pub fn meta(&self) -> (r: &Ext2Meta)
        ensures
            *r == self.inner.inode,
    {
        self.inner.meta()
    }

    /// Moves the cursor to the start of file block `block`.
    fn jump_to(&mut self, block: u32)
        ensures
            final(self).inner.at_block(block),
            final(self).inner.offsets_bounded(),
            final(self).inner.inode == old(self).inner.inode,
            final(self).inode_number == old(self).inode_number,
    {
        self.inner.jump_to(block);
    }

    /// Writes the block ids of the cursor's inode into its record on disk.
    fn store_block_ids<D: BlockDriver>(&self, icache: &Ext2InodeCache, disk: &mut BlockCache<D>)
        requires
            old(disk).wf(),
            write_ok(icache, self.inode_number, old(disk)@.len() as int),
        ensures
            final(disk).wf(),
            final(disk)@.len() == old(disk)@.len(),
            exists|before: Ext2Inode|
                #![trigger before.parsed_from(old(disk)@, inode_record_offset(&icache.super_block, self.inode_number))]
                before.parsed_from(old(disk)@, inode_record_offset(&icache.super_block, self.inode_number))
                    && final(disk)@ == spliced(
                    old(disk)@,
                    inode_record_offset(&icache.super_block, self.inode_number),
                    inode_bytes(with_blocks(before, self.inner.inode.block)),
                ),
    {
        let ghost len = disk@.len();
        let blocks = self.inner.inode.block;
        let update = move |inode: Ext2Inode| -> (r: Ext2Inode)
            ensures
                r == with_blocks(inode, blocks),
            {
                let mut i = inode;
                i.block = blocks;
                i
            };
        icache.modify_node(disk, self.inode_number, update);
    }

    /// The block in the inode's slot that the cursor's location starts from; when the slot is
    /// empty, a data block is reserved for it and the inode's record updated. 0 when no block
    /// could be reserved.
    fn fetch_or_allocate_to_top_index<D: BlockDriver>(&mut self, icache: &Ext2InodeCache, disk: &mut BlockCache<D>) -> (r: u32)
        requires
            old(disk).wf(),
            write_ok(icache, old(self).inode_number, old(disk)@.len() as int),
            old(self).inner.top_offset < 15,
        ensures
            final(disk).wf(),
            final(disk)@.len() == old(disk)@.len(),
            final(self).inode_number == old(self).inode_number,
            final(self).inner.block == old(self).inner.block,
            final(self).inner.top_offset == old(self).inner.top_offset,
            final(self).inner.l1_offset == old(self).inner.l1_offset,
            final(self).inner.l2_offsets == old(self).inner.l2_offsets,
            final(self).inner.l3_offsets == old(self).inner.l3_offsets,
            final(self).inner.inode.size == old(self).inner.inode.size,
            final(self).inner.inode.mode == old(self).inner.inode.mode,
            final(self).inner.inode.links_count == old(self).inner.inode.links_count,
            old(self).inner.inode.block[old(self).inner.top_offset as int] != 0 ==> r == old(self).inner.inode.block[old(
                self,
            ).inner.top_offset as int] && final(self).inner.inode == old(self).inner.inode && final(disk)@ == old(disk)@,
            old(self).inner.inode.block[old(self).inner.top_offset as int] == 0 ==> {
                &&& final(self).inner.inode.block@ == old(self).inner.inode.block@.update(
                    old(self).inner.top_offset as int,
                    r,
                )
                &&& r == 0 || block_on_disk(r, old(disk)@.len() as int)
                &&& top_reserved(
                    old(disk)@,
                    final(disk)@,
                    icache,
                    inode_record_offset(&icache.super_block, old(self).inode_number),
                    r,
                )
            },
    {
        let top = self.inner.top_offset as usize;
        let block = self.inner.inode.block[top];
        if block == 0 {
            let ghost before = disk@;
            let allocated = icache.allocate_data_block(disk, self.inode_number);
            let ghost mid = disk@;
            proof {
                if disk@ != before {
                    lemma_reserved_bit_bound(
                        before,
                        disk@,
                        &icache.super_block,
                        icache.super_block.block_bitmap_offset_spec(),
                        icache.super_block.block_bitmap_blocks_spec(),
                        allocated as int,
                        icache.super_block.first_data_block as int,
                    );
                }
            }
            self.inner.inode.block[top] = allocated;
            self.store_block_ids(icache, disk);
            proof {
                let rec = inode_record_offset(&icache.super_block, self.inode_number);
                let b = choose|b: Ext2Inode| #[trigger] b.parsed_from(mid, rec) && disk@ == spliced(
                    mid,
                    rec,
                    inode_bytes(with_blocks(b, self.inner.inode.block)),
                );
                crate::subsystem::fs::ext2::raw::lemma_inode_bytes_len(with_blocks(b, self.inner.inode.block));
                assert(record_written(mid, disk@, rec));
            }
            allocated
        } else {
            block
        }
    }

    /// The block named in slot `offset / 4` of pointer block `block`; when the slot is empty, a
    /// block is reserved, zeroed and recorded in the slot. `None` when the slot lies off the
    /// disk; 0 when no block could be reserved.
    fn fetch_or_allocate_sublist<D: BlockDriver>(&self, icache: &Ext2InodeCache, disk: &mut BlockCache<D>, offset: u32, block: u32) -> (r:
        Option<u32>)
        requires
            old(disk).wf(),
            write_ok(icache, self.inode_number, old(disk)@.len() as int),
            offset < 1024,
            offset % 4 == 0,
        ensures
            final(disk).wf(),
            final(disk)@.len() == old(disk)@.len(),
            r is None <==> !ptr_ok(old(disk)@, block, offset / 4),
            r is None ==> final(disk)@ == old(disk)@,
            r matches Some(b) ==> ptr_at(old(disk)@, block, offset / 4) != 0 ==> b == ptr_at(old(disk)@, block, offset / 4)
                && final(disk)@ == old(disk)@,
            r matches Some(b) ==> ptr_at(old(disk)@, block, offset / 4) == 0 ==> b == 0 || block_on_disk(b, old(disk)@.len() as int),
            r matches Some(b) ==> ptr_at(final(disk)@, block, offset / 4) == b,
    {
        let parsed_block = match read_ptr_checked(disk, block, offset / 4) {
            Some(b) => b,
            None => {
                return None;
            },
        };
        if parsed_block == 0 {
            let ghost before = disk@;
            let allocated = icache.allocate_data_block(disk, self.inode_number);
            proof {
                if disk@ != before {
                    lemma_reserved_bit_bound(
                        before,
                        disk@,
                        &icache.super_block,
                        icache.super_block.block_bitmap_offset_spec(),
                        icache.super_block.block_bitmap_blocks_spec(),
                        allocated as int,
                        icache.super_block.first_data_block as int,
                    );
                }
                disk.lemma_sector_count();
            }
            let zeros = zeroed_bytes(1024);
            disk.write(allocated as usize * 1024, zeros.as_slice());
            proof {
                crate::subsystem::fs::ext2::cache::lemma_spliced_len(before, allocated * 1024, zeros@);
                disk.lemma_sector_count();
            }
            let ptr = crate::bytes::u32_to_le_bytes(allocated);
            let at = (block as u64) * 1024 + offset as u64;
            let ghost mid = disk@;
            disk.write(at as usize, ptr.as_slice());
            proof {
                lemma_ptr_written(mid, disk@, block, offset / 4, allocated);
            }
            Some(allocated)
        } else {
            Some(parsed_block)
        }
    }

    /// Reserves a data block for the file block the cursor points at and records it: in the
    /// inode's slot, or in the indirect blocks, reserving those on the way when they are
    /// missing. Gives the reserved block, 0 when none could be reserved, `None` when a slot on
    /// the way lies off the disk.
    fn allocate_for_current_block<D: BlockDriver>(&mut self, icache: &Ext2InodeCache, disk: &mut BlockCache<D>) -> (r:
        Option<u32>)
        requires
            old(disk).wf(),
            write_ok(icache, old(self).inode_number, old(disk)@.len() as int),
            old(self).inner.top_offset < 15,
            old(self).inner.offsets_bounded(),
            old(self).inner.top_offset == 12 ==> old(self).inner.l1_offset < 256,
            old(self).inner.top_offset == 13 ==> old(self).inner.l2_offsets[0] < 256 && old(self).inner.l2_offsets[1] < 256,
            old(self).inner.top_offset == 14 ==> old(self).inner.l3_offsets[0] < 256 && old(self).inner.l3_offsets[1] < 256
                && old(self).inner.l3_offsets[2] < 256,
            old(self).inner.top_offset < 12 ==> old(self).inner.inode.block[old(self).inner.top_offset as int] == 0,
        ensures
            final(disk).wf(),
            final(disk)@.len() == old(disk)@.len(),
            final(self).inode_number == old(self).inode_number,
            final(self).inner.block == old(self).inner.block,
            final(self).inner.location() == old(self).inner.location(),
            final(self).inner.offsets_bounded(),
            final(self).inner.inode.size == old(self).inner.inode.size,
            final(self).inner.inode.mode == old(self).inner.inode.mode,
            final(self).inner.inode.links_count == old(self).inner.inode.links_count,
            r matches Some(b) ==> b == 0 || block_on_disk(b, old(disk)@.len() as int),
            ({
                let top = old(self).inner.top_offset as int;
                let slot = final(self).inner.inode.block[top];
                let v = final(disk)@;
                let len = old(disk)@.len() as int;
                &&& final(self).inner.inode.block@ == old(self).inner.inode.block@.update(top, slot)
                &&& old(self).inner.inode.block[top] != 0 ==> slot == old(self).inner.inode.block[top]
                &&& top < 12 ==> r == Some(slot)
                &&& top < 12 ==> top_reserved(
                    old(disk)@,
                    v,
                    icache,
                    inode_record_offset(&icache.super_block, old(self).inode_number),
                    slot,
                )
                &&& top == 12 ==> (r is None <==> !block_on_disk(slot, len))
                &&& top == 12 ==> (r matches Some(b) ==> ptr_at(v, slot, old(self).inner.l1_offset) == b)
                &&& top == 13 && r is None ==> !ptr_ok(v, slot, old(self).inner.l2_offsets[0]) || !block_on_disk(
                    ptr_at(v, slot, old(self).inner.l2_offsets[0]),
                    len,
                )
                &&& top == 13 ==> (r matches Some(b) ==> exists|s: u32| #[trigger] block_on_disk(s, len) && ptr_at(
                    v,
                    s,
                    old(self).inner.l2_offsets[1],
                ) == b)
                &&& top == 14 ==> (r matches Some(b) ==> exists|s: u32| #[trigger] block_on_disk(s, len) && ptr_at(
                    v,
                    s,
                    old(self).inner.l3_offsets[2],
                ) == b)
            }),
    {
        if self.inner.top_offset < 12 {
            let b = self.fetch_or_allocate_to_top_index(icache, disk);
            Some(b)
        } else if self.inner.top_offset == 12 {
            let single_linked_block = self.fetch_or_allocate_to_top_index(icache, disk);
            let offset_within = self.inner.l1_offset * 4;
            if !check_block(disk, single_linked_block) {
                return None;
            }
            let ghost before = disk@;
            let allocated = icache.allocate_data_block(disk, self.inode_number);
            proof {
                if disk@ != before {
                    lemma_reserved_bit_bound(
                        before,
                        disk@,
                        &icache.super_block,
                        icache.super_block.block_bitmap_offset_spec(),
                        icache.super_block.block_bitmap_blocks_spec(),
                        allocated as int,
                        icache.super_block.first_data_block as int,
                    );
                }
                disk.lemma_sector_count();
            }
            let ptr = crate::bytes::u32_to_le_bytes(allocated);
            let at = (single_linked_block as u64) * 1024 + offset_within as u64;
            let ghost mid = disk@;
            disk.write(at as usize, ptr.as_slice());
            proof {
                lemma_ptr_written(mid, disk@, single_linked_block, self.inner.l1_offset, allocated);
            }
            Some(allocated)
        } else if self.inner.top_offset == 13 {
            let double_linked_block = self.fetch_or_allocate_to_top_index(icache, disk);
            let offset_within_double = self.inner.l2_offsets[0] * 4;
            let single_linked_block = match self.fetch_or_allocate_sublist(icache, disk, offset_within_double, double_linked_block) {
                Some(b) => b,
                None => {
                    return None;
                },
            };
            let offset_within_single = self.inner.l2_offsets[1] * 4;
            if !check_block(disk, single_linked_block) {
                return None;
            }
            let ghost before = disk@;
            let allocated = icache.allocate_data_block(disk, self.inode_number);
            proof {
                if disk@ != before {
                    lemma_reserved_bit_bound(
                        before,
                        disk@,
                        &icache.super_block,
                        icache.super_block.block_bitmap_offset_spec(),
                        icache.super_block.block_bitmap_blocks_spec(),
                        allocated as int,
                        icache.super_block.first_data_block as int,
                    );
                }
                disk.lemma_sector_count();
            }
            let ptr = crate::bytes::u32_to_le_bytes(allocated);
            let at = (single_linked_block as u64) * 1024 + offset_within_single as u64;
            let ghost mid = disk@;
            disk.write(at as usize, ptr.as_slice());
            proof {
                lemma_ptr_written(mid, disk@, single_linked_block, self.inner.l2_offsets[1], allocated);
                assert(block_on_disk(single_linked_block, old(disk)@.len() as int));
            }
            Some(allocated)
        } else {
            let triple_linked_block = self.fetch_or_allocate_to_top_index(icache, disk);
            let offset_within_triple = self.inner.l3_offsets[0] * 4;
            let double_linked_block = match self.fetch_or_allocate_sublist(icache, disk, offset_within_triple, triple_linked_block) {
                Some(b) => b,
                None => {
                    return None;
                },
            };
            let offset_within_double = self.inner.l3_offsets[1] * 4;
            let single_linked_block = match self.fetch_or_allocate_sublist(icache, disk, offset_within_double, double_linked_block) {
                Some(b) => b,
                None => {
                    return None;
                },
            };
            let offset_within_single = self.inner.l3_offsets[2] * 4;
            if !check_block(disk, single_linked_block) {
                return None;
            }
            let ghost before = disk@;
            let allocated = icache.allocate_data_block(disk, self.inode_number);
            proof {
                if disk@ != before {
                    lemma_reserved_bit_bound(
                        before,
                        disk@,
                        &icache.super_block,
                        icache.super_block.block_bitmap_offset_spec(),
                        icache.super_block.block_bitmap_blocks_spec(),
                        allocated as int,
                        icache.super_block.first_data_block as int,
                    );
                }
                disk.lemma_sector_count();
            }
            let ptr = crate::bytes::u32_to_le_bytes(allocated);
            let at = (single_linked_block as u64) * 1024 + offset_within_single as u64;
            let ghost mid = disk@;
            disk.write(at as usize, ptr.as_slice());
            proof {
                lemma_ptr_written(mid, disk@, single_linked_block, self.inner.l3_offsets[2], allocated);
                assert(block_on_disk(single_linked_block, old(disk)@.len() as int));
            }
            Some(allocated)
        }
    }

    /// Writes the size of the cursor's inode into its record on disk.
    fn store_size<D: BlockDriver>(&self, icache: &Ext2InodeCache, disk: &mut BlockCache<D>)
        requires
            old(disk).wf(),
            write_ok(icache, self.inode_number, old(disk)@.len() as int),
        ensures
            final(disk).wf(),
            final(disk)@.len() == old(disk)@.len(),
            exists|before: Ext2Inode|
                #![trigger before.parsed_from(old(disk)@, inode_record_offset(&icache.super_block, self.inode_number))]
                before.parsed_from(old(disk)@, inode_record_offset(&icache.super_block, self.inode_number))
                    && final(disk)@ == spliced(
                    old(disk)@,
                    inode_record_offset(&icache.super_block, self.inode_number),
                    inode_bytes(with_size(before, self.inner.inode.size)),
                ),
    {
        let size = self.inner.inode.size;
        let update = move |inode: Ext2Inode| -> (r: Ext2Inode)
            ensures
                r == with_size(inode, size),
            {
                let mut i = inode;
                i.size = size;
                i
            };
        icache.modify_node(disk, self.inode_number, update);
    }

    /// Writes `buf` into the file from byte `offset` on, block by block, reserving the blocks
    /// that are missing; stops early when a block cannot be reserved or a block on the way lies
    /// off the disk. When the file grew, its new size goes into the inode and its record.
    /// Returns how many bytes were written.
    #[verifier::spinoff_prover]
    #[verifier::rlimit(60)]
    pub fn write<D: BlockDriver>(&mut self, icache: &Ext2InodeCache, disk: &mut BlockCache<D>, offset: u64, buf: &[u8]) -> (r:
        usize)
        requires
            old(disk).wf(),
            write_ok(icache, old(self).inode_number, old(disk)@.len() as int),
            offset + buf@.len() <= u32::MAX,
        ensures
            final(disk).wf(),
            final(disk)@.len() == old(disk)@.len(),
            r <= buf@.len(),
            final(self).inode_number == old(self).inode_number,
            final(self).inner.inode.mode == old(self).inner.inode.mode,
            final(self).inner.inode.links_count == old(self).inner.inode.links_count,
            final(self).inner.inode.size == if offset + r > old(self).inner.inode.size {
                offset + r
            } else {
                old(self).inner.inode.size as int
            },
            offset + r > old(self).inner.inode.size ==> le_u32(
                final(disk)@,
                inode_record_offset(&icache.super_block, old(self).inode_number) + 4,
            ) == offset + r,
            buf@.len() > 0 && mapped_write(
                old(disk)@,
                old(self).inner.inode,
                offset as int,
                buf@.len() as int,
                inode_record_offset(&icache.super_block, old(self).inode_number),
            ) ==> r == buf@.len() && file_bytes(final(disk)@, final(self).inner.inode, offset as int, buf@.len() as int) == buf@,
            buf@.len() > 0 && mapped_write(
                old(disk)@,
                old(self).inner.inode,
                offset as int,
                buf@.len() as int,
                inode_record_offset(&icache.super_block, old(self).inode_number),
            ) ==> forall|p: int|
                #[trigger] untouched(
                    old(disk)@,
                    old(self).inner.inode,
                    offset as int,
                    buf@.len() as int,
                    inode_record_offset(&icache.super_block, old(self).inode_number),
                    p,
                ) ==> file_byte(final(disk)@, final(self).inner.inode, p) == file_byte(old(disk)@, old(self).inner.inode, p),
            buf@.len() > 0 && mapped_write(
                old(disk)@,
                old(self).inner.inode,
                offset as int,
                buf@.len() as int,
                inode_record_offset(&icache.super_block, old(self).inode_number),
            ) ==> final(self).inner.inode.block == old(self).inner.inode.block && changed_within(
                old(disk)@,
                final(disk)@,
                old(self).inner.inode,
                offset as int / 1024,
                (offset + buf@.len() - 1) / 1024,
                inode_record_offset(&icache.super_block, old(self).inode_number),
            ) && changed_only_at(
                old(disk)@,
                final(disk)@,
                old(self).inner.inode,
                offset as int,
                buf@.len() as int,
                inode_record_offset(&icache.super_block, old(self).inode_number),
            ) && forall|k: int| 0 <= k < buf@.len() ==> final(disk)@[#[trigger] write_pos(
                old(disk)@,
                old(self).inner.inode,
                offset as int,
                k,
            )] == buf@[k],
            growable(
                old(disk)@,
                old(self).inner.inode,
                icache,
                offset as int,
                buf@.len() as int,
                inode_record_offset(&icache.super_block, old(self).inode_number),
            ) ==> {
                &&& file_bytes(final(disk)@, final(self).inner.inode, offset as int, r as int) == buf@.subrange(0, r as int)
                &&& r < buf@.len() ==> blocks_full(final(disk)@, icache)
                &&& grow_state(
                    old(disk)@,
                    final(disk)@,
                    old(self).inner.inode,
                    final(self).inner.inode,
                    icache,
                    inode_record_offset(&icache.super_block, old(self).inode_number),
                    offset as int,
                    buf@,
                    r as int,
                    r < buf@.len(),
                )
            },
    {
        let ghost len = disk@.len();
        let ghost v0 = disk@;
        let ghost meta0 = self.inner.inode;
        let ghost rec = inode_record_offset(&icache.super_block, self.inode_number);
        let ghost first: int = offset as int / 1024;
        let ghost last = (offset + buf@.len() - 1) / 1024;
        let ghost mapped = buf@.len() > 0 && mapped_write(v0, meta0, offset as int, buf@.len() as int, rec);
        let ghost grow = growable(v0, meta0, icache, offset as int, buf@.len() as int, rec);
        proof {
            if grow {
                lemma_grow_start(v0, meta0, icache, offset as int, buf@, rec);
            }
            if mapped {
                assert(kept_outside(v0, disk@, meta0, first, last));
                assert(kept_unwritten(v0, disk@, meta0, offset as int, buf@.len() as int));
            }
        }
        let mut current_offset = offset;
        let mut have_written: usize = 0;
        let mut stopped = false;
        while have_written < buf.len() && !stopped
            invariant
                disk.wf(),
                disk@.len() == len,
                len == old(disk)@.len(),
                write_ok(icache, self.inode_number, len as int),
                have_written <= buf@.len(),
                current_offset == offset + have_written,
                offset + buf@.len() <= u32::MAX,
                self.inode_number == old(self).inode_number,
                self.inner.inode.mode == old(self).inner.inode.mode,
                self.inner.inode.size == old(self).inner.inode.size,
                self.inner.inode.links_count == old(self).inner.inode.links_count,
                v0 == old(disk)@,
                meta0 == old(self).inner.inode,
                rec == inode_record_offset(&icache.super_block, self.inode_number),
                first == offset as int / 1024,
                last == (offset + buf@.len() - 1) / 1024,
                mapped == (buf@.len() > 0 && mapped_write(v0, meta0, offset as int, buf@.len() as int, rec)),
                mapped ==> !stopped,
                mapped ==> self.inner.inode == meta0,
                mapped ==> kept_outside(v0, disk@, meta0, first, last),
                mapped ==> kept_unwritten(v0, disk@, meta0, offset as int, buf@.len() as int),
                mapped ==> written_so_far(v0, disk@, meta0, offset as int, buf@, have_written as int),
                mapped && 0 < have_written < buf@.len() ==> current_offset % 1024 == 0,
                grow == growable(v0, meta0, icache, offset as int, buf@.len() as int, rec),
                grow ==> grow_layout(icache, rec, len as int),
                grow ==> grow_state(v0, disk@, meta0, self.inner.inode, icache, rec, offset as int, buf@, have_written as int, stopped),
            decreases buf@.len() - have_written, if stopped { 0int } else { 1int },
        {
            let block_number = (current_offset / 1024) as u32;
            let block_offset = (current_offset % 1024) as usize;
            self.jump_to(block_number);
            proof {
                let p = POINTERS_PER_BLOCK as int;
                assert(block_number < 0x40_0000);
                let i2 = block_number - p - 12;
                let i3 = block_number - (p + 1) * p - 12;
                assert(i2 >= 0 ==> i2 / p < 0x40_0000 && i2 % p < 256) by (nonlinear_arith)
                    requires p == 256, i2 < 0x40_0000;
                assert(i3 >= 0 ==> i3 / (p * p) < 256 && (i3 % (p * p)) / p < 256 && i3 % p < 256) by (nonlinear_arith)
                    requires p == 256, i3 < 0x40_0000;
            }
            proof {
                if mapped {
                    reveal(mapped_write);
                    lemma_mapped_lookup(v0, disk@, meta0, offset as int, buf@.len() as int, rec, block_number as int);
                    assert(block_ok(v0, meta0, block_number as int));
                }
            }
            proof {
                if grow {
                    assert(first <= block_number <= last < 12) by {
                        vstd::arithmetic::div_mod::lemma_div_is_ordered(offset as int, current_offset as int, 1024);
                        vstd::arithmetic::div_mod::lemma_div_is_ordered(current_offset as int, offset + buf@.len() - 1, 1024);
                    }
                    assert(self.inner.top_offset == block_number);
                }
            }
            match self.inner.current_block_checked(disk) {
                None => {
                    stopped = true;
                },
                Some(found) => {
                    proof {
                        if mapped {
                            assert(found == data_block(v0, meta0, block_number));
                        }
                        if grow {
                            assert(found == self.inner.inode.block[block_number as int]);
                        }
                    }
                    let mut block = found;
                    if block == 0 {
                        let ghost d_before = disk@;
                        let ghost m_before = self.inner.inode;
                        match self.allocate_for_current_block(icache, disk) {
                            Some(b) => {
                                block = b;
                                proof {
                                    if grow {
                                        lemma_grow_alloc(
                                            v0,
                                            d_before,
                                            disk@,
                                            meta0,
                                            m_before,
                                            self.inner.inode,
                                            icache,
                                            rec,
                                            offset as int,
                                            buf@,
                                            have_written as int,
                                            block_number as int,
                                            b,
                                        );
                                    }
                                }
                            },
                            None => {
                                stopped = true;
                            },
                        }
                    }
                    proof {
                        if grow && !stopped && block != 0 {
                            assert(block == self.inner.inode.block[block_number as int]);
                            assert(settled(disk@, icache, rec, block as int));
                        }
                    }
                    if !stopped && (block == 0 || !check_block(disk, block)) {
                        stopped = true;
                    }
                    if !stopped {
                        let room = 1024 - block_offset;
                        let left = buf.len() - have_written;
                        let to_write = if room < left { room } else { left };
                        let mut chunk = zeroed_bytes(to_write);
                        crate::bytes::copy_into(&mut chunk, 0, buf, have_written, to_write);
                        proof {
                            disk.lemma_sector_count();
                        }
                        let ghost d = disk@;
                        disk.write(block as usize * 1024 + block_offset, chunk.as_slice());
                        proof {
                            if mapped {
                                assert(chunk@ =~= buf@.subrange(have_written as int, have_written + to_write));
                                lemma_chunk_step(
                                    v0,
                                    d,
                                    disk@,
                                    meta0,
                                    offset as int,
                                    buf@,
                                    rec,
                                    have_written as int,
                                    block_number as int,
                                    block_offset as int,
                                    to_write as int,
                                );
                            }
                            if grow {
                                assert(chunk@ =~= buf@.subrange(have_written as int, have_written + to_write));
                                lemma_grow_chunk(
                                    v0,
                                    d,
                                    meta0,
                                    self.inner.inode,
                                    icache,
                                    rec,
                                    offset as int,
                                    buf@,
                                    have_written as int,
                                    to_write as int,
                                    block_offset as int,
                                );
                            }
                        }
                        have_written += to_write;
                        current_offset += to_write as u64;
                    }
                },
            }
        }
        let ghost m_loop = self.inner.inode;
        proof {
            if grow && have_written < buf@.len() {
                assert(stopped);
            }
        }
        if offset + have_written as u64 > self.inner.inode.size as u64 {
            let new_size = offset as u32 + have_written as u32;
            self.inner.inode.size = new_size;
            let ghost mid = disk@;
            self.store_size(icache, disk);
            proof {
                let off = inode_record_offset(&icache.super_block, self.inode_number);
                let before = choose|before: Ext2Inode| #[trigger] before.parsed_from(mid, off)
                    && disk@ == spliced(mid, off, inode_bytes(with_size(before, new_size)));
                let w = with_size(before, new_size);
                crate::subsystem::fs::ext2::raw::lemma_inode_bytes_parse(w);
                crate::subsystem::fs::ext2::raw::lemma_inode_bytes_len(w);
                let b = inode_bytes(w);
                assert(disk@[off + 4] == b[4] && disk@[off + 5] == b[5] && disk@[off + 6] == b[6] && disk@[off + 7] == b[7]);
                if grow {
                    lemma_grow_finish(v0, mid, b, meta0, m_loop, self.inner.inode, icache, rec, offset as int, buf@, have_written as int, stopped);
                }
                if mapped {
                    lemma_mapped_frame(v0, mid, disk@, meta0, offset as int, buf@, rec, b);
                    lemma_mapped_readback(v0, mid, disk@, meta0, self.inner.inode, offset as int, buf@, rec, b);
                    assert forall|p: int| #[trigger] untouched(v0, meta0, offset as int, buf@.len() as int, rec, p)
                        implies file_byte(disk@, self.inner.inode, p) == file_byte(v0, meta0, p) by {
                        lemma_mapped_untouched(v0, mid, disk@, meta0, self.inner.inode, offset as int, buf@.len() as int, rec, b, p);
                    }
                }
            }
        } else {
            proof {
                if grow {
                    assert(spliced(disk@, rec, Seq::<u8>::empty()) =~= disk@);
                    lemma_grow_finish(v0, disk@, Seq::empty(), meta0, m_loop, self.inner.inode, icache, rec, offset as int, buf@, have_written as int, stopped);
                }
                if mapped {
                    lemma_mapped_frame(v0, disk@, disk@, meta0, offset as int, buf@, rec, Seq::empty());
                    lemma_mapped_readback(v0, disk@, disk@, meta0, self.inner.inode, offset as int, buf@, rec, Seq::empty());
                    assert forall|p: int| #[trigger] untouched(v0, meta0, offset as int, buf@.len() as int, rec, p)
                        implies file_byte(disk@, self.inner.inode, p) == file_byte(v0, meta0, p) by {
                        lemma_mapped_untouched(v0, disk@, disk@, meta0, self.inner.inode, offset as int, buf@.len() as int, rec, Seq::empty(), p);
                    }
                }
            }
        }
        have_written
    }

    /// Adds a directory entry for inode `child` named `name` after the last entry of this
    /// directory: in the space after the last entry's name when it fits in that block (the last
    /// entry's record length is cut to end there), else at the start of the next block; in an
    /// empty directory, at its start, spanning the block.
    pub fn append_dentry<D: BlockDriver>(&mut self, icache: &Ext2InodeCache, disk: &mut BlockCache<D>, child: u32, name: &[u8]) -> (r:
        Result<(), FsError>)
        requires
            old(disk).wf(),
            write_ok(icache, old(self).inode_number, old(disk)@.len() as int),
            file_walkable(old(disk)@, old(self).inner.inode),
            append_walk_ends(old(disk)@, old(self).inner.inode, 0, 0, 0, Seq::new(8, |_i: int| 0u8)),
            old(self).inner.inode.size + 0x3_0000 + name@.len() <= u32::MAX,
        ensures
            final(disk).wf(),
            final(disk)@.len() == old(disk)@.len(),
            r == Ok::<(), FsError>(()),
            final(self).inode_number == old(self).inode_number,
            final(self).inner.inode.mode == old(self).inner.inode.mode,
            final(self).inner.inode.links_count == old(self).inner.inode.links_count,
            ({
                let ws = entry_append_writes(old(disk)@, old(self).inner.inode, child, name@);
                let lo = writes_low(ws);
                let span = writes_span(ws);
                let rec = inode_record_offset(&icache.super_block, old(self).inode_number);
                name@.len() > 0 && mapped_write(old(disk)@, old(self).inner.inode, lo, span, rec) ==> {
                    &&& forall|i: int| 0 <= i < ws.len() ==> #[trigger] file_bytes(
                        final(disk)@,
                        final(self).inner.inode,
                        ws[i].0,
                        ws[i].1.len() as int,
                    ) == ws[i].1
                    &&& forall|p: int|
                        #[trigger] untouched(old(disk)@, old(self).inner.inode, lo, span, rec, p) && !(lo / 1024 <= p / 1024
                            <= (lo + span - 1) / 1024) ==> file_byte(final(disk)@, final(self).inner.inode, p) == file_byte(
                            old(disk)@,
                            old(self).inner.inode,
                            p,
                        )
                }
            }),
            ({
                let ws = entry_append_writes(old(disk)@, old(self).inner.inode, child, name@);
                let rec = inode_record_offset(&icache.super_block, old(self).inode_number);
                name@.len() > 0 && ws.len() == 2 && ws[0].0 % 1024 + 8 + name@.len() <= 1024 && growable(
                    old(disk)@,
                    old(self).inner.inode,
                    icache,
                    ws[0].0,
                    8 + name@.len() as int,
                    rec,
                ) ==> entry_landed(final(disk)@, final(self).inner.inode, icache, ws[0].0, ws[0].1, name@)
            }),
    {
        let mut dentry_header = zeroed_bytes(8);
        let (offset, latest_rec_len, file_visited) = walk_to_last_dentry(self.inner.inode, disk, &mut dentry_header);
        self.append_after_walk(icache, disk, child, name, offset, latest_rec_len, file_visited, &dentry_header);
        Ok(())
    }

    /// One write of a sequence of writes within `[lo, lo + span)` of the file; when `track`
    /// holds and the range is mapped on `v0`, the disk keeps changing only within the range's
    /// data blocks and the inode record, and holds the bytes of `done` and of this write.
    fn write_part<D: BlockDriver>(
        &mut self,
        icache: &Ext2InodeCache,
        disk: &mut BlockCache<D>,
        o: u64,
        bytes: &[u8],
        Ghost(track): Ghost<bool>,
        Ghost(v0): Ghost<Seq<u8>>,
        Ghost(m): Ghost<Ext2Meta>,
        Ghost(lo): Ghost<int>,
        Ghost(span): Ghost<int>,
        Ghost(done): Ghost<Seq<(int, Seq<u8>)>>,
    ) -> (r: usize)
        requires
            old(disk).wf(),
            write_ok(icache, old(self).inode_number, old(disk)@.len() as int),
            o + bytes@.len() <= u32::MAX,
            track ==> {
                let rec = inode_record_offset(&icache.super_block, old(self).inode_number);
                &&& 0 <= lo
                &&& span > 0
                &&& lo + span <= u32::MAX
                &&& mapped_write(v0, m, lo, span, rec)
                &&& changed_within(v0, old(disk)@, m, lo / 1024, (lo + span - 1) / 1024, rec)
                &&& old(self).inner.inode.block == m.block
                &&& lo <= o
                &&& bytes@.len() > 0
                &&& o + bytes@.len() <= lo + span
                &&& holds_writes(v0, m, old(disk)@, done)
                &&& writes_apart(done, lo, span, o as int, bytes@.len() as int)
            },
        ensures
            final(disk).wf(),
            final(disk)@.len() == old(disk)@.len(),
            final(self).inode_number == old(self).inode_number,
            final(self).inner.inode.mode == old(self).inner.inode.mode,
            final(self).inner.inode.links_count == old(self).inner.inode.links_count,
            track ==> {
                let rec = inode_record_offset(&icache.super_block, old(self).inode_number);
                &&& changed_within(v0, final(disk)@, m, lo / 1024, (lo + span - 1) / 1024, rec)
                &&& holds_writes(v0, m, final(disk)@, done.push((o as int, bytes@)))
                &&& final(self).inner.inode.block == m.block
            },
            r <= bytes@.len(),
            ({
                let rec = inode_record_offset(&icache.super_block, old(self).inode_number);
                growable(old(disk)@, old(self).inner.inode, icache, o as int, bytes@.len() as int, rec) ==> {
                    &&& file_bytes(final(disk)@, final(self).inner.inode, o as int, r as int) == bytes@.subrange(0, r as int)
                    &&& r < bytes@.len() ==> blocks_full(final(disk)@, icache)
                    &&& grow_state(
                        old(disk)@,
                        final(disk)@,
                        old(self).inner.inode,
                        final(self).inner.inode,
                        icache,
                        rec,
                        o as int,
                        bytes@,
                        r as int,
                        r < bytes@.len(),
                    )
                }
            }),
            ({
                let rec = inode_record_offset(&icache.super_block, old(self).inode_number);
                bytes@.len() > 0 && mapped_write(old(disk)@, old(self).inner.inode, o as int, bytes@.len() as int, rec) ==> {
                    &&& r == bytes@.len()
                    &&& file_bytes(final(disk)@, final(self).inner.inode, o as int, bytes@.len() as int) == bytes@
                    &&& forall|p: int|
                        #[trigger] untouched(old(disk)@, old(self).inner.inode, o as int, bytes@.len() as int, rec, p)
                            ==> file_byte(final(disk)@, final(self).inner.inode, p) == file_byte(
                            old(disk)@,
                            old(self).inner.inode,
                            p,
                        )
                }
            }),
    {
        proof {
            if track {
                let rec = inode_record_offset(&icache.super_block, self.inode_number);
                lemma_frame_mapped(v0, disk@, m, self.inner.inode, lo, span, rec, o as int, bytes@.len() as int);
            }
        }
        let ghost d = disk@;
        let ghost m1 = self.inner.inode;
        let r = self.write(icache, disk, o, bytes);
        proof {
            if track {
                let rec = inode_record_offset(&icache.super_block, self.inode_number);
                lemma_append_step(v0, m, lo, span, rec, d, disk@, m1, o as int, bytes@, done);
            }
        }
        r
    }

    /// The writes of `append_dentry` once the walk to the last entry reached `offset`, with
    /// record length `latest_rec_len` and header `dentry_header` last read, and `file_visited`
    /// telling whether any entry was read: those of `dentry_append_writes`, made in order.
    pub(crate) fn append_after_walk<D: BlockDriver>(
        &mut self,
        icache: &Ext2InodeCache,
        disk: &mut BlockCache<D>,
        child: u32,
        name: &[u8],
        offset: u64,
        latest_rec_len: u64,
        file_visited: bool,
        dentry_header: &Vec<u8>,
    )
        requires
            old(disk).wf(),
            write_ok(icache, old(self).inode_number, old(disk)@.len() as int),
            dentry_header@.len() == 8,
            latest_rec_len <= offset,
            offset < 0x1_0000_0000 - 0x2_0000 - name@.len(),
        ensures
            final(disk).wf(),
            final(disk)@.len() == old(disk)@.len(),
            final(self).inode_number == old(self).inode_number,
            final(self).inner.inode.mode == old(self).inner.inode.mode,
            final(self).inner.inode.links_count == old(self).inner.inode.links_count,
            ({
                let ws = dentry_append_writes(
                    offset - latest_rec_len,
                    file_visited,
                    dentry_header@[6] as int,
                    child,
                    name@,
                );
                let lo = writes_low(ws);
                let span = writes_span(ws);
                let rec = inode_record_offset(&icache.super_block, old(self).inode_number);
                name@.len() > 0 && mapped_write(old(disk)@, old(self).inner.inode, lo, span, rec) ==> {
                    &&& forall|i: int| 0 <= i < ws.len() ==> #[trigger] file_bytes(
                        final(disk)@,
                        final(self).inner.inode,
                        ws[i].0,
                        ws[i].1.len() as int,
                    ) == ws[i].1
                    &&& forall|p: int|
                        #[trigger] untouched(old(disk)@, old(self).inner.inode, lo, span, rec, p) && !(lo / 1024 <= p / 1024
                            <= (lo + span - 1) / 1024) ==> file_byte(final(disk)@, final(self).inner.inode, p) == file_byte(
                            old(disk)@,
                            old(self).inner.inode,
                            p,
                        )
                }
            }),
            ({
                let ws = dentry_append_writes(
                    offset - latest_rec_len,
                    file_visited,
                    dentry_header@[6] as int,
                    child,
                    name@,
                );
                let rec = inode_record_offset(&icache.super_block, old(self).inode_number);
                name@.len() > 0 && ws.len() == 2 && ws[0].0 % 1024 + 8 + name@.len() <= 1024 && growable(
                    old(disk)@,
                    old(self).inner.inode,
                    icache,
                    ws[0].0,
                    8 + name@.len() as int,
                    rec,
                ) ==> entry_landed(final(disk)@, final(self).inner.inode, icache, ws[0].0, ws[0].1, name@)
            }),
    {
        let start_of_last_header = offset.saturating_sub(latest_rec_len);
        let within_block_offset = start_of_last_header % 1024;
        let ghost v0 = disk@;
        let ghost m = self.inner.inode;
        let ghost rec = inode_record_offset(&icache.super_block, self.inode_number);
        let ghost ws = dentry_append_writes(
            offset - latest_rec_len,
            file_visited,
            dentry_header@[6] as int,
            child,
            name@,
        );
        let ghost lo = writes_low(ws);
        let ghost span = writes_span(ws);
        let ghost track = name@.len() > 0 && mapped_write(v0, m, lo, span, rec);
        let ghost grow = name@.len() > 0 && ws.len() == 2 && ws[0].0 % 1024 + 8 + name@.len() <= 1024 && growable(
            v0,
            m,
            icache,
            ws[0].0,
            8 + name@.len() as int,
            rec,
        );
        proof {
            if track {
                assert(changed_within(v0, v0, m, lo / 1024, (lo + span - 1) / 1024, rec));
                assert(holds_writes(v0, m, v0, Seq::empty()));
            }
        }
        if !file_visited {
            let new_header = LinkedDirectoryEntryHeader {
                inode: child,
                rec_len: 1024,
                name_len: name.len() as u8,
                file_type: 0,
            };
            let bytes = new_header.to_bytes();
            proof {
                crate::subsystem::fs::ext2::raw::lemma_dentry_header_bytes_len(new_header);
                assert(new_header == new_entry_header(child, 1024, name@.len() as u8));
            }
            proof {
                if grow {
                    lemma_growable_head(v0, m, icache, start_of_last_header as int, name@.len() as int, rec);
                }
            }
            let r1 = self.write_part(icache, disk, start_of_last_header, bytes.as_slice(), Ghost(track), Ghost(v0), Ghost(m), Ghost(lo), Ghost(span), Ghost(Seq::empty()));
            let ghost d1 = disk@;
            let ghost m1 = self.inner.inode;
            let ghost done1 = Seq::<(int, Seq<u8>)>::empty().push((start_of_last_header as int, bytes@));
            let r2 = self.write_part(icache, disk, start_of_last_header + 8, name, Ghost(track), Ghost(v0), Ghost(m), Ghost(lo), Ghost(span), Ghost(done1));
            proof {
                assert(done1.push(((start_of_last_header + 8) as int, name@)) =~= ws);
                if grow {
                    lemma_append_grow(v0, d1, disk@, m, m1, self.inner.inode, icache, rec, start_of_last_header as int, bytes@, name@, r1 as int, r2 as int);
                }
            }
        } else {
            let current_name_len = dentry_header[6];
            let new_name_len = name.len();
            let necessary_size = new_name_len + 8;
            proof {
                lemma_align4((within_block_offset + current_name_len + 8) as usize);
                lemma_align4((start_of_last_header + current_name_len + 8) as usize);
                lemma_round4((within_block_offset + current_name_len + 8) as usize);
                lemma_round4((start_of_last_header + current_name_len + 8) as usize);
            }
            let next_available_offset = crate::allocators::align_up(
                within_block_offset as usize + current_name_len as usize + 8,
                4,
            ) as u64;
            let next_available_start: u64;
            let rec_len: u16;
            let ghost mut done: Seq<(int, Seq<u8>)> = Seq::empty();
            if next_available_offset + necessary_size as u64 <= 1024 {
                next_available_start = crate::allocators::align_up(
                    start_of_last_header as usize + current_name_len as usize + 8,
                    4,
                ) as u64;
                rec_len = (1024 - (next_available_start % 4)) as u16;
                let updated_prev_rec_len = (next_available_start - within_block_offset) as u16;
                let mut prev: Vec<u8> = Vec::new();
                prev.push((updated_prev_rec_len % 0x100) as u8);
                prev.push((updated_prev_rec_len / 0x100) as u8);
                proof {
                    assert(prev@ =~= ws[0].1);
                }
                self.write_part(icache, disk, start_of_last_header + 4, prev.as_slice(), Ghost(track), Ghost(v0), Ghost(m), Ghost(lo), Ghost(span), Ghost(done));
                proof {
                    done = done.push(((start_of_last_header + 4) as int, prev@));
                }
            } else {
                next_available_start = ((start_of_last_header / 1024) + 1) * 1024;
                rec_len = 1024;
            }
            let new_header = LinkedDirectoryEntryHeader {
                inode: child,
                rec_len,
                name_len: new_name_len as u8,
                file_type: 0,
            };
            let bytes = new_header.to_bytes();
            proof {
                crate::subsystem::fs::ext2::raw::lemma_dentry_header_bytes_len(new_header);
                assert(new_header == new_entry_header(child, rec_len, name@.len() as u8));
            }
            proof {
                if grow {
                    lemma_growable_head(v0, m, icache, next_available_start as int, name@.len() as int, rec);
                }
            }
            let r1 = self.write_part(icache, disk, next_available_start, bytes.as_slice(), Ghost(track), Ghost(v0), Ghost(m), Ghost(lo), Ghost(span), Ghost(done));
            let ghost d1 = disk@;
            let ghost m1 = self.inner.inode;
            let ghost done2 = done.push((next_available_start as int, bytes@));
            let r2 = self.write_part(icache, disk, next_available_start + 8, name, Ghost(track), Ghost(v0), Ghost(m), Ghost(lo), Ghost(span), Ghost(done2));
            proof {
                assert(done2.push(((next_available_start + 8) as int, name@)) =~= ws);
                if grow {
                    lemma_append_grow(v0, d1, disk@, m, m1, self.inner.inode, icache, rec, next_available_start as int, bytes@, name@, r1 as int, r2 as int);
                }
            }
        }
        proof {
            if track {
                assert forall|i: int| 0 <= i < ws.len() implies #[trigger] file_bytes(disk@, self.inner.inode, ws[i].0, ws[i].1.len() as int)
                    == ws[i].1 by {
                    lemma_append_result(v0, m, self.inner.inode, lo, span, rec, disk@, ws, i);
                }
                assert forall|p: int|
                    #[trigger] untouched(v0, m, lo, span, rec, p) && !(lo / 1024 <= p / 1024 <= (lo + span - 1) / 1024)
                    implies file_byte(disk@, self.inner.inode, p) == file_byte(v0, m, p) by {
                    lemma_frame_outside(v0, disk@, m, self.inner.inode, lo, span, rec, p);
                }
            }
        }
    }

    /// Searches the directory for the entry named `name`, as the read cursor does.
    pub fn find_dentry_with_name<D: BlockDriver>(&mut self, disk: &mut BlockCache<D>, name: &[u8]) -> (r: Result<
        DentrySearchOutput,
        FsError,
    >)
        requires
            old(disk).wf(),
            file_walkable(old(disk)@, old(self).inner.inode),
            lookup_ok(old(disk)@, old(self).inner.inode, old(self).inner.location()),
            old(self).inner.offsets_bounded(),
        ensures
            final(disk).wf(),
            final(disk)@ == old(disk)@,
            final(self).inner.inode == old(self).inner.inode,
            final(self).inode_number == old(self).inode_number,
            r == if !mode_is_directory(old(self).inner.inode.mode) {
                Err(FsError::Unsupported)
            } else if lookup(old(disk)@, old(self).inner.inode, old(self).inner.location()) == 0 {
                Err(FsError::NoExist)
            } else {
                dentry_search(old(disk)@, old(self).inner.inode, name@, 0, 0, 0)
            },
    {
        self.inner.find_dentry_with_name(disk, name)
    }

    /// Reads the directory entry header at file offset `file_offset`.
    pub fn read_dentry_header<D: BlockDriver>(&mut self, disk: &mut BlockCache<D>, file_offset: u64) -> (r: Result<
        LinkedDirectoryEntryHeader,
        FsError,
    >)
        requires
            old(disk).wf(),
            file_offset < 0x1_0000_0000,
            file_walkable(old(disk)@, old(self).inner.inode),
        ensures
            final(disk).wf(),
            final(disk)@ == old(disk)@,
            final(self).inner.inode == old(self).inner.inode,
            final(self).inode_number == old(self).inode_number,
            r is Ok <==> file_offset + 8 <= old(self).inner.inode.size,
            r is Err ==> r == Err::<LinkedDirectoryEntryHeader, FsError>(FsError::EndOfFile),
            r matches Ok(h) ==> {
                let b = file_bytes(old(disk)@, old(self).inner.inode, file_offset as int, 8);
                &&& h.inode == le_u32(b, 0)
                &&& h.rec_len == le_u16(b, 4)
                &&& h.name_len == b[6]
                &&& h.file_type == b[7]
            },
    {
        self.inner.read_dentry_header(disk, file_offset)
    }

    /// Reads the directory entry header at `file_offset`, hands it to `func`, and writes back
    /// the header `func` returns.
    pub fn rmw_dentry_header<D: BlockDriver, F: FnOnce(LinkedDirectoryEntryHeader) -> LinkedDirectoryEntryHeader>(
        &mut self,
        icache: &Ext2InodeCache,
        disk: &mut BlockCache<D>,
        file_offset: u64,
        func: F,
    ) -> (r: Result<(), FsError>)
        requires
            old(disk).wf(),
            write_ok(icache, old(self).inode_number, old(disk)@.len() as int),
            file_walkable(old(disk)@, old(self).inner.inode),
            file_offset + 8 <= u32::MAX,
            forall|h: LinkedDirectoryEntryHeader| #[trigger] call_requires(func, (h,)),
        ensures
            final(disk).wf(),
            final(disk)@.len() == old(disk)@.len(),
            final(self).inode_number == old(self).inode_number,
            r is Ok <==> file_offset + 8 <= old(self).inner.inode.size,
            r is Err ==> r == Err::<(), FsError>(FsError::EndOfFile) && final(disk)@ == old(disk)@,
            final(self).inner.inode.size == old(self).inner.inode.size,
            final(self).inner.inode.mode == old(self).inner.inode.mode,
            r is Ok && mapped_write(
                old(disk)@,
                old(self).inner.inode,
                file_offset as int,
                8,
                inode_record_offset(&icache.super_block, old(self).inode_number),
            ) ==> exists|h: LinkedDirectoryEntryHeader|
                #[trigger] call_ensures(func, (header_at(old(disk)@, old(self).inner.inode, file_offset as int),), h)
                && file_bytes(final(disk)@, final(self).inner.inode, file_offset as int, 8) == dentry_header_bytes(h),
            r is Ok && mapped_write(
                old(disk)@,
                old(self).inner.inode,
                file_offset as int,
                8,
                inode_record_offset(&icache.super_block, old(self).inode_number),
            ) ==> forall|p: int|
                #[trigger] untouched(
                    old(disk)@,
                    old(self).inner.inode,
                    file_offset as int,
                    8,
                    inode_record_offset(&icache.super_block, old(self).inode_number),
                    p,
                ) ==> file_byte(final(disk)@, final(self).inner.inode, p) == file_byte(old(disk)@, old(self).inner.inode, p),
    {
        let dentry_header = match self.inner.read_dentry_header(disk, file_offset) {
            Err(e) => {
                return Err(e);
            },
            Ok(h) => h,
        };
        proof {
            assert(dentry_header == header_at(old(disk)@, old(self).inner.inode, file_offset as int));
        }
        let modified = func(dentry_header);
        let bytes = modified.to_bytes();
        proof {
            crate::subsystem::fs::ext2::raw::lemma_dentry_header_bytes_len(modified);
        }
        self.write(icache, disk, file_offset, bytes.as_slice());
        Ok(())
    }
}

} // verus!

verus! {

use crate::subsystem::fs::ext2::inode::Ext2Meta as Meta;

/// The directory entry header that the file holds at byte `off`.
pub open spec fn header_at(v: Seq<u8>, meta: Meta, off: int) -> LinkedDirectoryEntryHeader {
    let b = file_bytes(v, meta, off, 8);
    LinkedDirectoryEntryHeader {
        inode: le_u32(b, 0) as u32,
        rec_len: le_u16(b, 4) as u16,
        name_len: b[6],
        file_type: b[7],
    }
}

/// Whether block `b` is one of the indirect blocks that the lookup of file block `n` reads.
pub open spec fn on_path(v: Seq<u8>, meta: Meta, n: u32, b: u32) -> bool {
    let loc = locate(n);
    let top = meta.block[loc.top as int];
    if loc.top < 12 {
        false
    } else if loc.top == 12 {
        b == top
    } else if loc.top == 13 {
        b == top || b == ptr_at(v, top, loc.l2.0)
    } else {
        b == top || b == ptr_at(v, top, loc.l3.0) || b == ptr_at(v, ptr_at(v, top, loc.l3.0), loc.l3.1)
    }
}

/// Whether byte `j` of the disk lies in block `b`.
pub open spec fn in_block(j: int, b: u32) -> bool {
    b * 1024 <= j < b * 1024 + 1024
}

/// Whether byte `j` lies in the data block of one of the file blocks `first..=last`.
pub open spec fn in_data_blocks(v: Seq<u8>, meta: Meta, first: int, last: int, j: int) -> bool {
    exists|n: int| first <= n <= last && #[trigger] in_block(j, data_block(v, meta, n as u32))
}

/// Whether a write of `len` bytes from file offset `offset` only goes to blocks the file
/// already has: each file block it touches is mapped and on the disk, no two of them share a
/// data block, no data block among them is an indirect block the lookups read, and none of
/// these blocks meets the inode record at `rec`.
#[verifier::opaque]
pub open spec fn mapped_write(v: Seq<u8>, meta: Meta, offset: int, len: int, rec: int) -> bool {
    let first = offset / 1024;
    let last = (offset + len - 1) / 1024;
    &&& forall|n: int| first <= n <= last ==> #[trigger] block_ok(v, meta, n) && data_block(v, meta, n as u32) != 0
    &&& forall|n: int, m: int| first <= n <= last && first <= m <= last && n != m ==> #[trigger] data_block(v, meta, n as u32)
        != #[trigger] data_block(v, meta, m as u32)
    &&& forall|n: int, m: int| first <= n <= last && first <= m <= last ==> !on_path(v, meta, m as u32, #[trigger] data_block(v, meta, n as u32))
        && #[trigger] block_ok(v, meta, m)
    &&& forall|n: int| first <= n <= last ==> !(#[trigger] in_block(rec, data_block(v, meta, n as u32)))
        && data_block(v, meta, n as u32) * 1024 + 1024 <= rec || rec + 128 <= data_block(v, meta, n as u32) * 1024
    &&& forall|n: int, b: u32| first <= n <= last && #[trigger] on_path(v, meta, n as u32, b) ==> b * 1024 + 1024 <= rec
        || rec + 128 <= b * 1024
}

/// The slots of a block read through its first 1024 bytes.
proof fn lemma_ptr_frame(v: Seq<u8>, w: Seq<u8>, b: u32, idx: u32)
    requires
        idx < 256,
        w.len() == v.len(),
        forall|j: int| #[trigger] in_block(j, b) ==> 0 <= j < v.len() ==> w[j] == v[j],
        ptr_ok(v, b, idx),
    ensures
        ptr_at(w, b, idx) == ptr_at(v, b, idx),
        ptr_ok(w, b, idx),
{
    let p = b * 1024 + idx * 4;
    assert(in_block(p, b) && in_block(p + 1, b) && in_block(p + 2, b) && in_block(p + 3, b));
}

/// A lookup reads the same data block from `w` as from `v` when the indirect blocks on its
/// path have the same bytes in both.
proof fn lemma_lookup_frame(v: Seq<u8>, w: Seq<u8>, meta: Meta, n: u32)
    requires
        n < 0x40_0000,
        w.len() == v.len(),
        lookup_ok(v, meta, locate(n)),
        forall|b: u32, j: int| #[trigger] on_path(v, meta, n, b) && #[trigger] in_block(j, b) && 0 <= j < v.len() ==> w[j] == v[j],
    ensures
        lookup_ok(w, meta, locate(n)),
        data_block(w, meta, n) == data_block(v, meta, n),
        forall|b: u32| on_path(w, meta, n, b) == on_path(v, meta, n, b),
{
    let loc = locate(n);
    let top = meta.block[loc.top as int];
    let p = POINTERS_PER_BLOCK as int;
    assert(loc.l1 < 256 && loc.l2.0 < 256 && loc.l2.1 < 256 && loc.l3.0 < 256 && loc.l3.1 < 256 && loc.l3.2 < 256) by {
        if n >= 12 && n - 12 >= p && n - 12 >= (p + 1) * p {
            let i = n - (p + 1) * p - 12;
            assert(i / (p * p) < 256 && (i % (p * p)) / p < 256 && i % p < 256) by (nonlinear_arith)
                requires
                    p == 256,
                    0 <= i < 0x40_0000,
            ;
        } else if n >= 12 && n - 12 >= p {
            let i = n - p - 12;
            assert(i / p < 256 && i % p < 256) by (nonlinear_arith)
                requires
                    p == 256,
                    0 <= i < (p + 1) * p - p,
            ;
        }
    }
    if loc.top == 12 {
        assert(on_path(v, meta, n, top));
        lemma_ptr_frame(v, w, top, loc.l1);
    } else if loc.top == 13 {
        let mid = ptr_at(v, top, loc.l2.0);
        assert(on_path(v, meta, n, top));
        lemma_ptr_frame(v, w, top, loc.l2.0);
        assert(on_path(v, meta, n, mid));
        lemma_ptr_frame(v, w, mid, loc.l2.1);
    } else if loc.top == 14 {
        let a = ptr_at(v, top, loc.l3.0);
        assert(on_path(v, meta, n, top));
        lemma_ptr_frame(v, w, top, loc.l3.0);
        let c = ptr_at(v, a, loc.l3.1);
        assert(on_path(v, meta, n, a));
        lemma_ptr_frame(v, w, a, loc.l3.1);
        assert(on_path(v, meta, n, c));
        lemma_ptr_frame(v, w, c, loc.l3.2);
    }
}


/// Whether `d` holds byte `k` of `buf` for every `k < hw`, at the place in the data blocks
/// of `v0` where file offset `offset + k` lies.
pub open spec fn written_so_far(v0: Seq<u8>, d: Seq<u8>, meta: Meta, offset: int, buf: Seq<u8>, hw: int) -> bool {
    forall|k: int| 0 <= k < hw ==> d[data_block(v0, meta, ((offset + k) / 1024) as u32) * 1024 + (offset + k) % 1024]
        == #[trigger] buf[k]
}

/// Where byte `k` of a write from file offset `offset` goes in the data blocks of `v0`.
pub open spec fn write_pos(v0: Seq<u8>, meta: Meta, offset: int, k: int) -> int {
    data_block(v0, meta, ((offset + k) / 1024) as u32) * 1024 + (offset + k) % 1024
}

/// Whether byte `j` of the disk is where one of the `len` bytes of such a write goes.
pub open spec fn written_at(v0: Seq<u8>, meta: Meta, offset: int, len: int, j: int) -> bool {
    exists|k: int| 0 <= k < len && #[trigger] write_pos(v0, meta, offset, k) == j
}

/// Whether `d` has the bytes of `v0` wherever the write puts none of its bytes.
pub open spec fn kept_unwritten(v0: Seq<u8>, d: Seq<u8>, meta: Meta, offset: int, len: int) -> bool {
    &&& d.len() == v0.len()
    &&& forall|j: int| 0 <= j < v0.len() && !#[trigger] written_at(v0, meta, offset, len, j) ==> d[j] == v0[j]
}

/// Whether byte `p` of the file lies outside a mapped write of `len` bytes from `offset` and
/// shares nothing with it: its file block is not one the write touches, or is one but `p`
/// lies outside the bytes written; neither its data block (unless it is its own) nor an
/// indirect block on its lookup is a data block the write touches; and neither meets the
/// inode record at `rec`.
pub open spec fn untouched(v: Seq<u8>, meta: Meta, offset: int, len: int, rec: int, p: int) -> bool {
    let n = p / 1024;
    let first = offset / 1024;
    let last = (offset + len - 1) / 1024;
    &&& 0 <= p < 0x1_0000_0000
    &&& !(offset <= p < offset + len)
    &&& block_ok(v, meta, n)
    &&& forall|q: int| first <= q <= last && #[trigger] data_block(v, meta, q as u32) == data_block(v, meta, n as u32) ==> q == n
    &&& forall|q: int, b: u32| first <= q <= last && #[trigger] on_path(v, meta, n as u32, b) ==> b != #[trigger] data_block(
        v,
        meta,
        q as u32,
    )
    &&& data_block(v, meta, n as u32) != 0 ==> data_block(v, meta, n as u32) * 1024 + 1024 <= rec || rec + 128
        <= data_block(v, meta, n as u32) * 1024
    &&& forall|b: u32| #[trigger] on_path(v, meta, n as u32, b) ==> b * 1024 + 1024 <= rec || rec + 128 <= b * 1024
}

/// Whether `d` has the bytes of `v0` outside the data blocks of file blocks `first..=last`.
pub open spec fn kept_outside(v0: Seq<u8>, d: Seq<u8>, meta: Meta, first: int, last: int) -> bool {
    &&& d.len() == v0.len()
    &&& forall|j: int| 0 <= j < v0.len() && !#[trigger] in_data_blocks(v0, meta, first, last, j) ==> d[j] == v0[j]
}

/// One chunk of a mapped write: `tw` bytes of `buf` from `hw` on go to file block `n`, at
/// `boff` within its data block.
proof fn lemma_chunk_step(
    v0: Seq<u8>,
    d: Seq<u8>,
    d2: Seq<u8>,
    meta: Meta,
    offset: int,
    buf: Seq<u8>,
    rec: int,
    hw: int,
    n: int,
    boff: int,
    tw: int,
)
    requires
        0 <= offset,
        buf.len() > 0,
        offset + buf.len() <= u32::MAX,
        mapped_write(v0, meta, offset, buf.len() as int, rec),
        offset / 1024 <= n <= (offset + buf.len() - 1) / 1024,
        offset + hw == n * 1024 + boff,
        0 <= boff,
        0 < tw,
        boff + tw <= 1024,
        0 <= hw,
        hw + tw <= buf.len(),
        hw > 0 ==> boff == 0,
        kept_outside(v0, d, meta, offset / 1024, (offset + buf.len() - 1) / 1024),
        written_so_far(v0, d, meta, offset, buf, hw),
        kept_unwritten(v0, d, meta, offset, buf.len() as int),
        data_block(v0, meta, n as u32) * 1024 + 1024 <= d.len(),
        d2 == d.subrange(0, data_block(v0, meta, n as u32) * 1024 + boff) + buf.subrange(hw, hw + tw) + d.subrange(
            data_block(v0, meta, n as u32) * 1024 + boff + tw,
            d.len() as int,
        ),
    ensures
        kept_outside(v0, d2, meta, offset / 1024, (offset + buf.len() - 1) / 1024),
        written_so_far(v0, d2, meta, offset, buf, hw + tw),
        kept_unwritten(v0, d2, meta, offset, buf.len() as int),
{
    reveal(mapped_write);
    let first = offset / 1024;
    let last = (offset + buf.len() - 1) / 1024;
    let blk = data_block(v0, meta, n as u32);
    let start = blk * 1024 + boff;
    assert(d2.len() == d.len());
    assert forall|j: int| 0 <= j < v0.len() && !#[trigger] in_data_blocks(v0, meta, first, last, j) implies d2[j] == v0[j] by {
        if start <= j < start + tw {
            assert(in_block(j, blk));
            assert(in_data_blocks(v0, meta, first, last, j));
        }
    }
    assert forall|j: int| 0 <= j < v0.len() && !#[trigger] written_at(v0, meta, offset, buf.len() as int, j) implies d2[j]
        == v0[j] by {
        if start <= j < start + tw {
            let k = hw + (j - start);
            assert(write_pos(v0, meta, offset, k) == j);
        }
    }
    assert forall|k: int| 0 <= k < hw + tw implies d2[data_block(v0, meta, ((offset + k) / 1024) as u32) * 1024 + (offset + k)
        % 1024] == #[trigger] buf[k] by {
        let nk = (offset + k) / 1024;
        let pos = data_block(v0, meta, nk as u32) * 1024 + (offset + k) % 1024;
        assert(first <= nk <= last);
        assert(block_ok(v0, meta, nk));
        assert(0 <= pos < d.len());
        if k < hw {
            assert(d[pos] == buf[k]);
            assert(nk < n || (nk == n && (offset + k) % 1024 < boff));
            if nk < n {
                assert(first <= nk);
                assert(data_block(v0, meta, nk as u32) != data_block(v0, meta, n as u32));
                assert(!(start <= pos < start + tw));
            }
        } else {
            assert(nk == n);
            assert((offset + k) % 1024 == boff + (k - hw));
            assert(d2[pos] == buf.subrange(hw, hw + tw)[k - hw]);
        }
    }
}


/// While a mapped write keeps the bytes outside the data blocks it writes, the lookups of the
/// file blocks it covers find the same data blocks.
proof fn lemma_mapped_lookup(v0: Seq<u8>, d: Seq<u8>, meta: Meta, offset: int, len: int, rec: int, n: int)
    requires
        0 <= offset,
        len > 0,
        offset + len <= u32::MAX,
        mapped_write(v0, meta, offset, len, rec),
        kept_outside(v0, d, meta, offset / 1024, (offset + len - 1) / 1024),
        offset / 1024 <= n <= (offset + len - 1) / 1024,
    ensures
        lookup_ok(d, meta, locate(n as u32)),
        data_block(d, meta, n as u32) == data_block(v0, meta, n as u32),
        forall|b: u32| #[trigger] on_path(d, meta, n as u32, b) == on_path(v0, meta, n as u32, b),
{
    reveal(mapped_write);
    let first = offset / 1024;
    let last = (offset + len - 1) / 1024;
    assert(block_ok(v0, meta, n));
    assert forall|b: u32, j: int| #[trigger] on_path(v0, meta, n as u32, b) && #[trigger] in_block(j, b) && 0 <= j < v0.len()
        implies d[j] == v0[j] by {
        if in_data_blocks(v0, meta, first, last, j) {
            let n2 = choose|n2: int| first <= n2 <= last && #[trigger] in_block(j, data_block(v0, meta, n2 as u32));
            assert(b == data_block(v0, meta, n2 as u32));
            assert(!on_path(v0, meta, n as u32, data_block(v0, meta, n2 as u32)) && block_ok(v0, meta, n));
        }
    }
    lemma_lookup_frame(v0, d, meta, n as u32);
}

/// What a mapped write leaves readable: the bytes of `buf` from file offset `offset` on, also
/// after the inode record at `rec` is rewritten with the same block ids.
proof fn lemma_mapped_readback(v0: Seq<u8>, d: Seq<u8>, d2: Seq<u8>, meta: Meta, meta2: Meta, offset: int, buf: Seq<u8>, rec: int, data: Seq<u8>)
    requires
        0 <= offset,
        buf.len() > 0,
        offset + buf.len() <= u32::MAX,
        mapped_write(v0, meta, offset, buf.len() as int, rec),
        kept_outside(v0, d, meta, offset / 1024, (offset + buf.len() - 1) / 1024),
        written_so_far(v0, d, meta, offset, buf, buf.len() as int),
        meta2.block == meta.block,
        d2 == d || (data.len() == 128 && 0 <= rec && rec + 128 <= d.len() && d2 == d.subrange(0, rec) + data + d.subrange(
            rec + 128,
            d.len() as int,
        )),
    ensures
        file_bytes(d2, meta2, offset, buf.len() as int) == buf,
{
    reveal(mapped_write);
    let first = offset / 1024;
    let last = (offset + buf.len() - 1) / 1024;
    assert forall|k: int| 0 <= k < buf.len() implies #[trigger] file_bytes(d2, meta2, offset, buf.len() as int)[k] == buf[k] by {
        let n = (offset + k) / 1024;
        assert(first <= n <= last);
        lemma_mapped_lookup(v0, d, meta, offset, buf.len() as int, rec, n);
        assert(block_ok(v0, meta, n));
        let blk = data_block(v0, meta, n as u32);
        assert(buf[k] == d[blk * 1024 + (offset + k) % 1024]);
        if d2 != d {
            assert(d2.len() == d.len());
            assert forall|b: u32, j: int| #[trigger] on_path(d, meta, n as u32, b) && #[trigger] in_block(j, b) && 0 <= j < d.len()
                implies d2[j] == d[j] by {
                assert(on_path(v0, meta, n as u32, b));
                assert(b * 1024 + 1024 <= rec || rec + 128 <= b * 1024);
            }
            lemma_lookup_frame(d, d2, meta, n as u32);
            assert(in_block(rec, blk) == false);
            assert(blk * 1024 + 1024 <= rec || rec + 128 <= blk * 1024);
            assert(d2[blk * 1024 + (offset + k) % 1024] == d[blk * 1024 + (offset + k) % 1024]);
        }
        assert(data_block(d2, meta2, n as u32) == data_block(d2, meta, n as u32));
    }
    assert(file_bytes(d2, meta2, offset, buf.len() as int) =~= buf);
}


/// A byte that a mapped write shares nothing with reads the same after it, also after the
/// inode record at `rec` is rewritten with the same block ids.
proof fn lemma_mapped_untouched(
    v0: Seq<u8>,
    d: Seq<u8>,
    d2: Seq<u8>,
    meta: Meta,
    meta2: Meta,
    offset: int,
    len: int,
    rec: int,
    data: Seq<u8>,
    p: int,
)
    requires
        0 <= offset,
        len > 0,
        offset + len <= u32::MAX,
        mapped_write(v0, meta, offset, len, rec),
        kept_outside(v0, d, meta, offset / 1024, (offset + len - 1) / 1024),
        kept_unwritten(v0, d, meta, offset, len),
        meta2.block == meta.block,
        d2 == d || (data.len() == 128 && 0 <= rec && rec + 128 <= d.len() && d2 == d.subrange(0, rec) + data + d.subrange(
            rec + 128,
            d.len() as int,
        )),
        untouched(v0, meta, offset, len, rec, p),
    ensures
        file_byte(d2, meta2, p) == file_byte(v0, meta, p),
{
    reveal(mapped_write);
    let n = p / 1024;
    let first = offset / 1024;
    let last = (offset + len - 1) / 1024;
    assert(n < 0x40_0000);
    assert forall|b: u32, j: int| #[trigger] on_path(v0, meta, n as u32, b) && #[trigger] in_block(j, b) && 0 <= j < v0.len()
        implies d[j] == v0[j] by {
        if written_at(v0, meta, offset, len, j) {
            let k = choose|k: int| 0 <= k < len && #[trigger] write_pos(v0, meta, offset, k) == j;
            let q = (offset + k) / 1024;
            assert(first <= q <= last);
            assert(block_ok(v0, meta, q));
            assert(in_block(j, data_block(v0, meta, q as u32)));
            assert(b != data_block(v0, meta, q as u32));
        }
    }
    lemma_lookup_frame(v0, d, meta, n as u32);
    let blk = data_block(v0, meta, n as u32);
    if blk != 0 {
        let pos = blk * 1024 + p % 1024;
        assert(0 <= pos < v0.len());
        if written_at(v0, meta, offset, len, pos) {
            let k = choose|k: int| 0 <= k < len && #[trigger] write_pos(v0, meta, offset, k) == pos;
            let q = (offset + k) / 1024;
            assert(first <= q <= last);
            assert(block_ok(v0, meta, q));
            assert(data_block(v0, meta, q as u32) == blk);
            assert(q == n);
            assert(p == offset + k);
        }
        assert(d[pos] == v0[pos]);
    }
    if d2 != d {
        assert forall|b: u32, j: int| #[trigger] on_path(d, meta, n as u32, b) && #[trigger] in_block(j, b) && 0 <= j < d.len()
            implies d2[j] == d[j] by {
            assert(on_path(v0, meta, n as u32, b));
        }
        lemma_lookup_frame(d, d2, meta, n as u32);
        if blk != 0 {
            assert(d2[blk * 1024 + p % 1024] == d[blk * 1024 + p % 1024]);
        }
    }
    assert(data_block(d2, meta2, n as u32) == data_block(d2, meta, n as u32));
}


/// Whether `v` differs from `v0` only within the data blocks that file blocks `first..=last`
/// have in `v0`, and within the inode record at `rec`.
pub open spec fn changed_within(v0: Seq<u8>, v: Seq<u8>, meta: Meta, first: int, last: int, rec: int) -> bool {
    &&& v.len() == v0.len()
    &&& forall|j: int| 0 <= j < v0.len() && v[j] != v0[j] ==> #[trigger] in_data_blocks(v0, meta, first, last, j) || rec <= j
        < rec + 128
}

/// Whether `v` differs from `v0` only where a write of `len` bytes from file offset `offset`
/// puts them, and within the inode record at `rec`.
pub open spec fn changed_only_at(v0: Seq<u8>, v: Seq<u8>, meta: Meta, offset: int, len: int, rec: int) -> bool {
    &&& v.len() == v0.len()
    &&& forall|j: int| 0 <= j < v0.len() && v[j] != v0[j] ==> #[trigger] written_at(v0, meta, offset, len, j) || rec <= j
        < rec + 128
}

/// What a mapped write leaves on the disk: the bytes of `buf` where it puts them, and the
/// rest as it was outside its data blocks and the inode record.
proof fn lemma_mapped_frame(v0: Seq<u8>, d: Seq<u8>, d2: Seq<u8>, meta: Meta, offset: int, buf: Seq<u8>, rec: int, data: Seq<u8>)
    requires
        0 <= offset,
        buf.len() > 0,
        offset + buf.len() <= u32::MAX,
        mapped_write(v0, meta, offset, buf.len() as int, rec),
        kept_outside(v0, d, meta, offset / 1024, (offset + buf.len() - 1) / 1024),
        kept_unwritten(v0, d, meta, offset, buf.len() as int),
        written_so_far(v0, d, meta, offset, buf, buf.len() as int),
        d2 == d || (data.len() == 128 && 0 <= rec && rec + 128 <= d.len() && d2 == d.subrange(0, rec) + data + d.subrange(
            rec + 128,
            d.len() as int,
        )),
    ensures
        changed_within(v0, d2, meta, offset / 1024, (offset + buf.len() - 1) / 1024, rec),
        changed_only_at(v0, d2, meta, offset, buf.len() as int, rec),
        forall|k: int| 0 <= k < buf.len() ==> d2[#[trigger] write_pos(v0, meta, offset, k)] == buf[k],
{
    reveal(mapped_write);
    let first = offset / 1024;
    let last = (offset + buf.len() - 1) / 1024;
    assert forall|j: int| 0 <= j < v0.len() && d2[j] != v0[j] implies #[trigger] in_data_blocks(v0, meta, first, last, j)
        || rec <= j < rec + 128 by {
        if !in_data_blocks(v0, meta, first, last, j) && !(rec <= j < rec + 128) {
            assert(d[j] == v0[j]);
        }
    }
    assert forall|j: int| 0 <= j < v0.len() && d2[j] != v0[j] implies #[trigger] written_at(v0, meta, offset, buf.len() as int, j)
        || rec <= j < rec + 128 by {
        if !written_at(v0, meta, offset, buf.len() as int, j) && !(rec <= j < rec + 128) {
            assert(d[j] == v0[j]);
        }
    }
    assert forall|k: int| 0 <= k < buf.len() implies d2[#[trigger] write_pos(v0, meta, offset, k)] == buf[k] by {
        let n = (offset + k) / 1024;
        assert(first <= n <= last);
        assert(block_ok(v0, meta, n));
        let blk = data_block(v0, meta, n as u32);
        let _ = in_block(rec, blk);
        assert(blk * 1024 + 1024 <= rec || rec + 128 <= blk * 1024);
        assert(d[write_pos(v0, meta, offset, k)] == buf[k]);
    }
}


/// Where byte `p` of the file lies on the disk `v`.
pub open spec fn fpos(v: Seq<u8>, meta: Meta, p: int) -> int {
    data_block(v, meta, (p / 1024) as u32) * 1024 + p % 1024
}

/// While the disk changes only within the data blocks of a mapped range and the inode
/// record, the lookups of the range's file blocks find the same blocks, also through an
/// inode with the same block ids.
proof fn lemma_frame_lookup(v0: Seq<u8>, v: Seq<u8>, m: Meta, m2: Meta, lo: int, len: int, rec: int, n: int)
    requires
        0 <= lo,
        len > 0,
        lo + len <= u32::MAX,
        mapped_write(v0, m, lo, len, rec),
        changed_within(v0, v, m, lo / 1024, (lo + len - 1) / 1024, rec),
        m2.block == m.block,
        lo / 1024 <= n <= (lo + len - 1) / 1024,
    ensures
        lookup_ok(v, m2, locate(n as u32)),
        data_block(v, m2, n as u32) == data_block(v0, m, n as u32),
        block_ok(v, m2, n),
        forall|b: u32| #[trigger] on_path(v, m2, n as u32, b) == on_path(v0, m, n as u32, b),
{
    reveal(mapped_write);
    let first = lo / 1024;
    let last = (lo + len - 1) / 1024;
    assert(block_ok(v0, m, n));
    assert forall|b: u32, j: int| #[trigger] on_path(v0, m, n as u32, b) && #[trigger] in_block(j, b) && 0 <= j < v0.len()
        implies v[j] == v0[j] by {
        if v[j] != v0[j] {
            if in_data_blocks(v0, m, first, last, j) {
                let n2 = choose|n2: int| first <= n2 <= last && #[trigger] in_block(j, data_block(v0, m, n2 as u32));
                assert(b == data_block(v0, m, n2 as u32));
                assert(!on_path(v0, m, n as u32, data_block(v0, m, n2 as u32)) && block_ok(v0, m, n));
            } else {
                assert(b * 1024 + 1024 <= rec || rec + 128 <= b * 1024);
            }
        }
    }
    lemma_lookup_frame(v0, v, m, n as u32);
    assert(data_block(v, m2, n as u32) == data_block(v, m, n as u32));
    assert(lookup_ok(v, m2, locate(n as u32)) == lookup_ok(v, m, locate(n as u32)));
    assert forall|b: u32| #[trigger] on_path(v, m2, n as u32, b) == on_path(v0, m, n as u32, b) by {
        assert(on_path(v, m2, n as u32, b) == on_path(v, m, n as u32, b));
    }
}

/// What a mapped range says of its file blocks `n` and `q`.
proof fn lemma_mapped_facts(v0: Seq<u8>, m: Meta, lo: int, len: int, rec: int, n: int, q: int)
    requires
        mapped_write(v0, m, lo, len, rec),
        lo / 1024 <= n <= (lo + len - 1) / 1024,
        lo / 1024 <= q <= (lo + len - 1) / 1024,
    ensures
        block_ok(v0, m, n),
        data_block(v0, m, n as u32) != 0,
        n != q ==> data_block(v0, m, n as u32) != data_block(v0, m, q as u32),
        !on_path(v0, m, q as u32, data_block(v0, m, n as u32)),
        data_block(v0, m, n as u32) * 1024 + 1024 <= rec || rec + 128 <= data_block(v0, m, n as u32) * 1024,
        forall|b: u32| #[trigger] on_path(v0, m, n as u32, b) ==> b * 1024 + 1024 <= rec || rec + 128 <= b * 1024,
{
    reveal(mapped_write);
    assert(block_ok(v0, m, n));
    assert(block_ok(v0, m, q));
    let _ = in_block(rec, data_block(v0, m, n as u32));
}

/// A part of a mapped range is a mapped range too, on any disk that changed only within
/// the range's data blocks and the inode record.
#[verifier::spinoff_prover]
#[verifier::rlimit(100)]
proof fn lemma_frame_mapped(v0: Seq<u8>, v: Seq<u8>, m: Meta, m2: Meta, lo: int, len: int, rec: int, o: int, l: int)
    requires
        0 <= lo,
        len > 0,
        lo + len <= u32::MAX,
        mapped_write(v0, m, lo, len, rec),
        changed_within(v0, v, m, lo / 1024, (lo + len - 1) / 1024, rec),
        m2.block == m.block,
        lo <= o,
        0 < l,
        o + l <= lo + len,
    ensures
        mapped_write(v, m2, o, l, rec),
{
    let first = lo / 1024;
    let last = (lo + len - 1) / 1024;
    let f2 = o / 1024;
    let l2 = (o + l - 1) / 1024;
    assert(first <= f2 <= l2 <= last) by (nonlinear_arith)
        requires
            0 <= lo <= o,
            0 < l,
            o + l <= lo + len,
            first == lo / 1024,
            last == (lo + len - 1) / 1024,
            f2 == o / 1024,
            l2 == (o + l - 1) / 1024,
    ;
    assert forall|n: int, q: int|
        #![trigger data_block(v, m2, n as u32), data_block(v, m2, q as u32)]
        f2 <= n <= l2 && f2 <= q <= l2 implies {
        &&& block_ok(v, m2, n)
        &&& data_block(v, m2, n as u32) != 0
        &&& n != q ==> data_block(v, m2, n as u32) != data_block(v, m2, q as u32)
        &&& !on_path(v, m2, q as u32, data_block(v, m2, n as u32))
        &&& data_block(v, m2, n as u32) * 1024 + 1024 <= rec || rec + 128 <= data_block(v, m2, n as u32) * 1024
        &&& forall|b: u32| #[trigger] on_path(v, m2, n as u32, b) ==> b * 1024 + 1024 <= rec || rec + 128 <= b * 1024
    } by {
        lemma_mapped_facts(v0, m, lo, len, rec, n, q);
        lemma_frame_lookup(v0, v, m, m2, lo, len, rec, n);
        lemma_frame_lookup(v0, v, m, m2, lo, len, rec, q);
        assert(on_path(v, m2, q as u32, data_block(v0, m, n as u32)) == on_path(v0, m, q as u32, data_block(v0, m, n as u32)));
    }
    assert(mapped_write(v, m2, o, l, rec)) by {
        reveal(mapped_write);
        assert forall|n: int| f2 <= n <= l2 implies #[trigger] block_ok(v, m2, n) && data_block(v, m2, n as u32) != 0 by {
            assert(f2 <= n <= l2 && f2 <= n <= l2);
        }
        assert forall|n: int, q: int| f2 <= n <= l2 && f2 <= q <= l2 && n != q implies #[trigger] data_block(v, m2, n as u32)
            != #[trigger] data_block(v, m2, q as u32) by {}
        assert forall|n: int, q: int| f2 <= n <= l2 && f2 <= q <= l2 implies !on_path(v, m2, q as u32, #[trigger] data_block(
            v,
            m2,
            n as u32,
        )) && #[trigger] block_ok(v, m2, q) by {
            lemma_mapped_facts(v0, m, lo, len, rec, n, q);
            lemma_frame_lookup(v0, v, m, m2, lo, len, rec, n);
            lemma_frame_lookup(v0, v, m, m2, lo, len, rec, q);
            assert(on_path(v, m2, q as u32, data_block(v0, m, n as u32)) == on_path(v0, m, q as u32, data_block(v0, m, n as u32)));
        }
        assert forall|n: int| f2 <= n <= l2 implies !(#[trigger] in_block(rec, data_block(v, m2, n as u32))) && data_block(
            v,
            m2,
            n as u32,
        ) * 1024 + 1024 <= rec || rec + 128 <= data_block(v, m2, n as u32) * 1024 by {
            assert(f2 <= n <= l2 && f2 <= n <= l2);
        }
        assert forall|n: int, b: u32| f2 <= n <= l2 && #[trigger] on_path(v, m2, n as u32, b) implies b * 1024 + 1024
            <= rec || rec + 128 <= b * 1024 by {
            lemma_mapped_facts(v0, m, lo, len, rec, n, n);
            lemma_frame_lookup(v0, v, m, m2, lo, len, rec, n);
            assert(on_path(v0, m, n as u32, b));
        }
    }
}

/// The bytes of a part of a mapped range go to the same places on any disk that changed
/// only within the range's data blocks and the inode record, and none of them lies in the
/// inode record.
proof fn lemma_frame_pos(v0: Seq<u8>, v: Seq<u8>, m: Meta, m2: Meta, lo: int, len: int, rec: int, o: int, l: int)
    requires
        0 <= lo,
        len > 0,
        lo + len <= u32::MAX,
        mapped_write(v0, m, lo, len, rec),
        changed_within(v0, v, m, lo / 1024, (lo + len - 1) / 1024, rec),
        m2.block == m.block,
        lo <= o,
        0 < l,
        o + l <= lo + len,
    ensures
        forall|k: int| 0 <= k < l ==> #[trigger] write_pos(v, m2, o, k) == write_pos(v0, m, o, k),
        forall|j: int| #[trigger] written_at(v, m2, o, l, j) == written_at(v0, m, o, l, j),
        forall|k: int| 0 <= k < l ==> 0 <= #[trigger] write_pos(v0, m, o, k) < v0.len() && !(rec <= write_pos(v0, m, o, k)
            < rec + 128),
{
    assert forall|k: int| 0 <= k < l implies #[trigger] write_pos(v, m2, o, k) == write_pos(v0, m, o, k) by {
        lemma_frame_lookup(v0, v, m, m2, lo, len, rec, (o + k) / 1024);
    }
    assert forall|j: int| #[trigger] written_at(v, m2, o, l, j) == written_at(v0, m, o, l, j) by {
        if written_at(v, m2, o, l, j) {
            let k = choose|k: int| 0 <= k < l && #[trigger] write_pos(v, m2, o, k) == j;
            lemma_frame_lookup(v0, v, m, m2, lo, len, rec, (o + k) / 1024);
            assert(write_pos(v0, m, o, k) == j);
        }
        if written_at(v0, m, o, l, j) {
            let k = choose|k: int| 0 <= k < l && #[trigger] write_pos(v0, m, o, k) == j;
            lemma_frame_lookup(v0, v, m, m2, lo, len, rec, (o + k) / 1024);
            assert(write_pos(v, m2, o, k) == j);
        }
    }
    assert forall|k: int| 0 <= k < l implies 0 <= #[trigger] write_pos(v0, m, o, k) < v0.len() && !(rec <= write_pos(
        v0,
        m,
        o,
        k,
    ) < rec + 128) by {
        reveal(mapped_write);
        let n = (o + k) / 1024;
        assert(block_ok(v0, m, n));
        let _ = in_block(rec, data_block(v0, m, n as u32));
    }
}

/// Two different bytes of a mapped range lie at different places on the disk.
proof fn lemma_pos_distinct(v0: Seq<u8>, m: Meta, lo: int, len: int, rec: int, p: int, q: int)
    requires
        0 <= lo,
        len > 0,
        lo + len <= u32::MAX,
        mapped_write(v0, m, lo, len, rec),
        lo <= p < lo + len,
        lo <= q < lo + len,
        p != q,
    ensures
        fpos(v0, m, p) != fpos(v0, m, q),
{
    reveal(mapped_write);
    let np = p / 1024;
    let nq = q / 1024;
    assert(block_ok(v0, m, np) && block_ok(v0, m, nq));
    if np != nq {
        assert(data_block(v0, m, np as u32) != data_block(v0, m, nq as u32));
    }
}

/// After changes only within a mapped range's data blocks and the inode record, a byte of
/// the range reads from where it lay.
proof fn lemma_frame_read(v0: Seq<u8>, v: Seq<u8>, m: Meta, m2: Meta, lo: int, len: int, rec: int, p: int)
    requires
        0 <= lo,
        len > 0,
        lo + len <= u32::MAX,
        mapped_write(v0, m, lo, len, rec),
        changed_within(v0, v, m, lo / 1024, (lo + len - 1) / 1024, rec),
        m2.block == m.block,
        lo <= p < lo + len,
    ensures
        file_byte(v, m2, p) == v[fpos(v0, m, p)],
{
    reveal(mapped_write);
    lemma_frame_lookup(v0, v, m, m2, lo, len, rec, p / 1024);
    assert(block_ok(v0, m, p / 1024));
}

/// After changes only within a mapped range's data blocks and the inode record, a byte of
/// another file block that shares nothing with the range reads as before.
proof fn lemma_frame_outside(v0: Seq<u8>, v: Seq<u8>, m: Meta, m2: Meta, lo: int, len: int, rec: int, p: int)
    requires
        0 <= lo,
        len > 0,
        lo + len <= u32::MAX,
        mapped_write(v0, m, lo, len, rec),
        changed_within(v0, v, m, lo / 1024, (lo + len - 1) / 1024, rec),
        m2.block == m.block,
        !(lo / 1024 <= p / 1024 <= (lo + len - 1) / 1024),
        untouched(v0, m, lo, len, rec, p),
    ensures
        file_byte(v, m2, p) == file_byte(v0, m, p),
{
    reveal(mapped_write);
    let n = p / 1024;
    let first = lo / 1024;
    let last = (lo + len - 1) / 1024;
    assert forall|b: u32, j: int| #[trigger] on_path(v0, m, n as u32, b) && #[trigger] in_block(j, b) && 0 <= j < v0.len()
        implies v[j] == v0[j] by {
        if v[j] != v0[j] {
            if in_data_blocks(v0, m, first, last, j) {
                let n2 = choose|n2: int| first <= n2 <= last && #[trigger] in_block(j, data_block(v0, m, n2 as u32));
                assert(b == data_block(v0, m, n2 as u32));
                assert(b != data_block(v0, m, n2 as u32));
            }
        }
    }
    lemma_lookup_frame(v0, v, m, n as u32);
    let blk = data_block(v0, m, n as u32);
    if blk != 0 {
        let pos = blk * 1024 + p % 1024;
        if v[pos] != v0[pos] {
            if in_data_blocks(v0, m, first, last, pos) {
                let n2 = choose|n2: int| first <= n2 <= last && #[trigger] in_block(pos, data_block(v0, m, n2 as u32));
                assert(data_block(v0, m, n2 as u32) == blk);
                assert(n2 == n);
            }
        }
    }
    assert(data_block(v, m2, n as u32) == data_block(v, m, n as u32));
}


/// Rounding up to a multiple of 4 with a mask is `round4`.
proof fn lemma_round4(x: usize)
    requires
        x + 4 <= usize::MAX,
    ensures
        ((x + 3) as usize & !3usize) == round4(x as int),
{
    let y = (x + 3) as usize;
    assert(y & !3usize == y - y % 4) by (bit_vector);
}

/// `x` rounded up to a multiple of 4.
pub open spec fn round4(x: int) -> int {
    (x + 3) / 4 * 4
}

/// The header of a new directory entry for inode `child` with a name of `name_len` bytes.
pub open spec fn new_entry_header(child: u32, rec_len: u16, name_len: u8) -> LinkedDirectoryEntryHeader {
    LinkedDirectoryEntryHeader { inode: child, rec_len, name_len, file_type: 0 }
}

/// The writes, as file offset and bytes, that append an entry for inode `child` named `name`
/// to a directory whose last entry header starts at `start` and has a name of `cur_name_len`
/// bytes (`visited` false: the directory has no entry yet, and the new one starts at `start`
/// and spans the block). When the new entry fits in the last entry's block after its name,
/// the last entry's record length is cut to end where the new entry starts; else the new
/// entry starts the next block.
pub open spec fn dentry_append_writes(start: int, visited: bool, cur_name_len: int, child: u32, name: Seq<u8>) -> Seq<(int, Seq<u8>)> {
    let nn = name.len();
    let wbo = start % 1024;
    if !visited {
        seq![(start, dentry_header_bytes(new_entry_header(child, 1024, nn as u8))), (start + 8, name)]
    } else if round4(wbo + cur_name_len + 8) + nn + 8 <= 1024 {
        let next = round4(start + cur_name_len + 8);
        let upd = (next - wbo) as u16;
        seq![
            (start + 4, seq![(upd % 0x100) as u8, (upd / 0x100) as u8]),
            (next, dentry_header_bytes(new_entry_header(child, (1024 - next % 4) as u16, nn as u8))),
            (next + 8, name),
        ]
    } else {
        let next = (start / 1024 + 1) * 1024;
        seq![(next, dentry_header_bytes(new_entry_header(child, 1024, nn as u8))), (next + 8, name)]
    }
}

/// The writes that append an entry for inode `child` named `name` to the directory `meta`
/// on disk `v`: after the last entry that the walk of `append_walk` reaches.
pub open spec fn entry_append_writes(v: Seq<u8>, meta: Meta, child: u32, name: Seq<u8>) -> Seq<(int, Seq<u8>)> {
    let (off, latest, hdr, visited) = append_walk(v, meta, 0, 0, 0, 0, Seq::new(8, |_i: int| 0u8), false);
    dentry_append_writes(off - latest, visited, hdr[6] as int, child, name)
}

/// The first file offset the writes `ws` touch.
pub open spec fn writes_low(ws: Seq<(int, Seq<u8>)>) -> int {
    ws[0].0
}

/// How many bytes from `writes_low` on the writes `ws` span, the last ending the span.
pub open spec fn writes_span(ws: Seq<(int, Seq<u8>)>) -> int {
    ws.last().0 + ws.last().1.len() - ws[0].0
}

/// Whether `d` holds the bytes of every write of `ws` where a mapped write on `v0` puts them.
pub open spec fn holds_writes(v0: Seq<u8>, m: Meta, d: Seq<u8>, ws: Seq<(int, Seq<u8>)>) -> bool {
    forall|i: int, k: int| 0 <= i < ws.len() && 0 <= k < ws[i].1.len() ==> d[write_pos(v0, m, ws[i].0, k)]
        == #[trigger] ws[i].1[k]
}

/// Whether each write of `ws` lies within `[lo, lo + span)` and none meets `[o, o + l)`.
pub open spec fn writes_apart(ws: Seq<(int, Seq<u8>)>, lo: int, span: int, o: int, l: int) -> bool {
    forall|i: int| 0 <= i < ws.len() ==> lo <= (#[trigger] ws[i]).0 && ws[i].0 + ws[i].1.len() <= lo + span && (ws[i].0
        + ws[i].1.len() <= o || o + l <= ws[i].0)
}

/// One write of a sequence of mapped writes within `[lo, lo + span)`: the disk still changed
/// only within the range's data blocks and the inode record.
#[verifier::spinoff_prover]
proof fn lemma_append_changed(
    v0: Seq<u8>,
    m: Meta,
    lo: int,
    span: int,
    rec: int,
    d: Seq<u8>,
    d2: Seq<u8>,
    m1: Meta,
    o: int,
    bytes: Seq<u8>,
    done: Seq<(int, Seq<u8>)>,
)
    requires
        0 <= lo,
        span > 0,
        lo + span <= u32::MAX,
        mapped_write(v0, m, lo, span, rec),
        changed_within(v0, d, m, lo / 1024, (lo + span - 1) / 1024, rec),
        m1.block == m.block,
        lo <= o,
        bytes.len() > 0,
        o + bytes.len() <= lo + span,
        holds_writes(v0, m, d, done),
        writes_apart(done, lo, span, o, bytes.len() as int),
        changed_only_at(d, d2, m1, o, bytes.len() as int, rec),
        forall|k: int| 0 <= k < bytes.len() ==> d2[#[trigger] write_pos(d, m1, o, k)] == bytes[k],
    ensures
        changed_within(v0, d2, m, lo / 1024, (lo + span - 1) / 1024, rec),
{
    let l = bytes.len() as int;
    let first = lo / 1024;
    let last = (lo + span - 1) / 1024;
    lemma_frame_pos(v0, d, m, m1, lo, span, rec, o, l);
    assert forall|j: int| 0 <= j < v0.len() && d2[j] != v0[j] implies #[trigger] in_data_blocks(v0, m, first, last, j) || rec
        <= j < rec + 128 by {
        if d2[j] != d[j] && !(rec <= j < rec + 128) {
            assert(written_at(d, m1, o, l, j));
            assert(written_at(v0, m, o, l, j));
            let k = choose|k: int| 0 <= k < l && #[trigger] write_pos(v0, m, o, k) == j;
            let n = (o + k) / 1024;
            assert(first <= n <= last) by (nonlinear_arith)
                requires
                    0 <= lo <= o,
                    0 <= k < l,
                    o + l <= lo + span,
                    first == lo / 1024,
                    last == (lo + span - 1) / 1024,
                    n == (o + k) / 1024,
            ;
            assert(in_block(j, data_block(v0, m, n as u32)));
        }
    }
}

/// A byte of an earlier write of a sequence of mapped writes stays where it was put.
#[verifier::spinoff_prover]
proof fn lemma_append_kept_byte(
    v0: Seq<u8>,
    m: Meta,
    lo: int,
    span: int,
    rec: int,
    d: Seq<u8>,
    d2: Seq<u8>,
    m1: Meta,
    o: int,
    l: int,
    w: (int, Seq<u8>),
    k: int,
)
    requires
        0 <= lo,
        span > 0,
        lo + span <= u32::MAX,
        mapped_write(v0, m, lo, span, rec),
        changed_within(v0, d, m, lo / 1024, (lo + span - 1) / 1024, rec),
        m1.block == m.block,
        lo <= o,
        l > 0,
        o + l <= lo + span,
        lo <= w.0,
        w.0 + w.1.len() <= lo + span,
        w.0 + w.1.len() <= o || o + l <= w.0,
        0 <= k < w.1.len(),
        changed_only_at(d, d2, m1, o, l, rec),
    ensures
        d2[write_pos(v0, m, w.0, k)] == d[write_pos(v0, m, w.0, k)],
{
    let pos = write_pos(v0, m, w.0, k);
    lemma_frame_pos(v0, d, m, m1, lo, span, rec, o, l);
    lemma_frame_pos(v0, d, m, m1, lo, span, rec, w.0, w.1.len() as int);
    assert(0 <= pos < v0.len() && !(rec <= pos < rec + 128));
    if d2[pos] != d[pos] {
        assert(written_at(d, m1, o, l, pos));
        assert(written_at(v0, m, o, l, pos));
        let k2 = choose|k2: int| 0 <= k2 < l && #[trigger] write_pos(v0, m, o, k2) == pos;
        lemma_pos_distinct(v0, m, lo, span, rec, w.0 + k, o + k2);
    }
}

/// One write of a sequence of mapped writes within `[lo, lo + span)`: the disk holds the
/// bytes of the earlier writes and of this one.
proof fn lemma_append_holds(
    v0: Seq<u8>,
    m: Meta,
    lo: int,
    span: int,
    rec: int,
    d: Seq<u8>,
    d2: Seq<u8>,
    m1: Meta,
    o: int,
    bytes: Seq<u8>,
    done: Seq<(int, Seq<u8>)>,
)
    requires
        0 <= lo,
        span > 0,
        lo + span <= u32::MAX,
        mapped_write(v0, m, lo, span, rec),
        changed_within(v0, d, m, lo / 1024, (lo + span - 1) / 1024, rec),
        m1.block == m.block,
        lo <= o,
        bytes.len() > 0,
        o + bytes.len() <= lo + span,
        holds_writes(v0, m, d, done),
        writes_apart(done, lo, span, o, bytes.len() as int),
        changed_only_at(d, d2, m1, o, bytes.len() as int, rec),
        forall|k: int| 0 <= k < bytes.len() ==> d2[#[trigger] write_pos(d, m1, o, k)] == bytes[k],
    ensures
        holds_writes(v0, m, d2, done.push((o, bytes))),
{
    let l = bytes.len() as int;
    lemma_frame_pos(v0, d, m, m1, lo, span, rec, o, l);
    let ws = done.push((o, bytes));
    assert forall|i: int, k: int| 0 <= i < ws.len() && 0 <= k < ws[i].1.len() implies d2[write_pos(v0, m, ws[i].0, k)]
        == #[trigger] ws[i].1[k] by {
        if i < done.len() {
            let w = done[i];
            assert(ws[i] == w);
            assert(lo <= w.0 && w.0 + w.1.len() <= lo + span && (w.0 + w.1.len() <= o || o + l <= w.0));
            assert(d[write_pos(v0, m, w.0, k)] == w.1[k]);
            lemma_append_kept_byte(v0, m, lo, span, rec, d, d2, m1, o, l, w, k);
        } else {
            assert(ws[i] == (o, bytes));
            assert(write_pos(d, m1, o, k) == write_pos(v0, m, o, k));
        }
    }
}

/// One write of a sequence of mapped writes within `[lo, lo + span)`: the disk still changed
/// only within the range's data blocks and the inode record, and holds the bytes of the
/// earlier writes and of this one.
proof fn lemma_append_step(
    v0: Seq<u8>,
    m: Meta,
    lo: int,
    span: int,
    rec: int,
    d: Seq<u8>,
    d2: Seq<u8>,
    m1: Meta,
    o: int,
    bytes: Seq<u8>,
    done: Seq<(int, Seq<u8>)>,
)
    requires
        0 <= lo,
        span > 0,
        lo + span <= u32::MAX,
        mapped_write(v0, m, lo, span, rec),
        changed_within(v0, d, m, lo / 1024, (lo + span - 1) / 1024, rec),
        m1.block == m.block,
        lo <= o,
        bytes.len() > 0,
        o + bytes.len() <= lo + span,
        holds_writes(v0, m, d, done),
        writes_apart(done, lo, span, o, bytes.len() as int),
        changed_only_at(d, d2, m1, o, bytes.len() as int, rec),
        forall|k: int| 0 <= k < bytes.len() ==> d2[#[trigger] write_pos(d, m1, o, k)] == bytes[k],
    ensures
        changed_within(v0, d2, m, lo / 1024, (lo + span - 1) / 1024, rec),
        holds_writes(v0, m, d2, done.push((o, bytes))),
{
    lemma_append_changed(v0, m, lo, span, rec, d, d2, m1, o, bytes, done);
    lemma_append_holds(v0, m, lo, span, rec, d, d2, m1, o, bytes, done);
}

/// What a sequence of mapped writes within `[lo, lo + span)` leaves readable.
proof fn lemma_append_result(v0: Seq<u8>, m: Meta, m2: Meta, lo: int, span: int, rec: int, d: Seq<u8>, ws: Seq<(int, Seq<u8>)>, i: int)
    requires
        0 <= lo,
        span > 0,
        lo + span <= u32::MAX,
        mapped_write(v0, m, lo, span, rec),
        changed_within(v0, d, m, lo / 1024, (lo + span - 1) / 1024, rec),
        m2.block == m.block,
        holds_writes(v0, m, d, ws),
        0 <= i < ws.len(),
        lo <= ws[i].0,
        ws[i].0 + ws[i].1.len() <= lo + span,
    ensures
        file_bytes(d, m2, ws[i].0, ws[i].1.len() as int) == ws[i].1,
{
    let w = ws[i];
    assert forall|k: int| 0 <= k < w.1.len() implies #[trigger] file_bytes(d, m2, w.0, w.1.len() as int)[k] == w.1[k] by {
        lemma_frame_read(v0, d, m, m2, lo, span, rec, w.0 + k);
        assert(d[write_pos(v0, m, w.0, k)] == w.1[k]);
    }
    assert(file_bytes(d, m2, w.0, w.1.len() as int) =~= w.1);
}

} // verus!

verus! {

use crate::subsystem::fs::ext2::cache::{bit_set, bitmap_block_start, group_full, reserved_at, reserved_bit, with_bit};

/// Whether byte `j` of the disk lies in block `b`.
pub open spec fn within_block(j: int, b: int) -> bool {
    b * 1024 <= j < b * 1024 + 1024
}

/// The block of group `g`'s block bitmap.
pub open spec fn block_bitmap_block(ic: &Ext2InodeCache, g: int) -> int {
    g * ic.super_block.blocks_per_group + ic.super_block.block_bitmap_offset_spec() + 1
}

/// The block that bit `b` of byte `j` of group `g`'s block bitmap stands for.
pub open spec fn bit_block(ic: &Ext2InodeCache, g: int, j: int, b: int) -> int {
    g * ic.super_block.block_size_spec() * 8 + j * 8 + b + ic.super_block.first_data_block
}

/// Where byte `j` of group `g`'s block bitmap lies on the disk.
pub open spec fn bitmap_byte(ic: &Ext2InodeCache, g: int, j: int) -> int {
    bitmap_block_start(&ic.super_block, g, ic.super_block.block_bitmap_offset_spec(), 0) + j
}

/// Whether every bit of the block bitmaps of `v` that stands for block `x` is set.
pub open spec fn block_in_use(v: Seq<u8>, ic: &Ext2InodeCache, x: int) -> bool {
    forall|g: int, j: int, b: int|
        0 <= g < walked_groups(&ic.super_block) && 0 <= j < 1024 && 0 <= b < 8 && #[trigger] bit_block(ic, g, j, b) == x
            ==> bit_set(v[bitmap_byte(ic, g, j)], b)
}

/// Whether the block bitmap of every group is full in `v`.
pub open spec fn blocks_full(v: Seq<u8>, ic: &Ext2InodeCache) -> bool {
    forall|g: int|
        0 <= g < walked_groups(&ic.super_block) ==> #[trigger] group_full(
            v,
            &ic.super_block,
            g,
            ic.super_block.block_bitmap_offset_spec(),
            ic.super_block.block_bitmap_blocks_spec(),
        )
}

/// Whether block `x` lies on the disk `v`, is marked in use, and meets neither the inode
/// record at `rec` nor a block bitmap.
pub open spec fn settled(v: Seq<u8>, ic: &Ext2InodeCache, rec: int, x: int) -> bool {
    &&& 1 <= x
    &&& x * 1024 + 1024 <= v.len()
    &&& block_in_use(v, ic, x)
    &&& x * 1024 + 1024 <= rec || rec + 128 <= x * 1024
    &&& forall|g: int| 0 <= g < walked_groups(&ic.super_block) ==> x != #[trigger] block_bitmap_block(ic, g)
}

/// Whether a write of `len` bytes from file offset `offset`, all within the file's direct
/// blocks, can reserve the blocks it lacks without meeting what it reads or keeps: blocks of
/// 1024 bytes with one block bitmap block per group whose bits start at block 1 or later;
/// the inode record at `rec` lies within one block; that block and the block bitmaps are
/// marked in use and the bitmaps keep apart from the record; and every block the range
/// already has is settled and its own.
pub open spec fn growable(v: Seq<u8>, meta: Meta, ic: &Ext2InodeCache, offset: int, len: int, rec: int) -> bool {
    let sb = &ic.super_block;
    let first = offset / 1024;
    let last = (offset + len - 1) / 1024;
    &&& len > 0
    &&& 0 <= offset
    &&& last < 12
    &&& sb.log_block_size == 0
    &&& sb.block_bitmap_blocks_spec() == 1
    &&& sb.first_data_block >= 1
    &&& 0 <= rec
    &&& rec % 1024 + 128 <= 1024
    &&& block_in_use(v, ic, rec / 1024)
    &&& forall|g: int|
        0 <= g < walked_groups(sb) ==> block_in_use(v, ic, #[trigger] block_bitmap_block(ic, g)) && (block_bitmap_block(
            ic,
            g,
        ) * 1024 + 1024 <= rec || rec + 128 <= block_bitmap_block(ic, g) * 1024)
    &&& forall|n: int| first <= n <= last && meta.block[n] != 0 ==> settled(v, ic, rec, #[trigger] meta.block[n] as int)
    &&& forall|n: int, q: int|
        first <= n <= last && first <= q <= last && n != q && meta.block[n] != 0 ==> #[trigger] meta.block[n]
            != #[trigger] meta.block[q]
}

/// Whether byte `j` of the disk is one that a growing write may change: in the data block of
/// one of the file blocks `first..=last` under `m`, in the inode record at `rec`, or in a
/// block bitmap.
pub open spec fn grow_touched(m: Meta, ic: &Ext2InodeCache, rec: int, first: int, last: int, j: int) -> bool {
    ||| exists|n: int| first <= n <= last && m.block[n] != 0 && #[trigger] in_block(j, m.block[n])
    ||| rec <= j < rec + 128
    ||| exists|g: int| 0 <= g < walked_groups(&ic.super_block) && #[trigger] within_block(j, block_bitmap_block(ic, g))
}

/// The state of a growing write after `hw` bytes of `buf` from file offset `offset`, with the
/// disk gone from `v0` to `d` and the block ids from those of `m0` to those of `m`.
pub open spec fn grow_state(
    v0: Seq<u8>,
    d: Seq<u8>,
    m0: Meta,
    m: Meta,
    ic: &Ext2InodeCache,
    rec: int,
    offset: int,
    buf: Seq<u8>,
    hw: int,
    stopped: bool,
) -> bool {
    let first = offset / 1024;
    let last = (offset + buf.len() - 1) / 1024;
    &&& d.len() == v0.len()
    &&& forall|n: int| 0 <= n < 15 && !(first <= n <= last) ==> #[trigger] m.block[n] == m0.block[n]
    &&& forall|n: int| first <= n <= last && m0.block[n] != 0 ==> #[trigger] m.block[n] == m0.block[n]
    &&& forall|n: int| first <= n <= last && m.block[n] != 0 ==> settled(d, ic, rec, #[trigger] m.block[n] as int)
    &&& forall|n: int|
        first <= n <= last && m.block[n] != 0 && m0.block[n] == 0 ==> !block_in_use(v0, ic, #[trigger] m.block[n] as int)
    &&& forall|n: int, q: int|
        first <= n <= last && first <= q <= last && n != q && m.block[n] != 0 ==> #[trigger] m.block[n]
            != #[trigger] m.block[q]
    &&& block_in_use(d, ic, rec / 1024)
    &&& forall|g: int| 0 <= g < walked_groups(&ic.super_block) ==> block_in_use(d, ic, #[trigger] block_bitmap_block(ic, g))
    &&& forall|x: int| block_in_use(v0, ic, x) ==> #[trigger] block_in_use(d, ic, x)
    &&& forall|k: int| 0 <= k < hw ==> #[trigger] byte_landed(d, m, offset, buf, k)
    &&& stopped ==> blocks_full(d, ic)
    &&& forall|j: int| 0 <= j < d.len() && #[trigger] d[j] != v0[j] ==> grow_touched(m, ic, rec, first, last, j)
}

/// Whether byte `k` of `buf`, for file offset `offset + k`, lies in a block of `m` and holds
/// its value on the disk `d`.
pub open spec fn byte_landed(d: Seq<u8>, m: Meta, offset: int, buf: Seq<u8>, k: int) -> bool {
    let n = (offset + k) / 1024;
    &&& m.block[n] != 0
    &&& d[m.block[n] * 1024 + (offset + k) % 1024] == buf[k]
}

/// Whether `new` is `old` with 128 bytes written at `rec`.
pub open spec fn record_written(old: Seq<u8>, new: Seq<u8>, rec: int) -> bool {
    exists|data: Seq<u8>| data.len() == 128 && #[trigger] spliced(old, rec, data) == new
}

/// What making sure the inode's slot has a block does to the disk `old` when the slot was
/// empty: a block reserved in the block bitmaps, or none when every bitmap is full; then the
/// block ids `blocks` go into the inode record at `rec`.
pub open spec fn top_reserved(old: Seq<u8>, new: Seq<u8>, ic: &Ext2InodeCache, rec: int, r: u32) -> bool {
    exists|mid: Seq<u8>|
        #![trigger record_written(mid, new, rec)]
        record_written(mid, new, rec) && ((mid == old && r == 0 && blocks_full(old, ic)) || (mid != old && reserved_bit(
            old,
            mid,
            &ic.super_block,
            ic.super_block.block_bitmap_offset_spec(),
            ic.super_block.block_bitmap_blocks_spec(),
            r as int,
            ic.super_block.first_data_block as int,
        )))
}

/// With blocks of 1024 bytes, the bytes of a block bitmap are those of its block.
proof fn lemma_bitmap_byte(ic: &Ext2InodeCache, g: int, j: int)
    requires
        ic.super_block.log_block_size == 0,
    ensures
        ic.super_block.block_size_spec() == 1024,
        bitmap_byte(ic, g, j) == block_bitmap_block(ic, g) * 1024 + j,
{
    vstd::arithmetic::power2::lemma2_to64();
}

/// Bytes of a write that keeps apart from every block bitmap leave the bitmaps as they were.
proof fn lemma_bits_kept(d: Seq<u8>, d2: Seq<u8>, ic: &Ext2InodeCache)
    requires
        d2.len() == d.len(),
        ic.super_block.block_bitmap_blocks_spec() == 1,
        forall|g: int, j: int| 0 <= g < walked_groups(&ic.super_block) && 0 <= j < 1024 ==> d2[#[trigger] bitmap_byte(ic, g, j)]
            == d[bitmap_byte(ic, g, j)],
    ensures
        forall|x: int| block_in_use(d, ic, x) ==> #[trigger] block_in_use(d2, ic, x),
        blocks_full(d, ic) ==> blocks_full(d2, ic),
{
    assert forall|x: int| block_in_use(d, ic, x) implies #[trigger] block_in_use(d2, ic, x) by {
        assert forall|g: int, j: int, b: int|
            0 <= g < walked_groups(&ic.super_block) && 0 <= j < 1024 && 0 <= b < 8 && #[trigger] bit_block(ic, g, j, b) == x
            implies bit_set(d2[bitmap_byte(ic, g, j)], b) by {
            assert(d2[bitmap_byte(ic, g, j)] == d[bitmap_byte(ic, g, j)]);
        }
    }
    if blocks_full(d, ic) {
        let sb = &ic.super_block;
        assert forall|g: int| 0 <= g < walked_groups(sb) implies #[trigger] group_full(
            d2,
            sb,
            g,
            sb.block_bitmap_offset_spec(),
            sb.block_bitmap_blocks_spec(),
        ) by {
            assert(group_full(d, sb, g, sb.block_bitmap_offset_spec(), sb.block_bitmap_blocks_spec()));
            assert forall|i: int, j: int| 0 <= i < sb.block_bitmap_blocks_spec() && 0 <= j < 1024 implies #[trigger] d2[bitmap_block_start(
                sb,
                g,
                sb.block_bitmap_offset_spec(),
                i,
            ) + j] == 0xFFu8 by {
                assert(i == 0);
                assert(d2[bitmap_byte(ic, g, j)] == d[bitmap_byte(ic, g, j)]);
            }
        }
    }
}

/// Writing `data` at `at`, apart from every block bitmap, leaves the bitmaps as they were and
/// changes no byte outside the bytes written.
proof fn lemma_splice_apart(d: Seq<u8>, at: int, data: Seq<u8>, ic: &Ext2InodeCache)
    requires
        0 <= at,
        at + data.len() <= d.len(),
        ic.super_block.log_block_size == 0,
        ic.super_block.block_bitmap_blocks_spec() == 1,
        forall|g: int| 0 <= g < walked_groups(&ic.super_block) ==> at + data.len() <= #[trigger] block_bitmap_block(ic, g) * 1024
            || block_bitmap_block(ic, g) * 1024 + 1024 <= at,
        crate::subsystem::fs::ext2::cache::bitmaps_fit(
            &ic.super_block,
            walked_groups(&ic.super_block),
            ic.super_block.block_bitmap_offset_spec(),
            1,
            d.len() as int,
        ),
    ensures
        spliced(d, at, data).len() == d.len(),
        forall|p: int| 0 <= p < d.len() && !(at <= p < at + data.len()) ==> #[trigger] spliced(d, at, data)[p] == d[p],
        forall|p: int| at <= p < at + data.len() ==> #[trigger] spliced(d, at, data)[p] == data[p - at],
        forall|x: int| block_in_use(d, ic, x) ==> #[trigger] block_in_use(spliced(d, at, data), ic, x),
        blocks_full(d, ic) ==> blocks_full(spliced(d, at, data), ic),
{
    let d2 = spliced(d, at, data);
    assert forall|p: int| 0 <= p < d.len() && !(at <= p < at + data.len()) implies #[trigger] d2[p] == d[p] by {
        if p < at {
            assert(d2[p] == d.subrange(0, at)[p]);
        } else {
            assert(d2[p] == d.subrange(at + data.len(), d.len() as int)[p - at - data.len()]);
        }
    }
    assert forall|p: int| at <= p < at + data.len() implies #[trigger] d2[p] == data[p - at] by {}
    assert forall|g: int, j: int| 0 <= g < walked_groups(&ic.super_block) && 0 <= j < 1024 implies d2[#[trigger] bitmap_byte(
        ic,
        g,
        j,
    )] == d[bitmap_byte(ic, g, j)] by {
        lemma_bitmap_byte(ic, g, j);
        assert(bitmap_block_start(&ic.super_block, g, ic.super_block.block_bitmap_offset_spec(), 0) + 1024 <= d.len());
        assert(d2[bitmap_byte(ic, g, j)] == d[bitmap_byte(ic, g, j)]);
    }
    lemma_bits_kept(d, d2, ic);
}


/// Bits of the block bitmaps stand for distinct blocks when blocks have 1024 bytes.
proof fn lemma_bit_block_unique(g: int, j: int, b: int, g2: int, j2: int, b2: int)
    requires
        0 <= g,
        0 <= g2,
        0 <= j < 1024,
        0 <= j2 < 1024,
        0 <= b < 8,
        0 <= b2 < 8,
        g * 8192 + j * 8 + b == g2 * 8192 + j2 * 8 + b2,
    ensures
        g == g2,
        j == j2,
        b == b2,
{
    assert(g == g2) by (nonlinear_arith)
        requires
            0 <= g,
            0 <= g2,
            0 <= j < 1024,
            0 <= j2 < 1024,
            0 <= b < 8,
            0 <= b2 < 8,
            g * 8192 + j * 8 + b == g2 * 8192 + j2 * 8 + b2,
    ;
    assert(j == j2) by (nonlinear_arith)
        requires
            0 <= j < 1024,
            0 <= j2 < 1024,
            0 <= b < 8,
            0 <= b2 < 8,
            j * 8 + b == j2 * 8 + b2,
    ;
}

/// Setting a bit keeps every bit that was set, and sets it.
proof fn lemma_or_bit(x: u8, k: u8, k2: u8)
    requires
        k < 8,
        k2 < 8,
    ensures
        (x >> k2) & 1u8 == 1u8 ==> ((x | (1u8 << k)) >> k2) & 1u8 == 1u8,
        ((x | (1u8 << k)) >> k) & 1u8 == 1u8,
{
    assert((x >> k2) & 1u8 == 1u8 ==> ((x | (1u8 << k)) >> k2) & 1u8 == 1u8) by (bit_vector)
        requires
            k < 8,
            k2 < 8,
    ;
    assert(((x | (1u8 << k)) >> k) & 1u8 == 1u8) by (bit_vector)
        requires
            k < 8,
    ;
}

/// Reserving block `r` keeps every block that was in use in use, picks none of them, marks
/// `r` in use, and changes one byte of a block bitmap.
proof fn lemma_reserve(old: Seq<u8>, new: Seq<u8>, ic: &Ext2InodeCache, r: int)
    requires
        ic.super_block.log_block_size == 0,
        ic.super_block.block_bitmap_blocks_spec() == 1,
        ic.super_block.first_data_block >= 1,
        reserved_bit(
            old,
            new,
            &ic.super_block,
            ic.super_block.block_bitmap_offset_spec(),
            ic.super_block.block_bitmap_blocks_spec(),
            r,
            ic.super_block.first_data_block as int,
        ),
        crate::subsystem::fs::ext2::cache::bitmaps_fit(
            &ic.super_block,
            walked_groups(&ic.super_block),
            ic.super_block.block_bitmap_offset_spec(),
            1,
            old.len() as int,
        ),
    ensures
        new.len() == old.len(),
        r >= 1,
        forall|x: int| block_in_use(old, ic, x) ==> #[trigger] block_in_use(new, ic, x) && x != r,
        block_in_use(new, ic, r),
        forall|p: int| 0 <= p < old.len() && #[trigger] new[p] != old[p] ==> exists|g: int|
            0 <= g < walked_groups(&ic.super_block) && #[trigger] within_block(p, block_bitmap_block(ic, g)),
{
    let sb = &ic.super_block;
    let (g, i, j, b) = choose|g: int, i: int, j: int, b: int|
        0 <= g < walked_groups(sb) && 0 <= i < sb.block_bitmap_blocks_spec() && #[trigger] reserved_at(
            old,
            new,
            sb,
            g,
            sb.block_bitmap_offset_spec(),
            i,
            j,
            b,
        ) && r == g * sb.block_size_spec() * 8 + j * 8 + b + sb.first_data_block;
    assert(i == 0);
    lemma_bitmap_byte(ic, g, j);
    let pos = bitmap_byte(ic, g, j);
    assert(new == with_bit(old, pos, b));
    assert(bit_block(ic, g, j, b) == r);
    assert forall|x: int| block_in_use(old, ic, x) implies #[trigger] block_in_use(new, ic, x) && x != r by {
        if x == r {
            assert(bit_set(old[pos], b));
        }
        assert forall|g2: int, j2: int, b2: int|
            0 <= g2 < walked_groups(sb) && 0 <= j2 < 1024 && 0 <= b2 < 8 && #[trigger] bit_block(ic, g2, j2, b2) == x
            implies bit_set(new[bitmap_byte(ic, g2, j2)], b2) by {
            lemma_bitmap_byte(ic, g2, j2);
            assert(bitmap_block_start(sb, g2, sb.block_bitmap_offset_spec(), 0) + 1024 <= old.len());
            assert(bit_set(old[bitmap_byte(ic, g2, j2)], b2));
            if bitmap_byte(ic, g2, j2) == pos {
                lemma_or_bit(old[pos], b as u8, b2 as u8);
            }
        }
    }
    assert forall|g2: int, j2: int, b2: int|
        0 <= g2 < walked_groups(sb) && 0 <= j2 < 1024 && 0 <= b2 < 8 && #[trigger] bit_block(ic, g2, j2, b2) == r
        implies bit_set(new[bitmap_byte(ic, g2, j2)], b2) by {
        lemma_bitmap_byte(ic, g2, j2);
        lemma_bit_block_unique(g, j, b, g2, j2, b2);
        lemma_or_bit(old[pos], b as u8, b as u8);
    }
    assert forall|p: int| 0 <= p < old.len() && #[trigger] new[p] != old[p] implies exists|g3: int|
        0 <= g3 < walked_groups(sb) && #[trigger] within_block(p, block_bitmap_block(ic, g3)) by {
        assert(p == pos);
        assert(within_block(p, block_bitmap_block(ic, g)));
    }
}


/// Where a byte `c` into file block `n` lies in the file, and back.
proof fn lemma_blk(a: int, n: int, c: int)
    requires
        0 <= c < 1024,
        a == n * 1024 + c,
    ensures
        a / 1024 == n,
        a % 1024 == c,
{
    assert(a / 1024 == n && a % 1024 == c) by (nonlinear_arith)
        requires
            0 <= c < 1024,
            a == n * 1024 + c,
    ;
}

/// A byte that a growing write has written lies in a block of the range, and holds its value.
proof fn lemma_grow_byte(
    v0: Seq<u8>,
    d: Seq<u8>,
    m0: Meta,
    m: Meta,
    ic: &Ext2InodeCache,
    rec: int,
    offset: int,
    buf: Seq<u8>,
    hw: int,
    stopped: bool,
    k: int,
)
    requires
        grow_state(v0, d, m0, m, ic, rec, offset, buf, hw, stopped),
        0 <= offset,
        0 <= k < hw,
        hw <= buf.len(),
    ensures
        offset / 1024 <= (offset + k) / 1024 <= (offset + buf.len() - 1) / 1024,
        m.block[(offset + k) / 1024] != 0,
        d[m.block[(offset + k) / 1024] * 1024 + (offset + k) % 1024] == buf[k],
        settled(d, ic, rec, m.block[(offset + k) / 1024] as int),
        0 <= (offset + k) % 1024 < 1024,
{
    assert(byte_landed(d, m, offset, buf, k));
    vstd::arithmetic::div_mod::lemma_div_is_ordered(offset, offset + k, 1024);
    vstd::arithmetic::div_mod::lemma_div_is_ordered(offset + k, offset + buf.len() - 1, 1024);
}

/// Writing at most 128 bytes into the inode record, with the block ids left as they were, keeps
/// the state of a growing write, and the file then reads back what was written.
proof fn lemma_grow_finish(
    v0: Seq<u8>,
    d: Seq<u8>,
    data: Seq<u8>,
    m0: Meta,
    m: Meta,
    m2: Meta,
    ic: &Ext2InodeCache,
    rec: int,
    offset: int,
    buf: Seq<u8>,
    hw: int,
    stopped: bool,
)
    requires
        grow_state(v0, d, m0, m, ic, rec, offset, buf, hw, stopped),
        grow_layout(ic, rec, d.len() as int),
        0 <= offset,
        0 <= hw <= buf.len(),
        (offset + buf.len() - 1) / 1024 < 12,
        data.len() <= 128,
        m2.block == m.block,
    ensures
        grow_state(v0, spliced(d, rec, data), m0, m2, ic, rec, offset, buf, hw, stopped),
        file_bytes(spliced(d, rec, data), m2, offset, hw) == buf.subrange(0, hw),
{
    let first = offset / 1024;
    let last = (offset + buf.len() - 1) / 1024;
    let d2 = spliced(d, rec, data);
    lemma_splice_apart(d, rec, data, ic);
    assert forall|q: int| 0 <= q < 15 implies #[trigger] m2.block[q] == m.block[q] by {}
    assert forall|q: int| first <= q <= last && m2.block[q] != 0 implies settled(d2, ic, rec, #[trigger] m2.block[q] as int) by {
        assert(settled(d, ic, rec, m.block[q] as int));
    }
    assert forall|x: int| block_in_use(v0, ic, x) implies #[trigger] block_in_use(d2, ic, x) by {
        assert(block_in_use(d, ic, x));
    }
    assert forall|g: int| 0 <= g < walked_groups(&ic.super_block) implies block_in_use(
        d2,
        ic,
        #[trigger] block_bitmap_block(ic, g),
    ) by {
        assert(block_in_use(d, ic, block_bitmap_block(ic, g)));
    }
    assert(block_in_use(d2, ic, rec / 1024)) by {
        assert(block_in_use(d, ic, rec / 1024));
    }
    assert forall|k: int| 0 <= k < hw implies #[trigger] byte_landed(d2, m2, offset, buf, k) by {
        lemma_grow_byte(v0, d, m0, m, ic, rec, offset, buf, hw, stopped, k);
        let nk = (offset + k) / 1024;
        let pk = m.block[nk] * 1024 + (offset + k) % 1024;
        assert(d2[pk] == d[pk]);
    }
    assert forall|j: int| 0 <= j < d2.len() && #[trigger] d2[j] != v0[j] implies grow_touched(m2, ic, rec, first, last, j) by {
        if d[j] != v0[j] {
            assert(grow_touched(m, ic, rec, first, last, j));
            if exists|q: int| first <= q <= last && m.block[q] != 0 && #[trigger] in_block(j, m.block[q]) {
                let q = choose|q: int| first <= q <= last && m.block[q] != 0 && #[trigger] in_block(j, m.block[q]);
                assert(in_block(j, m2.block[q]));
            }
        }
    }
    assert forall|k: int| 0 <= k < hw implies #[trigger] file_bytes(d2, m2, offset, hw)[k] == buf.subrange(0, hw)[k] by {
        assert(byte_landed(d2, m2, offset, buf, k));
        lemma_grow_byte(v0, d, m0, m, ic, rec, offset, buf, hw, stopped, k);
        let nk = (offset + k) / 1024;
        assert(data_block(d2, m2, nk as u32) == m2.block[nk]);
        assert(file_byte(d2, m2, offset + k) == buf[k]);
    }
    assert(file_bytes(d2, m2, offset, hw) =~= buf.subrange(0, hw));
}

/// At the start of a growing write nothing is written yet and the block facts hold.
proof fn lemma_grow_start(v0: Seq<u8>, m0: Meta, ic: &Ext2InodeCache, offset: int, buf: Seq<u8>, rec: int)
    requires
        growable(v0, m0, ic, offset, buf.len() as int, rec),
        ic.layout_ok(v0.len() as int),
        rec + 128 <= v0.len(),
    ensures
        grow_layout(ic, rec, v0.len() as int),
        grow_state(v0, v0, m0, m0, ic, rec, offset, buf, 0, false),
{
}

/// A byte whose eight bits are all set is 0xFF, and each bit of 0xFF is set.
proof fn lemma_all_bits(x: u8)
    ensures
        (x >> 0u8) & 1u8 == 1u8 && (x >> 1u8) & 1u8 == 1u8 && (x >> 2u8) & 1u8 == 1u8 && (x >> 3u8) & 1u8 == 1u8 && (x
            >> 4u8) & 1u8 == 1u8 && (x >> 5u8) & 1u8 == 1u8 && (x >> 6u8) & 1u8 == 1u8 && (x >> 7u8) & 1u8 == 1u8
            <==> x == 0xFFu8,
{
    assert((x >> 0u8) & 1u8 == 1u8 && (x >> 1u8) & 1u8 == 1u8 && (x >> 2u8) & 1u8 == 1u8 && (x >> 3u8) & 1u8 == 1u8 && (x
        >> 4u8) & 1u8 == 1u8 && (x >> 5u8) & 1u8 == 1u8 && (x >> 6u8) & 1u8 == 1u8 && (x >> 7u8) & 1u8 == 1u8 <==> x
        == 0xFFu8) by (bit_vector);
}

/// Full block bitmaps stay full when every block in use stays in use.
proof fn lemma_full_kept(d: Seq<u8>, d2: Seq<u8>, ic: &Ext2InodeCache)
    requires
        blocks_full(d, ic),
        forall|x: int| block_in_use(d, ic, x) ==> #[trigger] block_in_use(d2, ic, x),
        ic.super_block.log_block_size == 0,
        ic.super_block.block_bitmap_blocks_spec() == 1,
    ensures
        blocks_full(d2, ic),
{
    let sb = &ic.super_block;
    assert forall|g: int| 0 <= g < walked_groups(sb) implies #[trigger] group_full(
        d2,
        sb,
        g,
        sb.block_bitmap_offset_spec(),
        sb.block_bitmap_blocks_spec(),
    ) by {
        assert(group_full(d, sb, g, sb.block_bitmap_offset_spec(), sb.block_bitmap_blocks_spec()));
        assert forall|i: int, j: int| 0 <= i < sb.block_bitmap_blocks_spec() && 0 <= j < 1024 implies #[trigger] d2[bitmap_block_start(
            sb,
            g,
            sb.block_bitmap_offset_spec(),
            i,
        ) + j] == 0xFFu8 by {
            assert(i == 0);
            let pos = bitmap_byte(ic, g, j);
            assert(d[pos] == 0xFFu8);
            lemma_bitmap_byte(ic, g, j);
            assert forall|b: int| 0 <= b < 8 implies bit_set(d2[pos], b) by {
                let x = bit_block(ic, g, j, b);
                assert forall|g2: int, j2: int, b2: int|
                    0 <= g2 < walked_groups(sb) && 0 <= j2 < 1024 && 0 <= b2 < 8 && #[trigger] bit_block(ic, g2, j2, b2) == x
                    implies bit_set(d[bitmap_byte(ic, g2, j2)], b2) by {
                    lemma_bit_block_unique(g, j, b, g2, j2, b2);
                    lemma_all_bits(d[pos]);
                    assert(b2 == 0 || b2 == 1 || b2 == 2 || b2 == 3 || b2 == 4 || b2 == 5 || b2 == 6 || b2 == 7);
                }
                assert(block_in_use(d, ic, x));
                assert(block_in_use(d2, ic, x));
                assert(bit_block(ic, g, j, b) == x);
            }
            assert(bit_set(d2[pos], 0) && bit_set(d2[pos], 1) && bit_set(d2[pos], 2) && bit_set(d2[pos], 3));
            assert(bit_set(d2[pos], 4) && bit_set(d2[pos], 5) && bit_set(d2[pos], 6) && bit_set(d2[pos], 7));
            lemma_all_bits(d2[pos]);
        }
    }
}

/// Whether a new entry's header `hdr` and name `name`, written from file offset `x` on into
/// one block, both read back from the file, or else the block bitmaps are full.
pub open spec fn entry_landed(d: Seq<u8>, m: Meta, ic: &Ext2InodeCache, x: int, hdr: Seq<u8>, name: Seq<u8>) -> bool {
    ||| file_bytes(d, m, x, 8) == hdr && file_bytes(d, m, x + 8, name.len() as int) == name
    ||| blocks_full(d, ic)
}

/// Where the bytes `x..x + 8 + nn` of a file lie when they share one block.
proof fn lemma_one_block(x: int, nn: int)
    requires
        0 <= x,
        0 < nn,
        x % 1024 + 8 + nn <= 1024,
    ensures
        (x + 7) / 1024 == x / 1024,
        (x + 8) / 1024 == x / 1024,
        (x + 8 + nn - 1) / 1024 == x / 1024,
        forall|k: int| 0 <= k < 8 + nn ==> #[trigger] ((x + k) / 1024) == x / 1024 && (x + k) % 1024 == x % 1024 + k,
{
    let n = x / 1024;
    let c = x % 1024;
    vstd::arithmetic::div_mod::lemma_fundamental_div_mod(x, 1024);
    assert forall|k: int| 0 <= k < 8 + nn implies #[trigger] ((x + k) / 1024) == x / 1024 && (x + k) % 1024 == x % 1024 + k by {
        lemma_blk(x + k, n, c + k);
    }
    lemma_blk(x + 7, n, c + 7);
    lemma_blk(x + 8, n, c + 8);
    lemma_blk(x + 8 + nn - 1, n, c + 8 + nn - 1);
}

/// A growing write of an entry within one block can start with its header alone.
proof fn lemma_growable_head(v0: Seq<u8>, m0: Meta, ic: &Ext2InodeCache, x: int, nn: int, rec: int)
    requires
        growable(v0, m0, ic, x, 8 + nn, rec),
        0 < nn,
        x % 1024 + 8 + nn <= 1024,
    ensures
        growable(v0, m0, ic, x, 8, rec),
{
    lemma_one_block(x, nn);
}

/// After the header of an entry within one block was written, the name's write can grow the
/// file too, and when the whole header landed the name's bytes are mapped.
proof fn lemma_growable_tail(
    v0: Seq<u8>,
    d1: Seq<u8>,
    m0: Meta,
    m1: Meta,
    ic: &Ext2InodeCache,
    rec: int,
    x: int,
    hdr: Seq<u8>,
    nn: int,
    r1: int,
)
    requires
        growable(v0, m0, ic, x, 8 + nn, rec),
        0 < nn,
        x % 1024 + 8 + nn <= 1024,
        hdr.len() == 8,
        0 <= r1 <= 8,
        grow_state(v0, d1, m0, m1, ic, rec, x, hdr, r1, r1 < 8),
    ensures
        growable(d1, m1, ic, x + 8, nn, rec),
        r1 == 8 ==> mapped_write(d1, m1, x + 8, nn, rec),
{
    lemma_one_block(x, nn);
    let n = x / 1024;
    if m1.block[n] != 0 {
        assert(settled(d1, ic, rec, m1.block[n] as int));
    }
    assert(block_in_use(d1, ic, rec / 1024));
    assert forall|g: int| 0 <= g < walked_groups(&ic.super_block) implies block_in_use(d1, ic, #[trigger] block_bitmap_block(ic, g))
        && (block_bitmap_block(ic, g) * 1024 + 1024 <= rec || rec + 128 <= block_bitmap_block(ic, g) * 1024) by {
        assert(block_in_use(d1, ic, block_bitmap_block(ic, g)));
    }
    if r1 == 8 {
        assert(byte_landed(d1, m1, x, hdr, 0));
        let b = m1.block[n];
        assert(settled(d1, ic, rec, b as int));
        assert(data_block(d1, m1, n as u32) == b);
        assert(block_ok(d1, m1, n));
        reveal(mapped_write);
        assert forall|q: int| n <= q <= n implies #[trigger] block_ok(d1, m1, q) && data_block(d1, m1, q as u32) != 0 by {}
        assert forall|q: int, q2: int| n <= q <= n && n <= q2 <= n implies !on_path(d1, m1, q2 as u32, #[trigger] data_block(
            d1,
            m1,
            q as u32,
        )) && #[trigger] block_ok(d1, m1, q2) by {}
        assert forall|q: int| n <= q <= n implies !(#[trigger] in_block(rec, data_block(d1, m1, q as u32))) && data_block(
            d1,
            m1,
            q as u32,
        ) * 1024 + 1024 <= rec || rec + 128 <= data_block(d1, m1, q as u32) * 1024 by {}
        assert forall|q: int, bb: u32| n <= q <= n && #[trigger] on_path(d1, m1, q as u32, bb) implies bb * 1024 + 1024 <= rec
            || rec + 128 <= bb * 1024 by {}
    }
}

/// Writing an entry's header and then its name into one block of a growable range leaves the
/// entry readable from the file, or the block bitmaps full.
proof fn lemma_append_grow(
    v0: Seq<u8>,
    d1: Seq<u8>,
    d2: Seq<u8>,
    m0: Meta,
    m1: Meta,
    m2: Meta,
    ic: &Ext2InodeCache,
    rec: int,
    x: int,
    hdr: Seq<u8>,
    name: Seq<u8>,
    r1: int,
    r2: int,
)
    requires
        growable(v0, m0, ic, x, 8 + name.len() as int, rec),
        name.len() > 0,
        x % 1024 + 8 + name.len() <= 1024,
        x + 8 + name.len() <= u32::MAX,
        hdr.len() == 8,
        0 <= r1 <= 8,
        file_bytes(d1, m1, x, r1) == hdr.subrange(0, r1),
        r1 < 8 ==> blocks_full(d1, ic),
        grow_state(v0, d1, m0, m1, ic, rec, x, hdr, r1, r1 < 8),
        growable(d1, m1, ic, x + 8, name.len() as int, rec) ==> grow_state(
            d1,
            d2,
            m1,
            m2,
            ic,
            rec,
            x + 8,
            name,
            r2,
            r2 < name.len(),
        ),
        mapped_write(d1, m1, x + 8, name.len() as int, rec) ==> {
            &&& r2 == name.len()
            &&& file_bytes(d2, m2, x + 8, name.len() as int) == name
            &&& forall|p: int| #[trigger] untouched(d1, m1, x + 8, name.len() as int, rec, p) ==> file_byte(d2, m2, p) == file_byte(
                d1,
                m1,
                p,
            )
        },
    ensures
        entry_landed(d2, m2, ic, x, hdr, name),
{
    let nn = name.len() as int;
    lemma_growable_tail(v0, d1, m0, m1, ic, rec, x, hdr, nn, r1);
    lemma_one_block(x, nn);
    if r1 == 8 {
        let n = x / 1024;
        assert(byte_landed(d1, m1, x, hdr, 0));
        assert(settled(d1, ic, rec, m1.block[n] as int));
        assert forall|k: int| 0 <= k < 8 implies #[trigger] file_bytes(d2, m2, x, 8)[k] == hdr[k] by {
            assert(untouched(d1, m1, x + 8, nn, rec, x + k));
            assert(file_bytes(d1, m1, x, r1)[k] == hdr.subrange(0, r1)[k]);
        }
        assert(file_bytes(d2, m2, x, 8) =~= hdr);
    } else {
        assert(forall|y: int| block_in_use(d1, ic, y) ==> #[trigger] block_in_use(d2, ic, y));
        lemma_full_kept(d1, d2, ic);
    }
}

/// The block facts a growing write relies on throughout.
pub open spec fn grow_layout(ic: &Ext2InodeCache, rec: int, len: int) -> bool {
    let sb = &ic.super_block;
    &&& sb.log_block_size == 0
    &&& sb.block_bitmap_blocks_spec() == 1
    &&& sb.first_data_block >= 1
    &&& 0 <= rec
    &&& rec % 1024 + 128 <= 1024
    &&& rec + 128 <= len
    &&& forall|g: int|
        0 <= g < walked_groups(sb) ==> #[trigger] block_bitmap_block(ic, g) * 1024 + 1024 <= rec || rec + 128
            <= block_bitmap_block(ic, g) * 1024
    &&& crate::subsystem::fs::ext2::cache::bitmaps_fit(sb, walked_groups(sb), sb.block_bitmap_offset_spec(), 1, len)
}

/// Writing `tw` bytes of `buf` from byte `hw` on into the data block of the current file
/// block, `boff` bytes into it, keeps the state of a growing write, `tw` bytes further.
proof fn lemma_grow_chunk(
    v0: Seq<u8>,
    d: Seq<u8>,
    m0: Meta,
    m: Meta,
    ic: &Ext2InodeCache,
    rec: int,
    offset: int,
    buf: Seq<u8>,
    hw: int,
    tw: int,
    boff: int,
)
    requires
        grow_state(v0, d, m0, m, ic, rec, offset, buf, hw, false),
        grow_layout(ic, rec, d.len() as int),
        0 <= offset,
        0 <= hw,
        0 < tw,
        hw + tw <= buf.len(),
        boff == (offset + hw) % 1024,
        boff + tw <= 1024,
        m.block[(offset + hw) / 1024] != 0,
    ensures
        grow_state(
            v0,
            spliced(d, m.block[(offset + hw) / 1024] * 1024 + boff, buf.subrange(hw, hw + tw)),
            m0,
            m,
            ic,
            rec,
            offset,
            buf,
            hw + tw,
            false,
        ),
{
    let n = (offset + hw) / 1024;
    let first = offset / 1024;
    let last = (offset + buf.len() - 1) / 1024;
    let bn = m.block[n] as int;
    let at = bn * 1024 + boff;
    let data = buf.subrange(hw, hw + tw);
    let d2 = spliced(d, at, data);
    vstd::arithmetic::div_mod::lemma_fundamental_div_mod(offset + hw, 1024);
    assert(offset + hw == n * 1024 + boff);
    assert(first <= n <= last) by {
        vstd::arithmetic::div_mod::lemma_div_is_ordered(offset, offset + hw, 1024);
        vstd::arithmetic::div_mod::lemma_div_is_ordered(offset + hw, offset + buf.len() - 1, 1024);
    }
    assert(settled(d, ic, rec, bn));
    assert forall|g: int| 0 <= g < walked_groups(&ic.super_block) implies at + data.len() <= #[trigger] block_bitmap_block(
        ic,
        g,
    ) * 1024 || block_bitmap_block(ic, g) * 1024 + 1024 <= at by {
        assert(bn != block_bitmap_block(ic, g));
    }
    lemma_splice_apart(d, at, data, ic);
    assert forall|q: int| first <= q <= last && m.block[q] != 0 implies settled(d2, ic, rec, #[trigger] m.block[q] as int) by {
        assert(settled(d, ic, rec, m.block[q] as int));
    }
    assert forall|x: int| block_in_use(v0, ic, x) implies #[trigger] block_in_use(d2, ic, x) by {
        assert(block_in_use(d, ic, x));
    }
    assert forall|k: int| 0 <= k < hw + tw implies #[trigger] byte_landed(d2, m, offset, buf, k) by {
        if k < hw {
            let nk = (offset + k) / 1024;
            lemma_grow_byte(v0, d, m0, m, ic, rec, offset, buf, hw, false, k);
            let pk = m.block[nk] * 1024 + (offset + k) % 1024;
            assert(d[pk] == buf[k]);
            if nk == n {
                assert((offset + k) % 1024 < boff) by {
                    vstd::arithmetic::div_mod::lemma_fundamental_div_mod(offset + k, 1024);
                }
            } else {
                assert(m.block[nk] != m.block[n]);
            }
            assert(d2[pk] == d[pk]);
        } else {
            lemma_blk(offset + k, n, boff + (k - hw));
            assert(d2[at + (k - hw)] == data[k - hw]);
            assert(data[k - hw] == buf[k]);
        }
    }
    assert forall|j: int| 0 <= j < d2.len() && #[trigger] d2[j] != v0[j] implies grow_touched(m, ic, rec, first, last, j) by {
        if d[j] == v0[j] {
            assert(at <= j < at + tw);
            assert(in_block(j, m.block[n]));
        }
    }
    assert(block_in_use(d2, ic, rec / 1024));
    assert forall|g: int| 0 <= g < walked_groups(&ic.super_block) implies block_in_use(
        d2,
        ic,
        #[trigger] block_bitmap_block(ic, g),
    ) by {
        assert(block_in_use(d, ic, block_bitmap_block(ic, g)));
    }
}

/// Making sure the empty slot of file block `n` has a block keeps the state of a growing
/// write: with a block reserved it now has one, settled and new to the file; with none, the
/// block bitmaps are full and the write stops.
proof fn lemma_grow_alloc(
    v0: Seq<u8>,
    d: Seq<u8>,
    d2: Seq<u8>,
    m0: Meta,
    m: Meta,
    m2: Meta,
    ic: &Ext2InodeCache,
    rec: int,
    offset: int,
    buf: Seq<u8>,
    hw: int,
    n: int,
    r: u32,
)
    requires
        grow_state(v0, d, m0, m, ic, rec, offset, buf, hw, false),
        grow_layout(ic, rec, d.len() as int),
        0 <= offset,
        0 <= hw <= buf.len(),
        offset / 1024 <= n <= (offset + buf.len() - 1) / 1024,
        (offset + buf.len() - 1) / 1024 < 12,
        m.block[n] == 0,
        m2.block@ == m.block@.update(n, r),
        top_reserved(d, d2, ic, rec, r),
        r == 0 || block_on_disk(r, d.len() as int),
    ensures
        grow_state(v0, d2, m0, m2, ic, rec, offset, buf, hw, r == 0),
{
    let first = offset / 1024;
    let last = (offset + buf.len() - 1) / 1024;
    let mid = choose|mid: Seq<u8>| #[trigger] record_written(mid, d2, rec) && ((mid == d && r == 0 && blocks_full(d, ic))
        || (mid != d && reserved_bit(
        d,
        mid,
        &ic.super_block,
        ic.super_block.block_bitmap_offset_spec(),
        ic.super_block.block_bitmap_blocks_spec(),
        r as int,
        ic.super_block.first_data_block as int,
    )));
    if mid != d {
        lemma_reserve(d, mid, ic, r as int);
    }
    let data = choose|data: Seq<u8>| data.len() == 128 && #[trigger] spliced(mid, rec, data) == d2;
    lemma_splice_apart(mid, rec, data, ic);
    assert(d2.len() == d.len());
    // Blocks in use before are in use after.
    assert forall|x: int| block_in_use(d, ic, x) implies #[trigger] block_in_use(d2, ic, x) && (r != 0 ==> x != r) by {
        if mid != d {
            assert(block_in_use(mid, ic, x));
        }
    }
    // Bytes outside the bitmaps and the record keep their values.
    assert forall|j: int|
        0 <= j < d.len() && !(rec <= j < rec + 128) && !(exists|g: int|
            0 <= g < walked_groups(&ic.super_block) && #[trigger] within_block(j, block_bitmap_block(ic, g))) implies #[trigger] d2[j]
        == d[j] by {
        if mid != d && mid[j] != d[j] {
        }
    }
    assert(m2.block@[n] == r);
    if r != 0 {
        assert(block_in_use(d2, ic, r as int)) by {
            assert(block_in_use(mid, ic, r as int));
        }
        assert(r as int != rec / 1024);
        assert forall|g: int| 0 <= g < walked_groups(&ic.super_block) implies r as int != #[trigger] block_bitmap_block(ic, g) by {
            assert(block_in_use(d, ic, block_bitmap_block(ic, g)));
        }
        assert(r * 1024 + 1024 <= rec || rec + 128 <= r * 1024) by {
            vstd::arithmetic::div_mod::lemma_fundamental_div_mod(rec, 1024);
        }
        assert(settled(d2, ic, rec, r as int));
        assert(!block_in_use(v0, ic, r as int)) by {
            if block_in_use(v0, ic, r as int) {
                assert(block_in_use(d, ic, r as int));
            }
        }
    }
    assert forall|q: int| first <= q <= last && m2.block[q] != 0 implies settled(d2, ic, rec, #[trigger] m2.block[q] as int) by {
        if q != n {
            assert(m2.block@[q] == m.block@[q]);
            assert(settled(d, ic, rec, m.block[q] as int));
        }
    }
    assert forall|q: int| first <= q <= last && m2.block[q] != 0 && m0.block[q] == 0 implies !block_in_use(
        v0,
        ic,
        #[trigger] m2.block[q] as int,
    ) by {
        if q != n {
            assert(m2.block@[q] == m.block@[q]);
        }
    }
    assert forall|q: int, q2: int| first <= q <= last && first <= q2 <= last && q != q2 && m2.block[q] != 0 implies #[trigger] m2.block[q]
        != #[trigger] m2.block[q2] by {
        if q == n {
            if m2.block[q2] != 0 {
                assert(m2.block@[q2] == m.block@[q2]);
                assert(settled(d, ic, rec, m.block[q2] as int));
            }
        } else if q2 == n {
            assert(m2.block@[q] == m.block@[q]);
            assert(settled(d, ic, rec, m.block[q] as int));
        } else {
            assert(m2.block@[q] == m.block@[q] && m2.block@[q2] == m.block@[q2]);
        }
    }
    assert forall|x: int| block_in_use(v0, ic, x) implies #[trigger] block_in_use(d2, ic, x) by {
        assert(block_in_use(d, ic, x));
    }
    assert forall|g: int| 0 <= g < walked_groups(&ic.super_block) implies block_in_use(
        d2,
        ic,
        #[trigger] block_bitmap_block(ic, g),
    ) by {
        assert(block_in_use(d, ic, block_bitmap_block(ic, g)));
    }
    assert(block_in_use(d2, ic, rec / 1024)) by {
        assert(block_in_use(d, ic, rec / 1024));
    }
    assert forall|k: int| 0 <= k < hw implies #[trigger] byte_landed(d2, m2, offset, buf, k) by {
        let nk = (offset + k) / 1024;
        lemma_grow_byte(v0, d, m0, m, ic, rec, offset, buf, hw, false, k);
        assert(nk != n);
        assert(0 <= nk < 15);
        assert(m2.block@[nk] == m.block@[nk]);
        let bk = m.block[nk] as int;
        let pk = bk * 1024 + (offset + k) % 1024;
        assert(0 <= (offset + k) % 1024 < 1024);
        assert forall|g: int| 0 <= g < walked_groups(&ic.super_block) implies !within_block(pk, #[trigger] block_bitmap_block(ic, g)) by {
            assert(bk != block_bitmap_block(ic, g));
        }
        assert(d2[pk] == d[pk]);
    }
    if r == 0 {
        assert(mid == d);
        assert(blocks_full(d2, ic));
    }
    assert forall|j: int| 0 <= j < d2.len() && #[trigger] d2[j] != v0[j] implies grow_touched(m2, ic, rec, first, last, j) by {
        if d[j] != v0[j] {
            assert(grow_touched(m, ic, rec, first, last, j));
            if exists|q: int| first <= q <= last && m.block[q] != 0 && #[trigger] in_block(j, m.block[q]) {
                let q = choose|q: int| first <= q <= last && m.block[q] != 0 && #[trigger] in_block(j, m.block[q]);
                assert(m2.block@[q] == m.block@[q]);
            }
        }
    }
    assert forall|q: int| 0 <= q < 15 && !(first <= q <= last) implies #[trigger] m2.block[q] == m0.block[q] by {
        assert(m2.block@[q] == m.block@[q]);
    }
    assert forall|q: int| first <= q <= last && m0.block[q] != 0 implies #[trigger] m2.block[q] == m0.block[q] by {
        assert(m.block[q] == m0.block[q]);
        assert(q != n);
        assert(m2.block@[q] == m.block@[q]);
    }
}

} // verus!
