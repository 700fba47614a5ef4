use vstd::prelude::*;
use crate::bytes::{copy_into, zero_from};

verus! {

/// Size in bytes of a disk sector.
pub const BLOCK_SIZE: usize = 512;

/// Number of cached sectors above which the cache sheds clean sectors.
pub const MAX_CACHE_SIZE: usize = 1024 * 64;

/// A disk made of sectors of `BLOCK_SIZE` bytes.
pub trait BlockDriver {
    /// The bytes on the disk.
    spec fn disk(&self) -> Seq<u8>;

    /// Size of the disk in bytes.
    fn size(&self) -> (r: usize)
        ensures
            r == self.disk().len(),
    ;

    /// Reads sector `sector` into `buf`.
    fn read_sector(&self, sector: u64, buf: &mut Vec<u8>)
        requires
            old(buf)@.len() == BLOCK_SIZE,
            sector * BLOCK_SIZE + BLOCK_SIZE <= self.disk().len(),
        ensures
            final(buf)@ == self.disk().subrange(sector * BLOCK_SIZE, sector * BLOCK_SIZE + BLOCK_SIZE),
    ;

    /// Writes `buf` to sector `sector`.
    fn write_sector(&mut self, sector: u64, buf: &[u8])
        requires
            buf@.len() == BLOCK_SIZE,
            sector * BLOCK_SIZE + BLOCK_SIZE <= old(self).disk().len(),
        ensures
            final(self).disk() == old(self).disk().subrange(0, sector * BLOCK_SIZE) + buf@
                + old(self).disk().subrange(sector * BLOCK_SIZE + BLOCK_SIZE, old(self).disk().len() as int),
    ;
}

/// A disk held in memory.
pub struct RamDisk {
    pub data: Vec<u8>,
}

impl BlockDriver for RamDisk {
    open spec fn disk(&self) -> Seq<u8> {
        self.data@
    }

    fn size(&self) -> (r: usize) {
        self.data.len()
    }

    fn read_sector(&self, sector: u64, buf: &mut Vec<u8>) {
        let _n = self.data.len();
        assert(sector < usize::MAX);
        let start = sector as usize * BLOCK_SIZE;
        copy_into(buf, 0, self.data.as_slice(), start, BLOCK_SIZE);
        assert(buf@ =~= self.data@.subrange(start as int, start + BLOCK_SIZE));
    }

    fn write_sector(&mut self, sector: u64, buf: &[u8]) {
        let _n = self.data.len();
        assert(sector < usize::MAX);
        let start = sector as usize * BLOCK_SIZE;
        copy_into(&mut self.data, start, buf, 0, BLOCK_SIZE);
        assert(buf@.subrange(0, BLOCK_SIZE as int) =~= buf@);
    }
}

/// A cached disk sector.
pub struct BlockSectorEntryInner {
    pub sector: u64,
    pub buffer: Vec<u8>,
    pub fetch_in_progress: bool,
    pub flush_in_progress: bool,
    pub dirty: bool,
}

impl BlockSectorEntryInner {
    pub fn new(sector: u64) -> (r: Self)
        ensures
            r.sector == sector,
            r.buffer@ == Seq::new(BLOCK_SIZE as nat, |_i: int| 0u8),
            !r.fetch_in_progress,
            !r.flush_in_progress,
            !r.dirty,
    {
        let mut buffer: Vec<u8> = Vec::new();
        let mut i: usize = 0;
        while i < BLOCK_SIZE
            invariant
                i <= BLOCK_SIZE,
                buffer@ == Seq::new(i as nat, |_i: int| 0u8),
            decreases BLOCK_SIZE - i,
        {
            buffer.push(0);
            i += 1;
            assert(buffer@ =~= Seq::new(i as nat, |_i: int| 0u8));
        }
        Self { sector, buffer, fetch_in_progress: false, flush_in_progress: false, dirty: false }
    }

    pub fn is_dirty(&self) -> (r: bool)
        ensures
            r == self.dirty,
    {
        self.dirty
    }

    /// Refills the contents from disk: `f` runs once on the current contents and gives back
    /// the new contents and a result, which this returns; the sector is then clean.
    pub fn reset_from_disk<R, F: FnOnce(Vec<u8>) -> (Vec<u8>, R)>(&mut self, f: F) -> (r: R)
        requires
            f.requires((old(self).buffer,)),
        ensures
            f.ensures((old(self).buffer,), (final(self).buffer, r)),
            !final(self).dirty,
            final(self).sector == old(self).sector,
            final(self).fetch_in_progress == old(self).fetch_in_progress,
            final(self).flush_in_progress == old(self).flush_in_progress,
    {
        let mut current: Vec<u8> = Vec::new();
        core::mem::swap(&mut current, &mut self.buffer);
        let (filled, ret) = f(current);
        self.buffer = filled;
        self.dirty = false;
        ret
    }

    /// Overwrites bytes from `offset` on with `data`; the sector is then dirty.
    pub fn modify_block(&mut self, offset: usize, data: &[u8])
        requires
            offset + data@.len() <= old(self).buffer@.len(),
        ensures
            final(self).buffer@ == old(self).buffer@.subrange(0, offset as int) + data@
                + old(self).buffer@.subrange(offset + data@.len(), old(self).buffer@.len() as int),
            final(self).dirty,
            final(self).sector == old(self).sector,
            final(self).fetch_in_progress == old(self).fetch_in_progress,
            final(self).flush_in_progress == old(self).flush_in_progress,
    {
        let len = data.len();
        copy_into(&mut self.buffer, offset, data, 0, len);
        assert(data@.subrange(0, len as int) =~= data@);
        self.dirty = true;
    }

    pub fn mark_flushed(&mut self)
        ensures
            !final(self).dirty,
            !final(self).flush_in_progress,
            final(self).buffer == old(self).buffer,
            final(self).sector == old(self).sector,
            final(self).fetch_in_progress == old(self).fetch_in_progress,
    {
        self.dirty = false;
        self.flush_in_progress = false;
    }

    pub fn mark_flush_in_progress(&mut self)
        ensures
            final(self).flush_in_progress,
            final(self).buffer == old(self).buffer,
            final(self).sector == old(self).sector,
            final(self).dirty == old(self).dirty,
            final(self).fetch_in_progress == old(self).fetch_in_progress,
    {
        self.flush_in_progress = true;
    }

    pub fn is_flush_in_progress(&self) -> (r: bool)
        ensures
            r == self.flush_in_progress,
    {
        self.flush_in_progress
    }
}

/// Write-back cache of disk sectors.
/// The cached sectors left when clean sectors are dropped, from position `k` on in order,
/// until at most three quarters of the capacity is used.
pub open spec fn reclaimed(s: Seq<BlockSectorEntryInner>, k: int) -> Seq<BlockSectorEntryInner>
    decreases s.len() - k,
{
    if k < 0 || k >= s.len() || s.len() <= (3 * MAX_CACHE_SIZE) / 4 {
        s
    } else if !s[k].dirty && !s[k].fetch_in_progress {
        reclaimed(s.remove(k), k)
    } else {
        reclaimed(s, k + 1)
    }
}

pub struct BlockCache<D: BlockDriver> {
    pub sectors: Vec<BlockSectorEntryInner>,
    pub disk: D,
    pub cache_count: usize,
    /// What the disk holds once every dirty sector is written back.
    pub contents: Ghost<Seq<u8>>,
}

/// The bytes of sector `s` within `b`.
pub open spec fn sector_bytes(b: Seq<u8>, s: int) -> Seq<u8> {
    b.subrange(s * BLOCK_SIZE, s * BLOCK_SIZE + BLOCK_SIZE)
}

impl<D: BlockDriver> BlockCache<D> {
    /// What reads see.
    pub open spec fn view(&self) -> Seq<u8> {
        self.contents@
    }

    /// Whether a cached sector `s` holds writes that the disk lacks.
    pub open spec fn dirty_at(&self, s: int) -> bool {
        exists|k: int| 0 <= k < self.sectors@.len() && #[trigger] self.sectors@[k].sector == s && self.sectors@[k].dirty
    }

    pub open spec fn wf(&self) -> bool {
        &&& self.disk.disk().len() == self.contents@.len()
        &&& self.contents@.len() <= usize::MAX
        &&& self.cache_count == self.sectors@.len()
        &&& forall|k: int| 0 <= k < self.sectors@.len() ==> {
            &&& (#[trigger] self.sectors@[k]).buffer@.len() == BLOCK_SIZE
            &&& self.sectors@[k].sector * BLOCK_SIZE + BLOCK_SIZE <= self.contents@.len()
            &&& self.sectors@[k].buffer@ == sector_bytes(self.contents@, self.sectors@[k].sector as int)
            &&& !self.sectors@[k].fetch_in_progress
            &&& !self.sectors@[k].flush_in_progress
        }
        &&& forall|k1: int, k2: int| 0 <= k1 < k2 < self.sectors@.len() ==> #[trigger] self.sectors@[k1].sector
            != #[trigger] self.sectors@[k2].sector
        &&& forall|s: int| 0 <= s && s * BLOCK_SIZE + BLOCK_SIZE <= self.contents@.len() && !#[trigger] self.dirty_at(s)
            ==> sector_bytes(self.disk.disk(), s) == sector_bytes(self.contents@, s)
        &&& self.contents@.len() % (BLOCK_SIZE as nat) == 0
    }

    /// Size of the disk in bytes.
    pub fn size(&self) -> (r: usize)
        requires
            self.wf(),
        ensures
            r == self@.len(),
    {
        self.disk.size()
    }

    /// The cache never holds more sectors than the disk has, since it holds each at most once.
    pub proof fn lemma_sector_count(&self)
        requires
            self.wf(),
        ensures
            self.sectors@.len() <= self@.len() as int / (BLOCK_SIZE as int),
    {
        let s = self.sectors@.map_values(|e: BlockSectorEntryInner| e.sector as int);
        assert forall|i: int, j: int| 0 <= i < s.len() && 0 <= j < s.len() && i != j implies s[i] != s[j] by {
            if i < j {
                assert(self.sectors@[i].sector != self.sectors@[j].sector);
            } else {
                assert(self.sectors@[j].sector != self.sectors@[i].sector);
            }
        }
        s.unique_seq_to_set();
        let n: int = self@.len() as int / (BLOCK_SIZE as int);
        vstd::set_lib::lemma_int_range(0, n);
        assert forall|x: int| s.to_set().contains(x) implies vstd::set_lib::set_int_range(0, n).contains(x) by {
            assert(s.contains(x));
            let i = choose|i: int| 0 <= i < s.len() && s[i] == x;
            let sec = self.sectors@[i].sector as int;
            assert(sec * BLOCK_SIZE + BLOCK_SIZE <= self@.len());
            assert(sec < self@.len() / 512) by (nonlinear_arith)
                requires sec * 512 + 512 <= self@.len(), sec >= 0;
        }
        vstd::set_lib::lemma_len_subset(s.to_set(), vstd::set_lib::set_int_range(0, n));
    }

    /// An empty cache over `disk`.
    pub fn new(disk: D) -> (r: Self)
        requires
            disk.disk().len() % (BLOCK_SIZE as nat) == 0,
            disk.disk().len() <= usize::MAX,
        ensures
            r.wf(),
            r@ == disk.disk(),
            r.sectors@.len() == 0,
    {
        let ghost contents = disk.disk();
        BlockCache { sectors: Vec::new(), disk, cache_count: 0, contents: Ghost(contents) }
    }

    /// Position of the cached entry of sector `block`.
    fn position(&self, block: u64) -> (r: Option<usize>)
        ensures
            r matches Some(k) ==> k < self.sectors@.len() && self.sectors@[k as int].sector == block,
            r is None ==> forall|k: int| 0 <= k < self.sectors@.len() ==> #[trigger] self.sectors@[k].sector != block,
    {
        let mut k: usize = 0;
        while k < self.sectors.len()
            invariant
                k <= self.sectors@.len(),
                forall|j: int| 0 <= j < k ==> #[trigger] self.sectors@[j].sector != block,
            decreases self.sectors@.len() - k,
        {
            if self.sectors[k].sector == block {
                return Some(k);
            }
            k += 1;
        }
        None
    }

    /// Reads sector `block` from disk into a new cache entry, placed before the first entry of a
    /// higher sector, and returns the entry's position.
    fn fetch_block(&mut self, block: u64) -> (r: usize)
        requires
            old(self).wf(),
            block * BLOCK_SIZE + BLOCK_SIZE <= old(self)@.len(),
            forall|k: int| 0 <= k < old(self).sectors@.len() ==> #[trigger] old(self).sectors@[k].sector != block,
            old(self).sectors@.len() < usize::MAX,
        ensures
            final(self).wf(),
            final(self)@ == old(self)@,
            r < final(self).sectors@.len(),
            final(self).sectors@[r as int].sector == block,
            final(self).sectors@.len() == old(self).sectors@.len() + 1,
    {
        let mut entry = BlockSectorEntryInner::new(block);
        let disk = &self.disk;
        let fill = |current: Vec<u8>| -> (r: (Vec<u8>, ()))
            requires
                current@.len() == BLOCK_SIZE,
                block * BLOCK_SIZE + BLOCK_SIZE <= disk.disk().len(),
            ensures
                r.0@ == disk.disk().subrange(block * BLOCK_SIZE, block * BLOCK_SIZE + BLOCK_SIZE),
            {
                let mut b = current;
                disk.read_sector(block, &mut b);
                (b, ())
            };
        entry.reset_from_disk(fill);
        proof {
            assert(!self.dirty_at(block as int));
        }
        let mut pos: usize = 0;
        while pos < self.sectors.len() && self.sectors[pos].sector < block
            invariant
                pos <= self.sectors@.len(),
            decreases self.sectors@.len() - pos,
        {
            pos += 1;
        }
        let ghost old_sectors = self.sectors@;
        self.sectors.insert(pos, entry);
        self.cache_count = self.cache_count + 1;
        proof {
            let ns = self.sectors@;
            assert forall|k: int| 0 <= k < ns.len() implies {
                &&& (#[trigger] ns[k]).buffer@.len() == BLOCK_SIZE
                &&& ns[k].sector * BLOCK_SIZE + BLOCK_SIZE <= self.contents@.len()
                &&& ns[k].buffer@ == sector_bytes(self.contents@, ns[k].sector as int)
                &&& !ns[k].fetch_in_progress
                &&& !ns[k].flush_in_progress
            } by {
                if k < pos {
                    assert(ns[k] == old_sectors[k]);
                } else if k > pos {
                    assert(ns[k] == old_sectors[k - 1]);
                }
            }
            assert forall|k1: int, k2: int| 0 <= k1 < k2 < ns.len() implies #[trigger] ns[k1].sector
                != #[trigger] ns[k2].sector by {
                if k1 != pos && k2 != pos {
                    let a = if k1 < pos { k1 } else { k1 - 1 };
                    let b = if k2 < pos { k2 } else { k2 - 1 };
                    assert(old_sectors[a].sector != old_sectors[b].sector);
                } else if k1 == pos {
                    assert(old_sectors[k2 - 1].sector != block);
                } else {
                    let a = if k1 < pos { k1 } else { k1 - 1 };
                    assert(old_sectors[a].sector != block);
                }
            }
            assert forall|s: int| 0 <= s && s * BLOCK_SIZE + BLOCK_SIZE <= self.contents@.len()
                && !#[trigger] self.dirty_at(s) implies sector_bytes(self.disk.disk(), s)
                == sector_bytes(self.contents@, s) by {
                if old(self).dirty_at(s) {
                    let k = choose|k: int| 0 <= k < old_sectors.len() && #[trigger] old_sectors[k].sector == s
                        && old_sectors[k].dirty;
                    let nk = if k < pos { k } else { k + 1 };
                    assert(ns[nk] == old_sectors[k]);
                }
            }
        }
        pos
    }

    /// Copies bytes of sector `block` from `block_offset` on into `buf`, fetching the sector if
    /// it is not cached. Returns how many bytes were copied.
    fn read_within_block(&mut self, block: u64, block_offset: usize, buf: &mut Vec<u8>) -> (r: usize)
        requires
            old(self).wf(),
            block * BLOCK_SIZE + BLOCK_SIZE <= old(self)@.len(),
            block_offset + old(buf)@.len() <= BLOCK_SIZE,
            old(self).sectors@.len() < usize::MAX,
        ensures
            final(self).wf(),
            final(self)@ == old(self)@,
            r == old(buf)@.len(),
            final(buf)@ == old(self)@.subrange(block * BLOCK_SIZE + block_offset, block * BLOCK_SIZE + block_offset + r),
            final(self).sectors@.len() <= old(self).sectors@.len() + 1,
    {
        let len = buf.len();
        let k = match self.position(block) {
            Some(k) => k,
            None => self.fetch_block(block),
        };
        let b = self.sectors[k].buffer.as_slice();
        copy_into(buf, 0, b, block_offset, len);
        proof {
            let e = self.sectors@[k as int];
            assert(e.buffer@ == sector_bytes(self.contents@, block as int));
            assert(buf@ =~= self.contents@.subrange(block * BLOCK_SIZE + block_offset, block * BLOCK_SIZE + block_offset + len));
        }
        len
    }

    /// Reads `buf.len()` bytes from byte `offset` of the disk.
    pub fn read(&mut self, offset: usize, buf: &mut Vec<u8>)
        requires
            old(self).wf(),
            offset + old(buf)@.len() <= old(self)@.len(),
            old(self).sectors@.len() + old(buf)@.len() < usize::MAX,
        ensures
            final(self).wf(),
            final(self)@ == old(self)@,
            final(buf)@ == old(self)@.subrange(offset as int, offset + old(buf)@.len()),
            final(self).sectors@.len() <= old(self).sectors@.len() + old(buf)@.len(),
    {
        let total = buf.len();
        let mut done: usize = 0;
        let mut out: Vec<u8> = Vec::new();
        while done < total
            invariant
                self.wf(),
                self@ == old(self)@,
                total == old(buf)@.len(),
                offset + total <= self@.len(),
                done <= total,
                out@ == self@.subrange(offset as int, offset + done),
                self.sectors@.len() + total - done <= old(self).sectors@.len() + total,
                old(self).sectors@.len() + total < usize::MAX,
            decreases total - done,
        {
            let pos = offset + done;
            let block_index = pos / BLOCK_SIZE;
            let block_offset = pos % BLOCK_SIZE;
            let room = BLOCK_SIZE - block_offset;
            let to_read = if total - done < room { total - done } else { room };
            let mut part: Vec<u8> = Vec::new();
            let mut i: usize = 0;
            while i < to_read
                invariant
                    i <= to_read,
                    part@.len() == i,
                decreases to_read - i,
            {
                part.push(0);
                i += 1;
            }
            proof {
                assert(block_index * BLOCK_SIZE + BLOCK_SIZE <= self@.len()) by (nonlinear_arith)
                    requires
                        block_index == pos / 512, pos < self@.len(), self@.len() % 512 == 0;
                assert(block_index * BLOCK_SIZE + block_offset == pos) by (nonlinear_arith)
                    requires block_index == pos / 512, block_offset == pos % 512;
            }
            self.read_within_block(block_index as u64, block_offset, &mut part);
            out.append(&mut part);
            done += to_read;
            assert(out@ =~= self@.subrange(offset as int, offset + done));
        }
        *buf = out;
        self.reclaim_if_needed();
    }

    /// Overwrites bytes of sector `block` from `block_offset` on with `data`, fetching the sector
    /// if it is not cached.
    fn write_within_block(&mut self, block: u64, block_offset: usize, data: &[u8]) -> (r: usize)
        requires
            old(self).wf(),
            block * BLOCK_SIZE + BLOCK_SIZE <= old(self)@.len(),
            block_offset + data@.len() <= BLOCK_SIZE,
            old(self).sectors@.len() < usize::MAX,
        ensures
            final(self).wf(),
            r == data@.len(),
            final(self)@ == old(self)@.subrange(0, block * BLOCK_SIZE + block_offset) + data@
                + old(self)@.subrange(block * BLOCK_SIZE + block_offset + r, old(self)@.len() as int),
            final(self).sectors@.len() <= old(self).sectors@.len() + 1,
    {
        let len = data.len();
        let k = match self.position(block) {
            Some(k) => k,
            None => self.fetch_block(block),
        };
        let ghost before = *self;
        let ghost start = block * BLOCK_SIZE + block_offset;
        let ghost new_contents = self.contents@.subrange(0, start) + data@
            + self.contents@.subrange(start + len, self.contents@.len() as int);
        let mut entry = self.sectors.remove(k);
        entry.modify_block(block_offset, data);
        self.sectors.insert(k, entry);
        self.contents = Ghost(new_contents);
        proof {
            let ns = self.sectors@;
            let os = before.sectors@;
            assert(new_contents.len() == before.contents@.len());
            assert forall|k2: int| 0 <= k2 < ns.len() implies {
                &&& (#[trigger] ns[k2]).buffer@.len() == BLOCK_SIZE
                &&& ns[k2].sector * BLOCK_SIZE + BLOCK_SIZE <= self.contents@.len()
                &&& ns[k2].buffer@ == sector_bytes(self.contents@, ns[k2].sector as int)
                &&& !ns[k2].fetch_in_progress
                &&& !ns[k2].flush_in_progress
            } by {
                if k2 == k {
                    assert(ns[k2].buffer@ =~= sector_bytes(new_contents, block as int));
                } else {
                    assert(ns[k2] == os[k2]);
                    assert(os[k2].sector != block);
                    let s2 = os[k2].sector as int;
                    assert(s2 < block || s2 > block);
                    assert(s2 * BLOCK_SIZE + BLOCK_SIZE <= block * BLOCK_SIZE || s2 * BLOCK_SIZE >= block * BLOCK_SIZE + BLOCK_SIZE)
                        by (nonlinear_arith)
                        requires s2 < block || s2 > block;
                    assert(sector_bytes(new_contents, s2) =~= sector_bytes(before.contents@, s2));
                }
            }
            assert forall|k1: int, k2: int| 0 <= k1 < k2 < ns.len() implies #[trigger] ns[k1].sector
                != #[trigger] ns[k2].sector by {
                assert(ns[k1].sector == os[k1].sector);
                assert(ns[k2].sector == os[k2].sector);
            }
            assert forall|s: int| 0 <= s && s * BLOCK_SIZE + BLOCK_SIZE <= self.contents@.len()
                && !#[trigger] self.dirty_at(s) implies sector_bytes(self.disk.disk(), s)
                == sector_bytes(self.contents@, s) by {
                if s == block {
                    assert(ns[k as int].sector == s && ns[k as int].dirty);
                } else {
                    if before.dirty_at(s) {
                        let j = choose|j: int| 0 <= j < os.len() && #[trigger] os[j].sector == s && os[j].dirty;
                        assert(ns[j].sector == s && ns[j].dirty);
                    }
                    assert(s < block || s > block);
                    assert(s * BLOCK_SIZE + BLOCK_SIZE <= block * BLOCK_SIZE || s * BLOCK_SIZE >= block * BLOCK_SIZE + BLOCK_SIZE)
                        by (nonlinear_arith)
                        requires s < block || s > block;
                    assert(sector_bytes(new_contents, s) =~= sector_bytes(before.contents@, s));
                }
            }
        }
        len
    }

    /// Writes `data` at byte `offset` of the disk, then writes every dirty sector back.
    pub fn write(&mut self, offset: usize, data: &[u8])
        requires
            old(self).wf(),
            offset + data@.len() <= old(self)@.len(),
            old(self).sectors@.len() + data@.len() < usize::MAX,
        ensures
            final(self).wf(),
            final(self)@ == old(self)@.subrange(0, offset as int) + data@
                + old(self)@.subrange(offset + data@.len(), old(self)@.len() as int),
            final(self).sectors@.len() <= old(self).sectors@.len() + data@.len(),
    {
        let total = data.len();
        let mut done: usize = 0;
        while done < total
            invariant
                self.wf(),
                total == data@.len(),
                offset + total <= self@.len(),
                self@.len() == old(self)@.len(),
                done <= total,
                self@ == old(self)@.subrange(0, offset as int) + data@.subrange(0, done as int)
                    + old(self)@.subrange(offset + done, old(self)@.len() as int),
                self.sectors@.len() + total - done <= old(self).sectors@.len() + total,
                old(self).sectors@.len() + total < usize::MAX,
            decreases total - done,
        {
            let pos = offset + done;
            let block_index = pos / BLOCK_SIZE;
            let block_offset = pos % BLOCK_SIZE;
            let room = BLOCK_SIZE - block_offset;
            let to_write = if total - done < room { total - done } else { room };
            let part = &data[done..done + to_write];
            proof {
                assert(block_index * BLOCK_SIZE + BLOCK_SIZE <= self@.len()) by (nonlinear_arith)
                    requires
                        block_index == pos / 512, pos < self@.len(), self@.len() % 512 == 0;
                assert(block_index * BLOCK_SIZE + block_offset == pos) by (nonlinear_arith)
                    requires block_index == pos / 512, block_offset == pos % 512;
            }
            self.write_within_block(block_index as u64, block_offset, part);
            done += to_write;
            assert(self@ =~= old(self)@.subrange(0, offset as int) + data@.subrange(0, done as int)
                + old(self)@.subrange(offset + done, old(self)@.len() as int));
        }
        assert(data@.subrange(0, total as int) =~= data@);
        self.flush();
        self.reclaim_if_needed();
    }

    /// Writes every dirty sector back to disk.
    pub fn flush(&mut self)
        requires
            old(self).wf(),
        ensures
            final(self).wf(),
            final(self)@ == old(self)@,
            final(self).sectors@.len() == old(self).sectors@.len(),
            forall|k: int| 0 <= k < final(self).sectors@.len() ==> !(#[trigger] final(self).sectors@[k]).dirty,
    {
        let mut k: usize = 0;
        while k < self.sectors.len()
            invariant
                self.wf(),
                self@ == old(self)@,
                self.sectors@.len() == old(self).sectors@.len(),
                k <= self.sectors@.len(),
                forall|j: int| 0 <= j < k ==> !(#[trigger] self.sectors@[j]).dirty,
            decreases self.sectors@.len() - k,
        {
            if self.sectors[k].dirty && !self.sectors[k].is_flush_in_progress() {
                let ghost before = *self;
                let mut entry = self.sectors.remove(k);
                entry.mark_flush_in_progress();
                let sector = entry.sector;
                self.disk.write_sector(sector, entry.buffer.as_slice());
                entry.mark_flushed();
                self.sectors.insert(k, entry);
                proof {
                    let ns = self.sectors@;
                    let os = before.sectors@;
                    assert forall|j: int| 0 <= j < ns.len() && j != k implies ns[j] == os[j] by {}
                    assert forall|s: int| 0 <= s && s * BLOCK_SIZE + BLOCK_SIZE <= self.contents@.len()
                        && !#[trigger] self.dirty_at(s) implies sector_bytes(self.disk.disk(), s)
                        == sector_bytes(self.contents@, s) by {
                        if s == sector {
                            assert(sector_bytes(self.disk.disk(), s) =~= os[k as int].buffer@);
                        } else {
                            if before.dirty_at(s) {
                                let j = choose|j: int| 0 <= j < os.len() && #[trigger] os[j].sector == s && os[j].dirty;
                                assert(j != k);
                                assert(ns[j].sector == s && ns[j].dirty);
                            }
                            assert(s < sector || s > sector);
                            assert(s * BLOCK_SIZE + BLOCK_SIZE <= sector * BLOCK_SIZE || s * BLOCK_SIZE >= sector * BLOCK_SIZE + BLOCK_SIZE)
                                by (nonlinear_arith)
                                requires s < sector || s > sector;
                            assert(sector_bytes(self.disk.disk(), s) =~= sector_bytes(before.disk.disk(), s));
                        }
                    }
                    assert forall|k1: int, k2: int| 0 <= k1 < k2 < ns.len() implies #[trigger] ns[k1].sector
                        != #[trigger] ns[k2].sector by {
                        assert(ns[k1].sector == os[k1].sector);
                        assert(ns[k2].sector == os[k2].sector);
                    }
                }
            }
            k += 1;
        }
    }

    /// Sheds clean sectors, oldest in sector order first, once the cache holds more than nine
    /// tenths of its capacity, until it holds three quarters of it.
    pub fn reclaim_if_needed(&mut self)
        requires
            old(self).wf(),
        ensures
            final(self).wf(),
            final(self)@ == old(self)@,
            final(self).sectors@ == (if old(self).sectors@.len() > (9 * MAX_CACHE_SIZE) / 10 {
                reclaimed(old(self).sectors@, 0)
            } else {
                old(self).sectors@
            }),
            final(self).sectors@.len() <= old(self).sectors@.len(),
    {
        if self.cache_count > (9 * MAX_CACHE_SIZE) / 10 {
            self.reclaim();
        }
    }

    /// Removes clean sectors from the front until at most three quarters of the capacity is used.
    pub fn reclaim(&mut self)
        requires
            old(self).wf(),
        ensures
            final(self).wf(),
            final(self)@ == old(self)@,
            final(self).sectors@ == reclaimed(old(self).sectors@, 0),
            final(self).sectors@.len() <= old(self).sectors@.len(),
    {
        let mut k: usize = 0;
        while k < self.sectors.len() && self.cache_count > (3 * MAX_CACHE_SIZE) / 4
            invariant
                self.wf(),
                self@ == old(self)@,
                self.sectors@.len() <= old(self).sectors@.len(),
                k <= self.sectors@.len(),
                reclaimed(self.sectors@, k as int) == reclaimed(old(self).sectors@, 0),
            decreases self.sectors@.len() - k,
        {
            if !self.sectors[k].dirty && !self.sectors[k].fetch_in_progress {
                let ghost before = *self;
                assert(reclaimed(before.sectors@, k as int) == reclaimed(before.sectors@.remove(k as int), k as int));
                self.sectors.remove(k);
                self.cache_count = self.cache_count - 1;
                proof {
                    let ns = self.sectors@;
                    let os = before.sectors@;
                    assert forall|j: int| 0 <= j < ns.len() implies ns[j] == os[if j < k { j } else { j + 1 }] by {}
                    assert forall|k1: int, k2: int| 0 <= k1 < k2 < ns.len() implies #[trigger] ns[k1].sector
                        != #[trigger] ns[k2].sector by {
                        let a = if k1 < k { k1 } else { k1 + 1 };
                        let b = if k2 < k { k2 } else { k2 + 1 };
                        assert(os[a].sector != os[b].sector);
                    }
                    assert forall|k2: int| 0 <= k2 < ns.len() implies {
                        &&& (#[trigger] ns[k2]).buffer@.len() == BLOCK_SIZE
                        &&& ns[k2].sector * BLOCK_SIZE + BLOCK_SIZE <= self.contents@.len()
                        &&& ns[k2].buffer@ == sector_bytes(self.contents@, ns[k2].sector as int)
                        &&& !ns[k2].fetch_in_progress
                &&& !ns[k2].flush_in_progress
                    } by {
                        assert(ns[k2] == os[if k2 < k { k2 } else { k2 + 1 }]);
                    }
                    assert forall|s: int| 0 <= s && s * BLOCK_SIZE + BLOCK_SIZE <= self.contents@.len()
                        && !#[trigger] self.dirty_at(s) implies sector_bytes(self.disk.disk(), s)
                        == sector_bytes(self.contents@, s) by {
                        if before.dirty_at(s) {
                            let j = choose|j: int| 0 <= j < os.len() && #[trigger] os[j].sector == s && os[j].dirty;
                            if j == k {
                            } else {
                                let nj = if j < k { j } else { j - 1 };
                                assert(ns[nj] == os[j]);
                            }
                        }
                    }
                }
            } else {
                k += 1;
            }
        }
    }
}

} // verus!

verus! {

/// Builds the sector cache over `disk`, the disk the file systems read from.
pub fn set_disk<D: BlockDriver>(disk: D) -> (r: BlockCache<D>)
    requires
        disk.disk().len() % (BLOCK_SIZE as nat) == 0,
        disk.disk().len() <= usize::MAX,
    ensures
        r.wf(),
        r@ == disk.disk(),
{
    BlockCache::new(disk)
}

/// What a read of the range that a write just covered gives back: the written bytes.
pub proof fn lemma_read_after_write(before: Seq<u8>, offset: int, data: Seq<u8>)
    requires
        0 <= offset,
        offset + data.len() <= before.len(),
    ensures
        (before.subrange(0, offset) + data + before.subrange(offset + data.len(), before.len() as int)).subrange(
            offset,
            offset + data.len(),
        ) == data,
{
    assert((before.subrange(0, offset) + data + before.subrange(offset + data.len(), before.len() as int)).subrange(
        offset,
        offset + data.len(),
    ) =~= data);
}

/// What a read of a range that a write did not touch gives back: what it gave before.
pub proof fn lemma_read_outside_write(before: Seq<u8>, offset: int, data: Seq<u8>, a: int, b: int)
    requires
        0 <= offset,
        offset + data.len() <= before.len(),
        0 <= a <= b <= before.len(),
        b <= offset || offset + data.len() <= a,
    ensures
        (before.subrange(0, offset) + data + before.subrange(offset + data.len(), before.len() as int)).subrange(a, b)
            == before.subrange(a, b),
{
    assert((before.subrange(0, offset) + data + before.subrange(offset + data.len(), before.len() as int)).subrange(a, b)
        =~= before.subrange(a, b));
}

} // verus!
