use vstd::prelude::*;
use crate::bytes::copy_into;
use crate::subsystem::fs::inode::{FsError, FsResult, InodeDirectoryEntry, InodeOperations};

verus! {

/// Size in bytes of a file block of the in-memory file system.
pub const TMPFS_BLOCK_SIZE: usize = 4096;

/// A block of file data and how many of its bytes are in use.
pub struct FileBlockContents {
    /// Raw contents of the block.
    pub block: Vec<u8>,
    /// Used size within this block.
    pub size: usize,
}

/// A block of a file.
pub struct FileBlock {
    pub contents: FileBlockContents,
}

/// A file block as plain values: its bytes and the number of them in use.
pub struct BlockView {
    pub data: Seq<u8>,
    pub size: int,
}

impl FileBlock {
    pub open spec fn view(&self) -> BlockView {
        BlockView { data: self.contents.block@, size: self.contents.size as int }
    }

    pub open spec fn wf(&self) -> bool {
        &&& self.contents.block@.len() == TMPFS_BLOCK_SIZE
        &&& self.contents.size <= TMPFS_BLOCK_SIZE
    }

    /// A block of zeros with nothing in use.
    pub fn zeroed() -> (r: Self)
        ensures
            r.wf(),
            r@ == zero_block(),
    {
        let mut block: Vec<u8> = Vec::new();
        let mut i: usize = 0;
        while i < TMPFS_BLOCK_SIZE
            invariant
                i <= TMPFS_BLOCK_SIZE,
                block@ == Seq::new(i as nat, |_j: int| 0u8),
            decreases TMPFS_BLOCK_SIZE - i,
        {
            block.push(0);
            i += 1;
            assert(block@ =~= Seq::new(i as nat, |_j: int| 0u8));
        }
        FileBlock { contents: FileBlockContents { block, size: 0 } }
    }
}

/// A block of zeros with nothing in use.
pub open spec fn zero_block() -> BlockView {
    BlockView { data: Seq::new(TMPFS_BLOCK_SIZE as nat, |_j: int| 0u8), size: 0 }
}

/// The bytes that a read of `want` bytes returns, starting at byte `off` of block `i`: the used
/// bytes of each block from there on, until a block has none left to give.
pub open spec fn read_from(blocks: Seq<BlockView>, i: int, off: int, want: int) -> Seq<u8>
    decreases blocks.len() - i,
{
    if i < 0 || i >= blocks.len() || want <= 0 {
        Seq::empty()
    } else {
        let n = vstd::math::min(want, vstd::math::max(blocks[i].size - off, 0));
        if n <= 0 {
            Seq::empty()
        } else {
            blocks[i].data.subrange(off, off + n) + read_from(blocks, i + 1, 0, want - n)
        }
    }
}

/// Block `b` after `data` is written into it at `off`.
pub open spec fn write_block(b: BlockView, off: int, data: Seq<u8>) -> BlockView {
    BlockView {
        data: b.data.subrange(0, off) + data + b.data.subrange(off + data.len(), b.data.len() as int),
        size: vstd::math::max(b.size, off + data.len()),
    }
}

/// The blocks after a write of `data` at byte `off` of block `i`, and the number of bytes written:
/// blocks are filled to their end, and a zero block is added whenever the write runs past the
/// last one.
pub open spec fn write_at(blocks: Seq<BlockView>, i: int, off: int, data: Seq<u8>) -> (Seq<BlockView>, int)
    decreases data.len(), if i >= blocks.len() { 1int } else { 0int },
{
    if data.len() == 0 || i < 0 || i > blocks.len() {
        (blocks, 0)
    } else if i == blocks.len() {
        write_at(blocks.push(zero_block()), i, off, data)
    } else {
        let n = vstd::math::min(data.len() as int, vstd::math::max(TMPFS_BLOCK_SIZE - off, 0));
        if n <= 0 {
            (blocks, 0)
        } else {
            let nb = blocks.update(i, write_block(blocks[i], off, data.subrange(0, n)));
            let rest = write_at(nb, i + 1, 0, data.subrange(n, data.len() as int));
            (rest.0, n + rest.1)
        }
    }
}

/// The block a byte offset falls in, and the offset within it; past the last block when the
/// offset lies beyond the blocks.
pub open spec fn start_of(len: int, offset: int) -> (int, int) {
    if offset / (TMPFS_BLOCK_SIZE as int) < len {
        (offset / (TMPFS_BLOCK_SIZE as int), offset % (TMPFS_BLOCK_SIZE as int))
    } else {
        (len, offset - len * TMPFS_BLOCK_SIZE)
    }
}

/// A file of the in-memory file system.
pub struct InodeFile {
    pub blocks: Vec<FileBlock>,
}

impl InodeFile {
    pub open spec fn view(&self) -> Seq<BlockView> {
        Seq::new(self.blocks@.len(), |i: int| self.blocks@[i]@)
    }

    pub open spec fn wf(&self) -> bool {
        forall|i: int| 0 <= i < self.blocks@.len() ==> (#[trigger] self.blocks@[i]).wf()
    }

    /// Reads never return more bytes than asked for.
    pub proof fn lemma_read_bound(&self, offset: u64, want: int)
        requires
            self.wf(),
        ensures
            ({
                let (i, off) = start_of(self@.len() as int, offset as int);
                read_from(self@, i, off, want).len() <= vstd::math::max(want, 0)
            }),
    {
        let (i, off) = start_of(self@.len() as int, offset as int);
        assert forall|k: int| 0 <= k < self@.len() implies 0 <= (#[trigger] self@[k]).size <= self@[k].data.len() by {
            assert(self.blocks@[k].wf());
        }
        assert(0 <= off) by (nonlinear_arith)
            requires (i, off) == start_of(self@.len() as int, offset as int), offset >= 0;
        lemma_read_from_bound(self@, i, off, want);
    }

    pub fn new() -> (r: Self)
        ensures
            r.wf(),
            r@.len() == 0,
    {
        InodeFile { blocks: Vec::new() }
    }

    /// Reads into `buffer` from byte `offset` on; see `read_from`.
    pub fn read(&self, offset: u64, buffer: &mut Vec<u8>) -> (r: FsResult<usize>)
        requires
            self.wf(),
        ensures
            ({
                let (i, off) = start_of(self@.len() as int, offset as int);
                let got = read_from(self@, i, off, old(buffer)@.len() as int);
                &&& r == Ok::<usize, FsError>(got.len() as usize)
                &&& final(buffer)@ == got + old(buffer)@.subrange(got.len() as int, old(buffer)@.len() as int)
            }),
    {
        let ghost blocks = self@;
        let ghost orig = offset as int;
        let len = self.blocks.len();
        let mut off: u64 = offset;
        let mut index: usize = 0;
        while index < len && off >= TMPFS_BLOCK_SIZE as u64
            invariant
                len == self.blocks@.len(),
                index <= len,
                off + index * TMPFS_BLOCK_SIZE == orig,
            decreases len - index,
        {
            off = off - TMPFS_BLOCK_SIZE as u64;
            index += 1;
        }
        proof {
            if index < len {
                assert(orig / 4096 == index && orig % 4096 == off) by (nonlinear_arith)
                    requires off + index * 4096 == orig, off < 4096, off >= 0;
            } else {
                assert(orig / 4096 >= len) by (nonlinear_arith)
                    requires off + index * 4096 == orig, off >= 0, index == len;
            }
        }
        let ghost i0 = index as int;
        let ghost off0 = off as int;
        let want = buffer.len();
        let mut bytes_read: usize = 0;
        let mut done = false;
        while index < len && bytes_read < want && !done
            invariant
                self.wf(),
                blocks == self@,
                len == self.blocks@.len(),
                index <= len,
                bytes_read <= want,
                want == old(buffer)@.len(),
                buffer@.len() == want,
                index < len ==> off < TMPFS_BLOCK_SIZE,
                read_from(blocks, i0, off0, want as int) == buffer@.subrange(0, bytes_read as int)
                    + read_from(blocks, index as int, off as int, want - bytes_read),
                done ==> read_from(blocks, index as int, off as int, want - bytes_read) =~= Seq::<u8>::empty(),
                buffer@.subrange(bytes_read as int, want as int) == old(buffer)@.subrange(bytes_read as int, want as int),
            decreases len - index, if done { 0int } else { 1int },
        {
            let block = &self.blocks[index];
            let size = block.contents.size;
            let avail = if size > off as usize { size - off as usize } else { 0 };
            let n = if want - bytes_read < avail { want - bytes_read } else { avail };
            if n == 0 {
                done = true;
            } else {
                let ghost before = buffer@;
                copy_into(buffer, bytes_read, block.contents.block.as_slice(), off as usize, n);
                proof {
                    let b = blocks[index as int];
                    assert(b.data == block.contents.block@);
                    assert(read_from(blocks, index as int, off as int, want - bytes_read) == b.data.subrange(off as int, off + n)
                        + read_from(blocks, index + 1, 0, want - bytes_read - n));
                    assert(buffer@.subrange(0, bytes_read + n) =~= before.subrange(0, bytes_read as int)
                        + b.data.subrange(off as int, off + n));
                    assert(buffer@.subrange(bytes_read + n, want as int) =~= before.subrange(bytes_read + n, want as int));
                    assert forall|k: int| bytes_read + n <= k < want implies before[k] == old(buffer)@[k] by {
                        assert(before.subrange(bytes_read as int, want as int)[k - bytes_read]
                            == old(buffer)@.subrange(bytes_read as int, want as int)[k - bytes_read]);
                    }
                    assert(before.subrange(bytes_read + n, want as int) =~= old(buffer)@.subrange(bytes_read + n, want as int));
                }
                bytes_read += n;
                off = 0;
                index += 1;
            }
        }
        proof {
            assert(read_from(blocks, index as int, off as int, want - bytes_read) =~= Seq::<u8>::empty());
            assert(buffer@ =~= buffer@.subrange(0, bytes_read as int) + old(buffer)@.subrange(bytes_read as int, want as int));
        }
        Ok(bytes_read)
    }

    /// Writes `buffer` from byte `offset` on; see `write_at`.
    pub fn write(&mut self, offset: u64, buffer: &[u8]) -> (r: FsResult<usize>)
        requires
            old(self).wf(),
            old(self).blocks@.len() + buffer@.len() + 2 < usize::MAX,
        ensures
            final(self).wf(),
            ({
                let (i, off) = start_of(old(self)@.len() as int, offset as int);
                let (nb, w) = write_at(old(self)@, i, off, buffer@);
                &&& final(self)@ == nb
                &&& r == Ok::<usize, FsError>(w as usize)
            }),
    {
        let ghost blocks0 = self@;
        let ghost orig = offset as int;
        let len0 = self.blocks.len();
        let mut off: u64 = offset;
        let mut index: usize = 0;
        while index < len0 && off >= TMPFS_BLOCK_SIZE as u64
            invariant
                len0 == self.blocks@.len(),
                index <= len0,
                off + index * TMPFS_BLOCK_SIZE == orig,
            decreases len0 - index,
        {
            off = off - TMPFS_BLOCK_SIZE as u64;
            index += 1;
        }
        proof {
            if index < len0 {
                assert(orig / 4096 == index && orig % 4096 == off) by (nonlinear_arith)
                    requires off + index * 4096 == orig, off < 4096, off >= 0;
            } else {
                assert(orig / 4096 >= len0) by (nonlinear_arith)
                    requires off + index * 4096 == orig, off >= 0, index == len0;
            }
        }
        let ghost i0 = index as int;
        let ghost off0 = off as int;
        let total = buffer.len();
        let mut written: usize = 0;
        let mut done = false;
        assert(buffer@.skip(0) =~= buffer@);
        while written < total && !done
            invariant
                self.wf(),
                written <= total,
                total == buffer@.len(),
                index <= self.blocks@.len(),
                self.blocks@.len() <= len0 + written + if index < self.blocks@.len() { 1int } else { 0int },
                len0 + total + 2 < usize::MAX,
                ({
                    let (nb, w) = write_at(self@, index as int, off as int, buffer@.skip(written as int));
                    write_at(blocks0, i0, off0, buffer@) == (nb, written + w)
                }),
                done ==> write_at(self@, index as int, off as int, buffer@.skip(written as int)) == (self@, 0int),
            decreases total - written, if index >= self.blocks@.len() { 1int } else { 0int }, if done { 0int } else { 1int },
        {
            if index < self.blocks.len() {
                let avail = if (TMPFS_BLOCK_SIZE as u64) > off { TMPFS_BLOCK_SIZE - off as usize } else { 0 };
                let n = if total - written < avail { total - written } else { avail };
                if n == 0 {
                    done = true;
                } else {
                    let ghost before = self@;
                    let mut b = self.blocks.remove(index);
                    let part = &buffer[written..written + n];
                    let ghost old_data = b.contents.block@;
                    copy_into(&mut b.contents.block, off as usize, part, 0, n);
                    let end = off as usize + n;
                    if end > b.contents.size {
                        b.contents.size = end;
                    }
                    self.blocks.insert(index, b);
                    proof {
                        let d = buffer@.skip(written as int);
                        assert(part@ =~= d.subrange(0, n as int));
                        assert(part@.subrange(0, n as int) =~= part@);
                        let wb = write_block(before[index as int], off as int, d.subrange(0, n as int));
                        assert(self@ =~= before.update(index as int, wb));
                        assert(d.subrange(n as int, d.len() as int) =~= buffer@.skip(written + n));
                    }
                    written += n;
                    off = 0;
                    index += 1;
                }
            } else {
                let ghost before = self@;
                self.blocks.push(FileBlock::zeroed());
                assert(self@ =~= before.push(zero_block()));
            }
        }
        proof {
            if !done {
                assert(buffer@.skip(written as int) =~= Seq::<u8>::empty());
            }
        }
        Ok(written)
    }

    /// Writes like `write`, failing with `NoSpace` where the file could need more blocks than a
    /// vector can count.
    pub fn write_checked(&mut self, offset: u64, buffer: &[u8]) -> (r: FsResult<usize>)
        requires
            old(self).wf(),
        ensures
            final(self).wf(),
            old(self).blocks@.len() + buffer@.len() + 2 >= usize::MAX ==> r == Err::<usize, FsError>(FsError::NoSpace)
                && final(self)@ == old(self)@,
            old(self).blocks@.len() + buffer@.len() + 2 < usize::MAX ==> ({
                let (i, off) = start_of(old(self)@.len() as int, offset as int);
                let (nb, w) = write_at(old(self)@, i, off, buffer@);
                &&& final(self)@ == nb
                &&& r == Ok::<usize, FsError>(w as usize)
            }),
            r is Ok ==> r->Ok_0 <= buffer@.len(),
    {
        let n = self.blocks.len();
        let m = buffer.len();
        if n > usize::MAX - 3 || m > usize::MAX - 3 - n {
            return Err(FsError::NoSpace);
        }
        let r = self.write(offset, buffer);
        proof {
            let (i, off) = start_of(old(self)@.len() as int, offset as int);
            lemma_write_at_bound(old(self)@, i, off, buffer@);
        }
        r
    }
}

/// A write never reports more bytes than it was given.
pub proof fn lemma_write_at_bound(blocks: Seq<BlockView>, i: int, off: int, data: Seq<u8>)
    ensures
        0 <= write_at(blocks, i, off, data).1 <= data.len(),
    decreases data.len(), if i >= blocks.len() { 1int } else { 0int },
{
    if data.len() == 0 || i < 0 || i > blocks.len() {
    } else if i == blocks.len() {
        lemma_write_at_bound(blocks.push(zero_block()), i, off, data);
    } else {
        let n = vstd::math::min(data.len() as int, vstd::math::max(TMPFS_BLOCK_SIZE - off, 0));
        if n > 0 {
            let nb = blocks.update(i, write_block(blocks[i], off, data.subrange(0, n)));
            lemma_write_at_bound(nb, i + 1, 0, data.subrange(n, data.len() as int));
        }
    }
}

/// A read never returns more bytes than were asked for.
pub proof fn lemma_read_from_bound(blocks: Seq<BlockView>, i: int, off: int, want: int)
    requires
        0 <= off,
        forall|k: int| 0 <= k < blocks.len() ==> 0 <= (#[trigger] blocks[k]).size <= blocks[k].data.len(),
    ensures
        read_from(blocks, i, off, want).len() <= vstd::math::max(want, 0),
    decreases blocks.len() - i,
{
    if i < 0 || i >= blocks.len() || want <= 0 {
    } else {
        let n = vstd::math::min(want, vstd::math::max(blocks[i].size - off, 0));
        if n > 0 {
            lemma_read_from_bound(blocks, i + 1, 0, want - n);
        }
    }
}

/// A directory of the in-memory file system: names and the inodes they name.
pub struct InodeDirectory {
    pub children: Vec<InodeDirectoryEntry>,
}

/// A directory has no contents to read or write as bytes: both fail with `Unsupported`.
impl InodeOperations for InodeDirectory {}

impl InodeDirectory {
    pub fn new() -> (r: Self)
        ensures
            r.children@.len() == 0,
    {
        InodeDirectory { children: Vec::new() }
    }

    /// Copies of the entries, in the order they were created.
    pub fn list_directory(&self) -> (r: Vec<InodeDirectoryEntry>)
        ensures
            r@.len() == self.children@.len(),
            forall|i: int| 0 <= i < r@.len() ==> (#[trigger] r@[i]).name@ == self.children@[i].name@
                && r@[i].inode == self.children@[i].inode,
    {
        let mut r: Vec<InodeDirectoryEntry> = Vec::new();
        let mut i: usize = 0;
        while i < self.children.len()
            invariant
                i <= self.children@.len(),
                r@.len() == i,
                forall|j: int| 0 <= j < i ==> (#[trigger] r@[j]).name@ == self.children@[j].name@
                    && r@[j].inode == self.children@[j].inode,
            decreases self.children@.len() - i,
        {
            r.push(self.children[i].duplicate());
            i += 1;
        }
        r
    }

    /// Adds an entry `name` for inode `inode` at the end.
    pub fn create_file(&mut self, name: &[u8], inode: usize)
        ensures
            final(self).children@.len() == old(self).children@.len() + 1,
            final(self).children@.last().name@ == name@,
            final(self).children@.last().inode == inode,
            forall|i: int| 0 <= i < old(self).children@.len() ==> #[trigger] final(self).children@[i] == old(self).children@[i],
    {
        self.children.push(InodeDirectoryEntry::new(name, inode));
    }

    /// Adds an entry `name` for directory inode `inode` at the end.
    pub fn create_directory(&mut self, name: &[u8], inode: usize)
        ensures
            final(self).children@.len() == old(self).children@.len() + 1,
            final(self).children@.last().name@ == name@,
            final(self).children@.last().inode == inode,
            forall|i: int| 0 <= i < old(self).children@.len() ==> #[trigger] final(self).children@[i] == old(self).children@[i],
    {
        self.create_file(name, inode);
    }

    /// Removes every entry named `name`.
    pub fn remove_file(&mut self, name: &[u8])
        ensures
            forall|i: int| 0 <= i < final(self).children@.len() ==> (#[trigger] final(self).children@[i]).name@ != name@,
            forall|i: int| 0 <= i < old(self).children@.len() && (#[trigger] old(self).children@[i]).name@ != name@
                ==> final(self).children@.contains(old(self).children@[i]),
            forall|i: int| 0 <= i < final(self).children@.len() ==> old(self).children@.contains(
                #[trigger] final(self).children@[i],
            ),
    {
        let mut k: usize = 0;
        while k < self.children.len()
            invariant
                k <= self.children@.len(),
                forall|i: int| 0 <= i < k ==> (#[trigger] self.children@[i]).name@ != name@,
                forall|i: int| 0 <= i < old(self).children@.len() && (#[trigger] old(self).children@[i]).name@ != name@
                    ==> self.children@.contains(old(self).children@[i]),
                forall|i: int| 0 <= i < self.children@.len() ==> old(self).children@.contains(#[trigger] self.children@[i]),
            decreases self.children@.len() - k,
        {
            if crate::utils::string::bytes_equal(self.children[k].name(), name) {
                let ghost before = self.children@;
                self.children.remove(k);
                proof {
                    assert forall|i: int| 0 <= i < old(self).children@.len() && (#[trigger] old(self).children@[i]).name@
                        != name@ implies self.children@.contains(old(self).children@[i]) by {
                        let e = old(self).children@[i];
                        assert(before.contains(e));
                        let j = choose|j: int| 0 <= j < before.len() && before[j] == e;
                        if j < k {
                            assert(self.children@[j] == e);
                        } else {
                            assert(j != k);
                            assert(self.children@[j - 1] == e);
                        }
                    }
                    assert forall|i: int| 0 <= i < self.children@.len() implies old(self).children@.contains(
                        #[trigger] self.children@[i],
                    ) by {
                        if i < k {
                            assert(self.children@[i] == before[i]);
                        } else {
                            assert(self.children@[i] == before[i + 1]);
                        }
                    }
                }
            } else {
                k += 1;
            }
        }
    }

    /// Removes every entry named `name`: the entries with other names all stay, and none is
    /// added.
    pub fn remove_directory(&mut self, name: &[u8])
        ensures
            forall|i: int| 0 <= i < final(self).children@.len() ==> (#[trigger] final(self).children@[i]).name@ != name@,
            forall|i: int| 0 <= i < old(self).children@.len() && (#[trigger] old(self).children@[i]).name@ != name@
                ==> final(self).children@.contains(old(self).children@[i]),
            forall|i: int| 0 <= i < final(self).children@.len() ==> old(self).children@.contains(
                #[trigger] final(self).children@[i],
            ),
    {
        self.remove_file(name);
    }
}

} // verus!

verus! {

/// The parts of `p` between `/` bytes, as `str::split` gives them.
pub open spec fn split_slash(p: Seq<u8>) -> Seq<Seq<u8>>
    decreases p.len(),
{
    if p.len() == 0 {
        seq![Seq::<u8>::empty()]
    } else {
        let rest = split_slash(p.drop_last());
        if p.last() == 0x2f {
            rest.push(Seq::<u8>::empty())
        } else {
            rest.update(rest.len() - 1, rest.last().push(p.last()))
        }
    }
}

pub proof fn lemma_split_slash_nonempty(p: Seq<u8>)
    ensures
        split_slash(p).len() >= 1,
    decreases p.len(),
{
    if p.len() > 0 {
        lemma_split_slash_nonempty(p.drop_last());
    }
}

/// Splits `p` at its `/` bytes.
pub fn split_path(p: &[u8]) -> (r: Vec<Vec<u8>>)
    ensures
        r@.len() == split_slash(p@).len(),
        forall|i: int| 0 <= i < r@.len() ==> (#[trigger] r@[i])@ == split_slash(p@)[i],
{
    let mut parts: Vec<Vec<u8>> = Vec::new();
    let mut cur: Vec<u8> = Vec::new();
    let mut i: usize = 0;
    assert(p@.subrange(0, 0) =~= Seq::<u8>::empty());
    while i < p.len()
        invariant
            i <= p@.len(),
            parts@.len() + 1 == split_slash(p@.subrange(0, i as int)).len(),
            forall|k: int| 0 <= k < parts@.len() ==> (#[trigger] parts@[k])@ == split_slash(p@.subrange(0, i as int))[k],
            cur@ == split_slash(p@.subrange(0, i as int)).last(),
        decreases p@.len() - i,
    {
        proof {
            lemma_split_slash_nonempty(p@.subrange(0, i as int));
            assert(p@.subrange(0, i + 1).drop_last() =~= p@.subrange(0, i as int));
        }
        if p[i] == 0x2f {
            let done = cur;
            parts.push(done);
            cur = Vec::new();
        } else {
            cur.push(p[i]);
        }
        i += 1;
    }
    parts.push(cur);
    assert(p@.subrange(0, p@.len() as int) =~= p@);
    parts
}

/// Number of `/` bytes in `p`.
pub open spec fn count_slashes(p: Seq<u8>) -> int
    decreases p.len(),
{
    if p.len() == 0 {
        0
    } else {
        count_slashes(p.drop_last()) + if p.last() == 0x2f { 1int } else { 0int }
    }
}

pub proof fn lemma_split_len(p: Seq<u8>)
    ensures
        split_slash(p).len() == count_slashes(p) + 1,
    decreases p.len(),
{
    if p.len() > 0 {
        lemma_split_len(p.drop_last());
        lemma_split_slash_nonempty(p.drop_last());
    }
}

} // verus!

verus! {

use crate::subsystem::fs::inode::{Inode, InodeContents};

/// Position of the first entry named `name` among `children`, at or after `i`.
pub open spec fn find_entry_from(children: Seq<InodeDirectoryEntry>, name: Seq<u8>, i: int) -> Option<int>
    decreases children.len() - i,
{
    if i < 0 || i >= children.len() {
        None
    } else if children[i].name@ == name {
        Some(i)
    } else {
        find_entry_from(children, name, i + 1)
    }
}

pub proof fn lemma_find_entry_from_bounds(children: Seq<InodeDirectoryEntry>, name: Seq<u8>, i: int)
    ensures
        find_entry_from(children, name, i) matches Some(k) ==> i <= k < children.len() && children[k].name@ == name,
    decreases children.len() - i,
{
    if 0 <= i < children.len() && children[i].name@ != name {
        lemma_find_entry_from_bounds(children, name, i + 1);
    }
}

pub proof fn lemma_find_entry_some(children: Seq<InodeDirectoryEntry>, name: Seq<u8>, i: int, k: int)
    requires
        0 <= i <= k < children.len(),
        children[k].name@ == name,
    ensures
        find_entry_from(children, name, i) is Some,
    decreases k - i,
{
    if children[i].name@ != name {
        lemma_find_entry_some(children, name, i + 1, k);
    }
}

/// The inode that `name` names in directory inode `cur`: `Unsupported` when `cur` is not a
/// directory, `None` when no entry has that name.
pub open spec fn child_of(inodes: Seq<Inode>, cur: int, name: Seq<u8>) -> FsResult<Option<int>> {
    match inodes[cur].operations {
        InodeContents::File(_) => Err(FsError::Unsupported),
        InodeContents::Directory(d) => match find_entry_from(d.children@, name, 0) {
            Some(k) => Ok(Some(d.children@[k].inode as int)),
            None => Ok(None),
        },
    }
}

/// The inode reached from `cur` through the non-empty parts `parts[i..end]`.
pub open spec fn walk(inodes: Seq<Inode>, cur: int, parts: Seq<Seq<u8>>, i: int, end: int) -> FsResult<int>
    decreases end - i,
{
    if i >= end {
        Ok(cur)
    } else if parts[i].len() == 0 {
        walk(inodes, cur, parts, i + 1, end)
    } else {
        match child_of(inodes, cur, parts[i]) {
            Err(e) => Err(e),
            Ok(None) => Err(FsError::NoExist),
            Ok(Some(c)) => walk(inodes, c, parts, i + 1, end),
        }
    }
}

/// Whether creating `path` in the inodes `before`, rooted at `root`, gave `after` and the
/// result `r`: the directory reached through the parts before the one before the last gets
/// an entry for the last part, naming a new inode at the end; a walk that fails, or that ends
/// at a file, changes nothing and reports why.
pub open spec fn created(before: Seq<Inode>, root: int, path: Seq<u8>, after: Seq<Inode>, r: FsResult<usize>) -> bool {
    let parts = split_slash(path);
    let num = count_slashes(path);
    let name = parts[num];
    match walk(before, root, parts, 0, vstd::math::max(num - 1, 0)) {
        Err(e) => r == Err::<usize, FsError>(e) && after == before,
        Ok(d) => match before[d].operations {
            InodeContents::File(_) => r == Err::<usize, FsError>(FsError::Unsupported) && after == before,
            InodeContents::Directory(dd) => {
                &&& after.len() == before.len() + 1
                &&& forall|i: int| 0 <= i < before.len() && i != d ==> #[trigger] after[i] == before[i]
                &&& after[d].operations matches InodeContents::Directory(nd)
                &&& nd.children@.len() == dd.children@.len() + 1
                &&& forall|k: int| 0 <= k < dd.children@.len() ==> #[trigger] nd.children@[k] == dd.children@[k]
                &&& nd.children@.last().name@ == name
                &&& nd.children@.last().inode == before.len()
                &&& r is Ok
                &&& child_of(after, d, name) == Ok::<Option<int>, FsError>(Some(r->Ok_0 as int))
            },
        },
    }
}

/// Whether every entry of a directory inode names an inode numbered below `n`.
pub open spec fn entries_below(inode: Inode, n: int) -> bool {
    match inode.operations {
        InodeContents::Directory(d) => forall|k: int| 0 <= k < d.children@.len() ==> (#[trigger] d.children@[k]).inode < n,
        InodeContents::File(_) => true,
    }
}

/// In-memory file system; its inodes are numbered by their position.
pub struct TmpFs {
    pub inodes: Vec<Inode>,
    pub root: usize,
}

impl TmpFs {
    pub open spec fn wf(&self) -> bool {
        &&& self.root < self.inodes@.len()
        &&& forall|i: int| 0 <= i < self.inodes@.len() ==> (#[trigger] self.inodes@[i]).wf()
        &&& forall|i: int| 0 <= i < self.inodes@.len() ==> entries_below(#[trigger] self.inodes@[i], self.inodes@.len() as int)
    }

    /// A file system holding an empty root directory.
    pub fn new() -> (r: Self)
        ensures
            r.wf(),
            r.inodes@.len() == 1,
            r.root == 0,
            r.inodes@[0].operations matches InodeContents::Directory(d) && d.children@.len() == 0,
    {
        let mut inodes: Vec<Inode> = Vec::new();
        inodes.push(Inode::new(InodeContents::Directory(InodeDirectory::new())));
        TmpFs { inodes, root: 0 }
    }

    pub fn root(&self) -> (r: usize)
        ensures
            r == self.root,
    {
        self.root
    }

    /// See `child_of`.
    fn lookup_child(&self, cur: usize, name: &[u8]) -> (r: FsResult<Option<usize>>)
        requires
            self.wf(),
            cur < self.inodes@.len(),
        ensures
            match child_of(self.inodes@, cur as int, name@) {
                Err(e) => r == Err::<Option<usize>, FsError>(e),
                Ok(None) => r == Ok::<Option<usize>, FsError>(None),
                Ok(Some(c)) => r == Ok::<Option<usize>, FsError>(Some(c as usize)) && c < self.inodes@.len(),
            },
    {
        proof {
            assert(entries_below(self.inodes@[cur as int], self.inodes@.len() as int));
        }
        match &self.inodes[cur].operations {
            InodeContents::File(_) => Err(FsError::Unsupported),
            InodeContents::Directory(d) => {
                let mut k: usize = 0;
                while k < d.children.len()
                    invariant
                        k <= d.children@.len(),
                        find_entry_from(d.children@, name@, 0) == find_entry_from(d.children@, name@, k as int),
                        forall|j: int| 0 <= j < d.children@.len() ==> (#[trigger] d.children@[j]).inode < self.inodes@.len(),
                        self.inodes@[cur as int].operations == InodeContents::Directory(*d),
                    decreases d.children@.len() - k,
                {
                    if crate::utils::string::bytes_equal(d.children[k].name(), name) {
                        return Ok(Some(d.children[k].inode));
                    }
                    k += 1;
                }
                Ok(None)
            },
        }
    }

    /// Walks `parts[start..end]` from inode `cur`; see `walk`.
    fn walk_parts(&self, cur: usize, parts: &Vec<Vec<u8>>, start: usize, end: usize) -> (r: FsResult<usize>)
        requires
            self.wf(),
            cur < self.inodes@.len(),
            start <= end <= parts@.len(),
        ensures
            match walk(self.inodes@, cur as int, parts@.map_values(|v: Vec<u8>| v@), start as int, end as int) {
                Err(e) => r == Err::<usize, FsError>(e),
                Ok(c) => r == Ok::<usize, FsError>(c as usize) && 0 <= c < self.inodes@.len(),
            },
    {
        let ghost ps = parts@.map_values(|v: Vec<u8>| v@);
        let mut current = cur;
        let mut i = start;
        while i < end
            invariant
                self.wf(),
                start <= i <= end <= parts@.len(),
                current < self.inodes@.len(),
                ps == parts@.map_values(|v: Vec<u8>| v@),
                walk(self.inodes@, cur as int, ps, start as int, end as int) == walk(self.inodes@, current as int, ps, i as int, end as int),
            decreases end - i,
        {
            assert(ps[i as int] == parts@[i as int]@);
            if parts[i].len() == 0 {
                i += 1;
            } else {
                match self.lookup_child(current, parts[i].as_slice()) {
                    Err(e) => return Err(e),
                    Ok(None) => return Err(FsError::NoExist),
                    Ok(Some(c)) => {
                        current = c;
                        i += 1;
                    },
                }
            }
        }
        Ok(current)
    }

    /// The inode that `path` names; empty parts are skipped.
    pub fn open(&self, path: &[u8]) -> (r: FsResult<usize>)
        requires
            self.wf(),
        ensures
            match walk(self.inodes@, self.root as int, split_slash(path@), 0, split_slash(path@).len() as int) {
                Err(e) => r == Err::<usize, FsError>(e),
                Ok(c) => r == Ok::<usize, FsError>(c as usize) && 0 <= c < self.inodes@.len(),
            },
    {
        let parts = split_path(path);
        assert(parts@.map_values(|v: Vec<u8>| v@) =~= split_slash(path@));
        self.walk_parts(self.root, &parts, 0, parts.len())
    }

    /// Creates an empty file at `path`; see `create_with_ops`.
    pub fn create(&mut self, path: &[u8]) -> (r: FsResult<usize>)
        requires
            old(self).wf(),
            old(self).inodes@.len() < usize::MAX,
        ensures
            final(self).wf(),
            final(self).root == old(self).root,
            created(old(self).inodes@, old(self).root as int, path@, final(self).inodes@, r),
            r is Ok ==> (final(self).inodes@.last().operations matches InodeContents::File(f) && f@.len() == 0),
    {
        self.create_with_ops(path, InodeContents::File(InodeFile::new()))
    }

    /// Creates an inode with `contents` for the last part of `path`, in the directory reached
    /// through the parts before the one before it, and returns the inode that the new name then
    /// first names there.
    #[verifier::rlimit(40)]
    pub fn create_with_ops(&mut self, path: &[u8], contents: InodeContents) -> (r: FsResult<usize>)
        requires
            old(self).wf(),
            old(self).inodes@.len() < usize::MAX,
            contents matches InodeContents::File(f) ==> f.wf(),
            contents matches InodeContents::Directory(d) ==> d.children@.len() == 0,
        ensures
            final(self).wf(),
            final(self).root == old(self).root,
            created(old(self).inodes@, old(self).root as int, path@, final(self).inodes@, r),
            r is Ok ==> final(self).inodes@.last().operations == contents,
    {
        let parts = split_path(path);
        proof {
            lemma_split_len(path@);
            lemma_split_slash_nonempty(path@);
            assert(parts@.map_values(|v: Vec<u8>| v@) =~= split_slash(path@));
        }
        let num_parts = parts.len() - 1;
        let upto = if num_parts > 0 { num_parts - 1 } else { 0 };
        let dir = match self.walk_parts(self.root, &parts, 0, upto) {
            Ok(d) => d,
            Err(e) => return Err(e),
        };
        let name = parts[num_parts].as_slice();
        match &self.inodes[dir].operations {
            InodeContents::File(_) => return Err(FsError::Unsupported),
            InodeContents::Directory(_) => {},
        }
        let new_id = self.inodes.len();
        let ghost before = self.inodes@;
        self.inodes.push(Inode::new(contents));
        let mut target = self.inodes.remove(dir);
        let _ = target.create_file(name, new_id);
        self.inodes.insert(dir, target);
        proof {
            assert forall|i: int| 0 <= i < self.inodes@.len() implies (#[trigger] self.inodes@[i]).wf() by {
                if i != dir && i < before.len() {
                    assert(self.inodes@[i] == before[i]);
                }
            }
            assert forall|i: int| 0 <= i < self.inodes@.len() implies entries_below(#[trigger] self.inodes@[i], self.inodes@.len() as int) by {
                if i != dir && i < before.len() {
                    assert(self.inodes@[i] == before[i]);
                    assert(entries_below(before[i], before.len() as int));
                } else if i == dir {
                    assert(entries_below(before[i], before.len() as int));
                }
            }
            assert forall|i: int| 0 <= i < before.len() && i != dir implies #[trigger] self.inodes@[i] == before[i] by {}
        }
        let found = self.lookup_child(dir, name);
        proof {
            match self.inodes@[dir as int].operations {
                InodeContents::Directory(nd) => {
                    lemma_find_entry_from_bounds(nd.children@, name@, 0);
                    lemma_find_entry_some(nd.children@, name@, 0, nd.children@.len() - 1);
                },
                _ => {},
            }
        }
        match found {
            Ok(Some(c)) => Ok(c),
            Ok(None) => Err(FsError::NoExist),
            Err(e) => Err(e),
        }
    }

}

} // verus!

verus! {

use crate::subsystem::fs::FileSystem;

impl FileSystem for TmpFs {
    open spec fn fs_wf(&self) -> bool {
        self.wf()
    }

    open spec fn open_result(&self, path: Seq<u8>) -> FsResult<usize> {
        match walk(self.inodes@, self.root as int, split_slash(path), 0, split_slash(path).len() as int) {
            Err(e) => Err(e),
            Ok(c) => Ok(c as usize),
        }
    }

    open spec fn can_create(&self) -> bool {
        self.inodes@.len() < usize::MAX
    }

    open spec fn create_spec(&self, path: Seq<u8>, after: Self, r: FsResult<usize>) -> bool {
        &&& after.root == self.root
        &&& created(self.inodes@, self.root as int, path, after.inodes@, r)
        &&& r is Ok ==> (after.inodes@.last().operations matches InodeContents::File(f) && f@.len() == 0)
    }

    fn root(&self) -> usize {
        self.root
    }

    fn open(&self, path: &[u8]) -> (r: FsResult<usize>) {
        TmpFs::open(self, path)
    }

    fn create(&mut self, path: &[u8]) -> (r: FsResult<usize>) {
        TmpFs::create(self, path)
    }
}

} // verus!
