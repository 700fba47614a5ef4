use vstd::prelude::*;
use crate::subsystem::block::{BlockCache, BlockDriver};
use crate::subsystem::fs::ext2::inode::{Ext2InodeWrapper, Ext2Meta};
use crate::subsystem::fs::ext2::raw::{EXT2_INODE_SIZE, Ext2Inode, SuperBlock, inode_bytes};
use crate::subsystem::fs::inode::FsError;

verus! {

/// Block group of inode `n`.
pub open spec fn inode_group(sb: &SuperBlock, n: u32) -> int {
    (n - 1) / (sb.inodes_per_group as int)
}

/// Index of inode `n` within its block group.
pub open spec fn inode_index(sb: &SuperBlock, n: u32) -> int {
    (n - 1) % (sb.inodes_per_group as int)
}

/// Byte of the disk where the record of inode `n` starts.
pub open spec fn inode_record_offset(sb: &SuperBlock, n: u32) -> int {
    (inode_group(sb, n) * sb.blocks_per_group + sb.inode_table_offset_spec() + 1) * sb.block_size_spec()
        + inode_index(sb, n) * sb.inode_size
}

/// Byte of the inode bitmap that holds the bit of inode `n`.
pub open spec fn inode_bitmap_byte(sb: &SuperBlock, n: u32) -> int {
    (inode_group(sb, n) * sb.blocks_per_group + sb.inode_bitmap_offset_spec() + 1) * sb.block_size_spec()
        + inode_index(sb, n) / 8
}

/// Whether bit `k` of `b` is set.
pub open spec fn bit_set(b: u8, k: int) -> bool {
    (b >> (k as u8)) & 1u8 == 1u8
}

/// The lowest clear bit of `b` from bit `k` on; 8 when there is none.
pub open spec fn lowest_clear_from(b: u8, k: int) -> int
    decreases 8 - k,
{
    if k >= 8 {
        8
    } else if !bit_set(b, k) {
        k
    } else {
        lowest_clear_from(b, k + 1)
    }
}

/// `v` with bit `k` of byte `at` set.
pub open spec fn with_bit(v: Seq<u8>, at: int, k: int) -> Seq<u8> {
    v.update(at, v[at] | (1u8 << (k as u8)))
}

/// `v` with `data` written over it from `at` on.
pub open spec fn spliced(v: Seq<u8>, at: int, data: Seq<u8>) -> Seq<u8> {
    v.subrange(0, at) + data + v.subrange(at + data.len(), v.len() as int)
}

/// First byte of the `i`th bitmap block of group `g`, for bitmaps that start `first` blocks
/// into each group.
pub open spec fn bitmap_block_start(sb: &SuperBlock, g: int, first: int, i: int) -> int {
    (g * sb.blocks_per_group + first + i + 1) * sb.block_size_spec()
}

/// Whether the first 1024 bytes of every bitmap block of group `g` are all set.
pub open spec fn group_full(v: Seq<u8>, sb: &SuperBlock, g: int, first: int, blocks: int) -> bool {
    forall|i: int, j: int| 0 <= i < blocks && 0 <= j < 1024 ==> #[trigger] v[bitmap_block_start(sb, g, first, i) + j]
        == 0xFFu8
}

/// Whether the bitmap blocks of every group lie within a disk of `len` bytes.
pub open spec fn bitmaps_fit(sb: &SuperBlock, groups: int, first: int, blocks: int, len: int) -> bool {
    forall|g: int, i: int| 0 <= g < groups && 0 <= i < blocks ==> #[trigger] bitmap_block_start(sb, g, first, i)
        + 1024 <= len
}

/// Number of block groups the allocators walk: at least one.
pub open spec fn walked_groups(sb: &SuperBlock) -> int {
    if sb.group_count_spec() == 0 {
        1
    } else {
        sb.group_count_spec()
    }
}

/// Whether `new` is `old` with bit `b` of byte `j` of the `i`th bitmap block of group `g` set,
/// where that bit was clear.
pub open spec fn reserved_at(old: Seq<u8>, new: Seq<u8>, sb: &SuperBlock, g: int, first: int, i: int, j: int, b: int) -> bool {
    &&& 0 <= j < 1024
    &&& 0 <= b < 8
    &&& 0 <= bitmap_block_start(sb, g, first, i) + j < old.len()
    &&& !bit_set(old[bitmap_block_start(sb, g, first, i) + j], b)
    &&& new == with_bit(old, bitmap_block_start(sb, g, first, i) + j, b)
}

/// Whether `new` is `old` with one clear bit of the bitmaps set, and `r` is `base` plus the
/// position of that bit counted from the start of its group's first bitmap block.
pub open spec fn reserved_bit(
    old: Seq<u8>,
    new: Seq<u8>,
    sb: &SuperBlock,
    first: int,
    blocks: int,
    r: int,
    base: int,
) -> bool {
    exists|g: int, i: int, j: int, b: int|
        0 <= g < walked_groups(sb) && 0 <= i < blocks && #[trigger] reserved_at(old, new, sb, g, first, i, j, b) && r
            == g * sb.block_size_spec() * 8 + j * 8 + b + base
}

/// Whether bit `b` of byte `j` of the `i`th bitmap block of group `g` is the first clear bit of
/// the group in scan order: the first 1024 bytes of the blocks before are full, so are the
/// bytes before it in its block, and the bits below it in its byte are set.
pub open spec fn first_clear_in_group(v: Seq<u8>, sb: &SuperBlock, g: int, first: int, i: int, j: int, b: int) -> bool {
    &&& forall|k: int, jj: int| 0 <= k < i && 0 <= jj < 1024 ==> #[trigger] v[bitmap_block_start(sb, g, first, k) + jj]
        == 0xFFu8
    &&& forall|jj: int| 0 <= jj < j ==> #[trigger] v[bitmap_block_start(sb, g, first, i) + jj] == 0xFFu8
    &&& b == lowest_clear_from(v[bitmap_block_start(sb, g, first, i) + j], 0)
}

/// Whether group `h` is walked before group `g` when the walk starts at group `start` and
/// wraps round to the first group.
pub open spec fn scanned_before(sb: &SuperBlock, start: int, g: int, h: int) -> bool {
    if start <= g {
        start <= h < g
    } else {
        (start <= h < walked_groups(sb)) || (0 <= h < g)
    }
}

/// Whether the bit that `new` set and `r` names is the first clear bit met by a walk of the
/// groups from group `start` on: the groups walked before its own are full, and within its
/// group it is the first clear bit.
pub open spec fn first_in_scan(
    old: Seq<u8>,
    new: Seq<u8>,
    sb: &SuperBlock,
    first: int,
    blocks: int,
    r: int,
    base: int,
    start: int,
) -> bool {
    exists|g: int, i: int, j: int, b: int|
        0 <= g < walked_groups(sb) && 0 <= i < blocks && #[trigger] reserved_at(old, new, sb, g, first, i, j, b) && r
            == g * sb.block_size_spec() * 8 + j * 8 + b + base && first_clear_in_group(old, sb, g, first, i, j, b)
            && forall|h: int| scanned_before(sb, start, g, h) ==> #[trigger] group_full(old, sb, h, first, blocks)
}

/// Setting a clear bit changes the byte, and the bit reads as set afterwards.
pub proof fn lemma_set_clear_bit(x: u8, k: u8)
    requires
        k < 8,
        (x >> k) & 1u8 != 1u8,
    ensures
        (x | (1u8 << k)) != x,
        ((x | (1u8 << k)) >> k) & 1u8 == 1u8,
{
    assert((x | (1u8 << k)) != x && ((x | (1u8 << k)) >> k) & 1u8 == 1u8) by (bit_vector)
        requires
            k < 8,
            (x >> k) & 1u8 != 1u8,
    ;
}

/// Finds the first byte of `block` with a clear bit, sets its lowest clear bit, and returns the
/// position of that bit counted from the start of `block`.
pub fn scan_and_reserve_first_open(block: &mut Vec<u8>) -> (r: Option<u32>)
    requires
        old(block)@.len() <= 1024,
    ensures
        match r {
            None => final(block)@ == old(block)@ && forall|j: int| 0 <= j < old(block)@.len() ==> #[trigger] old(block)@[j]
                == 0xFFu8,
            Some(v) => {
                let j = v / 8;
                let b = v % 8;
                &&& 0 <= j < old(block)@.len()
                &&& forall|k: int| 0 <= k < j ==> #[trigger] old(block)@[k] == 0xFFu8
                &&& old(block)@[j as int] != 0xFFu8
                &&& b == lowest_clear_from(old(block)@[j as int], 0)
                &&& !bit_set(old(block)@[j as int], b as int)
                &&& final(block)@ == with_bit(old(block)@, j as int, b as int)
            },
        },
{
    let mut byte_num: usize = 0;
    while byte_num < block.len()
        invariant
            block@ == old(block)@,
            block@.len() <= 1024,
            byte_num <= block@.len(),
            forall|k: int| 0 <= k < byte_num ==> #[trigger] block@[k] == 0xFFu8,
        decreases block@.len() - byte_num,
    {
        let byte = block[byte_num];
        if byte != 0xFF {
            let mut index: u8 = 0;
            while index < 8 && (byte >> index) & 1 == 1
                invariant
                    index <= 8,
                    lowest_clear_from(byte, 0) == lowest_clear_from(byte, index as int),
                    forall|k: int| 0 <= k < index ==> #[trigger] bit_set(byte, k),
                decreases 8 - index,
            {
                index += 1;
            }
            proof {
                if index == 8 {
                    assert(bit_set(byte, 0) && bit_set(byte, 1) && bit_set(byte, 2) && bit_set(byte, 3));
                    assert(bit_set(byte, 4) && bit_set(byte, 5) && bit_set(byte, 6) && bit_set(byte, 7));
                    assert(byte == 0xFFu8) by (bit_vector)
                        requires
                            (byte >> 0u8) & 1u8 == 1u8,
                            (byte >> 1u8) & 1u8 == 1u8,
                            (byte >> 2u8) & 1u8 == 1u8,
                            (byte >> 3u8) & 1u8 == 1u8,
                            (byte >> 4u8) & 1u8 == 1u8,
                            (byte >> 5u8) & 1u8 == 1u8,
                            (byte >> 6u8) & 1u8 == 1u8,
                            (byte >> 7u8) & 1u8 == 1u8,
                    ;
                }
            }
            block.set(byte_num, byte | (1u8 << index));
            let r = index as u32 + byte_num as u32 * 8;
            assert(r / 8 == byte_num && r % 8 == index);
            return Some(r);
        }
        byte_num += 1;
    }
    None
}

/// The inodes of an ext2 file system that have been loaded, with the super block they are read
/// with.
pub struct Ext2InodeCache {
    pub super_block: SuperBlock,
    pub cache: Vec<Ext2InodeWrapper>,
}

impl Ext2InodeCache {
    /// Whether the super block describes a layout this cache can work with on a disk of `len`
    /// bytes.
    pub open spec fn layout_ok(&self, len: int) -> bool {
        let sb = &self.super_block;
        &&& sb.wf()
        &&& sb.inodes_per_group > 0
        &&& (sb.group_count_spec() + 1) * sb.block_size_spec() * 8 + sb.first_data_block < u32::MAX
        &&& bitmaps_fit(sb, walked_groups(sb), sb.block_bitmap_offset_spec(), sb.block_bitmap_blocks_spec(), len)
        &&& bitmaps_fit(sb, walked_groups(sb), sb.inode_bitmap_offset_spec(), sb.inode_bitmap_blocks_spec(), len)
    }

    pub fn new(super_block: SuperBlock) -> (r: Self)
        ensures
            r.super_block == super_block,
            r.cache@.len() == 0,
    {
        Self { super_block, cache: Vec::new() }
    }
}

} // verus!

verus! {

/// Whether `k` is the first position of `s` that holds inode `n`.
pub open spec fn first_with_number(s: Seq<Ext2InodeWrapper>, n: u32, k: int) -> bool {
    &&& 0 <= k < s.len()
    &&& s[k].number == n
    &&& forall|j: int| 0 <= j < k ==> #[trigger] s[j].number != n
}

/// Where `s` holds inode `n` at `k`, some first position holds it.
pub proof fn lemma_first_with_number_exists(s: Seq<Ext2InodeWrapper>, n: u32, k: int)
    requires
        0 <= k < s.len(),
        s[k].number == n,
    ensures
        exists|f: int| first_with_number(s, n, f),
    decreases k,
{
    if forall|j: int| 0 <= j < k ==> #[trigger] s[j].number != n {
        assert(first_with_number(s, n, k));
    } else {
        let j = choose|j: int| 0 <= j < k && #[trigger] s[j].number == n;
        lemma_first_with_number_exists(s, n, j);
    }
}

impl Ext2InodeCache {
    /// Position of the first cached inode numbered `n`.
    fn position(&self, n: u32) -> (r: Option<usize>)
        ensures
            r matches Some(k) ==> first_with_number(self.cache@, n, k as int),
            r is None ==> forall|j: int| 0 <= j < self.cache@.len() ==> #[trigger] self.cache@[j].number != n,
    {
        let mut k: usize = 0;
        while k < self.cache.len()
            invariant
                k <= self.cache@.len(),
                forall|j: int| 0 <= j < k ==> #[trigger] self.cache@[j].number != n,
            decreases self.cache@.len() - k,
        {
            if self.cache[k].number == n {
                return Some(k);
            }
            k += 1;
        }
        None
    }

    /// The cached inode numbered `n`, if it is loaded.
    pub fn lookup(&self, n: u32) -> (r: Option<Ext2InodeWrapper>)
        ensures
            r matches Some(w) ==> exists|k: int| first_with_number(self.cache@, n, k) && w == self.cache@[k],
            r is None ==> forall|j: int| 0 <= j < self.cache@.len() ==> #[trigger] self.cache@[j].number != n,
    {
        match self.position(n) {
            Some(k) => Some(self.cache[k]),
            None => None,
        }
    }

    /// Adds a loaded inode at the end of the cache and hands back a copy.
    pub fn insert(&mut self, inode: Ext2InodeWrapper) -> (r: Ext2InodeWrapper)
        ensures
            r == inode,
            final(self).cache@ == old(self).cache@.push(inode),
            final(self).super_block == old(self).super_block,
    {
        self.cache.push(inode);
        inode
    }

    /// Drops the first cached inode numbered `n`, if any.
    pub fn remove_inode(&mut self, n: u32)
        ensures
            final(self).super_block == old(self).super_block,
            forall|k: int| first_with_number(old(self).cache@, n, k) ==> final(self).cache@ == old(self).cache@.remove(k),
            (forall|j: int| 0 <= j < old(self).cache@.len() ==> #[trigger] old(self).cache@[j].number != n)
                ==> final(self).cache@ == old(self).cache@,
    {
        match self.position(n) {
            Some(k) => {
                self.cache.remove(k);
            },
            None => {},
        }
    }

    /// Byte of the disk where the record of inode `n` starts.
    fn record_offset(&self, n: u32) -> (r: u64)
        requires
            self.super_block.wf(),
            self.super_block.inodes_per_group > 0,
            n >= 1,
            inode_record_offset(&self.super_block, n) <= u64::MAX,
        ensures
            r == inode_record_offset(&self.super_block, n),
    {
        let sb = &self.super_block;
        let ipg = sb.inodes_per_group as u64;
        let group = (n as u64 - 1) / ipg;
        let index = (n as u64 - 1) % ipg;
        let ito = sb.inode_table_offset();
        let bs = sb.block_size();
        let bpg = sb.blocks_per_group as u64;
        let isz = sb.inode_size as u64;
        proof {
            let a = group * bpg + ito + 1;
            assert(group * bpg <= a);
            assert(a <= a * bs) by (nonlinear_arith)
                requires bs >= 1, a >= 0;
            assert(0 <= index * isz) by (nonlinear_arith)
                requires index >= 0, isz >= 0;
            assert(0 <= group * bpg) by (nonlinear_arith)
                requires group >= 0, bpg >= 0;
        }
        let first = group * bpg + ito + 1;
        first * bs + index * isz
    }

    /// Byte of the inode bitmap that holds the bit of inode `n`.
    fn bitmap_byte(&self, n: u32) -> (r: u64)
        requires
            self.super_block.wf(),
            self.super_block.inodes_per_group > 0,
            n >= 1,
            inode_bitmap_byte(&self.super_block, n) <= u64::MAX,
        ensures
            r == inode_bitmap_byte(&self.super_block, n),
    {
        let sb = &self.super_block;
        let ipg = sb.inodes_per_group as u64;
        let group = (n as u64 - 1) / ipg;
        let index = (n as u64 - 1) % ipg;
        let ibo = sb.inode_bitmap_offset();
        let bs = sb.block_size();
        let bpg = sb.blocks_per_group as u64;
        proof {
            let a = group * bpg + ibo + 1;
            assert(group * bpg <= a);
            assert(a <= a * bs) by (nonlinear_arith)
                requires bs >= 1, a >= 0;
            assert(0 <= group * bpg) by (nonlinear_arith)
                requires group >= 0, bpg >= 0;
        }
        let first = group * bpg + ibo + 1;
        first * bs + index / 8
    }

    /// Whether inode `n` is marked used in its group's inode bitmap.
    pub fn inode_exists<D: BlockDriver>(&self, cache: &mut BlockCache<D>, n: u32) -> (r: bool)
        requires
            old(cache).wf(),
            self.super_block.wf(),
            self.super_block.inodes_per_group > 0,
            n >= 1,
            inode_bitmap_byte(&self.super_block, n) < old(cache)@.len(),
        ensures
            final(cache).wf(),
            final(cache)@ == old(cache)@,
            r == bit_set(old(cache)@[inode_bitmap_byte(&self.super_block, n)], inode_index(&self.super_block, n) % 8),
    {
        proof {
            cache.lemma_sector_count();
        }
        let at = self.bitmap_byte(n);
        let bit = ((n as u64 - 1) % (self.super_block.inodes_per_group as u64) % 8) as u8;
        let mut byte: Vec<u8> = vec![0u8];
        cache.read(at as usize, &mut byte);
        (byte[0] >> bit) & 1 == 1
    }
}

} // verus!

verus! {

impl Ext2InodeCache {
    /// First byte of bitmap block `i` of group `g` for bitmaps that start `first` blocks into
    /// each group.
    fn bitmap_start(&self, g: u64, first: u64, i: u64) -> (r: u64)
        requires
            self.super_block.wf(),
            bitmap_block_start(&self.super_block, g as int, first as int, i as int) + 1024 <= usize::MAX,
        ensures
            r == bitmap_block_start(&self.super_block, g as int, first as int, i as int),
    {
        let bs = self.super_block.block_size();
        let bpg = self.super_block.blocks_per_group as u64;
        proof {
            let a = g * bpg + first + i + 1;
            assert(0 <= g * bpg) by (nonlinear_arith)
                requires g >= 0, bpg >= 0;
            assert(a <= a * bs) by (nonlinear_arith)
                requires bs >= 1, a >= 0;
        }
        (g * bpg + first + i + 1) * bs
    }

    /// Reserves the first clear bit among the first 1024 bytes of the `blocks` bitmap blocks of
    /// group `g`, writing the changed bitmap block back, and returns the bit's position within
    /// its bitmap block.
    fn reserve_in_group<D: BlockDriver>(&self, cache: &mut BlockCache<D>, g: u64, first: u64, blocks: u64) -> (r: Option<u32>)
        requires
            old(cache).wf(),
            self.super_block.wf(),
            forall|i: int| 0 <= i < blocks ==> #[trigger] bitmap_block_start(&self.super_block, g as int, first as int, i)
                + 1024 <= old(cache)@.len(),
        ensures
            final(cache).wf(),
            match r {
                None => final(cache)@ == old(cache)@ && group_full(
                    old(cache)@,
                    &self.super_block,
                    g as int,
                    first as int,
                    blocks as int,
                ),
                Some(v) => exists|i: int, j: int, b: int|
                    0 <= i < blocks && v == j * 8 + b && #[trigger] reserved_at(
                        old(cache)@,
                        final(cache)@,
                        &self.super_block,
                        g as int,
                        first as int,
                        i,
                        j,
                        b,
                    ) && first_clear_in_group(old(cache)@, &self.super_block, g as int, first as int, i, j, b),
            },
    {
        let ghost sb = &self.super_block;
        let mut i: u64 = 0;
        while i < blocks
            invariant
                cache.wf(),
                cache@ == old(cache)@,
                self.super_block.wf(),
                i <= blocks,
                forall|k: int| 0 <= k < blocks ==> #[trigger] bitmap_block_start(&self.super_block, g as int, first as int, k)
                    + 1024 <= old(cache)@.len(),
                forall|k: int, j: int| 0 <= k < i && 0 <= j < 1024 ==> #[trigger] old(cache)@[bitmap_block_start(
                    &self.super_block,
                    g as int,
                    first as int,
                    k,
                ) + j] == 0xFFu8,
            decreases blocks - i,
        {
            let ghost s = bitmap_block_start(&self.super_block, g as int, first as int, i as int);
            assert(s + 1024 <= old(cache)@.len());
            let at = self.bitmap_start(g, first, i);
            proof {
                cache.lemma_sector_count();
            }
            let mut buffer = crate::bytes::zeroed_bytes(1024);
            cache.read(at as usize, &mut buffer);
            let ghost read_back = buffer@;
            assert(read_back == old(cache)@.subrange(s, s + 1024));
            match scan_and_reserve_first_open(&mut buffer) {
                Some(v) => {
                    proof {
                        cache.lemma_sector_count();
                    }
                    cache.write(at as usize, buffer.as_slice());
                    proof {
                        let j = (v / 8) as int;
                        let b = (v % 8) as int;
                        assert(read_back[j] == old(cache)@[s + j]);
                        assert(cache@ =~= with_bit(old(cache)@, s + j, b));
                        assert(reserved_at(old(cache)@, cache@, &self.super_block, g as int, first as int, i as int, j, b));
                        assert forall|jj: int| 0 <= jj < j implies #[trigger] old(cache)@[bitmap_block_start(
                            &self.super_block,
                            g as int,
                            first as int,
                            i as int,
                        ) + jj] == 0xFFu8 by {
                            assert(read_back[jj] == old(cache)@[s + jj]);
                        }
                        assert(first_clear_in_group(old(cache)@, &self.super_block, g as int, first as int, i as int, j, b));
                    }
                    return Some(v);
                },
                None => {
                    proof {
                        assert forall|k: int, j: int| 0 <= k < i + 1 && 0 <= j < 1024 implies #[trigger] old(cache)@[bitmap_block_start(
                            &self.super_block,
                            g as int,
                            first as int,
                            k,
                        ) + j] == 0xFFu8 by {
                            if k == i {
                                assert(read_back[j] == old(cache)@[s + j]);
                            }
                        }
                    }
                },
            }
            i += 1;
        }
        None
    }
}

} // verus!

verus! {

impl Ext2InodeCache {
    /// Position within the whole bitmap of bit `v` of the bitmap of group `g`.
    fn group_base(&self, g: u64, v: u32, base: u32) -> (r: u32)
        requires
            self.super_block.wf(),
            g < walked_groups(&self.super_block),
            v < 8192,
            (self.super_block.group_count_spec() + 1) * self.super_block.block_size_spec() * 8 + self.super_block.first_data_block
                < u32::MAX,
            base <= self.super_block.first_data_block + 1,
        ensures
            r == g * self.super_block.block_size_spec() * 8 + v + base,
    {
        let bs = self.super_block.block_size();
        proof {
            let gc = self.super_block.group_count_spec();
            assert(g + 1 <= gc + 1);
            assert((g + 1) * bs * 8 <= (gc + 1) * bs * 8) by (nonlinear_arith)
                requires g + 1 <= gc + 1, bs >= 0, g >= 0;
            assert((g + 1) * bs * 8 == g * bs * 8 + bs * 8) by (nonlinear_arith);
        }
        (g * bs * 8) as u32 + v + base
    }

    /// Reserves a free inode: the first clear bit of the inode bitmaps, group by group from the
    /// first. Returns its number (the bit's position plus one), or 0 with nothing changed when
    /// every bitmap is full.
    pub fn allocate_inode_number<D: BlockDriver>(&self, cache: &mut BlockCache<D>) -> (r: u32)
        requires
            old(cache).wf(),
            self.layout_ok(old(cache)@.len() as int),
        ensures
            final(cache).wf(),
            r != 0 ==> reserved_bit(
                old(cache)@,
                final(cache)@,
                &self.super_block,
                self.super_block.inode_bitmap_offset_spec(),
                self.super_block.inode_bitmap_blocks_spec(),
                r as int,
                1,
            ),
            r != 0 ==> first_in_scan(
                old(cache)@,
                final(cache)@,
                &self.super_block,
                self.super_block.inode_bitmap_offset_spec(),
                self.super_block.inode_bitmap_blocks_spec(),
                r as int,
                1,
                0,
            ),
            r == 0 <==> final(cache)@ == old(cache)@ && forall|g: int| 0 <= g < walked_groups(&self.super_block)
                ==> #[trigger] group_full(
                old(cache)@,
                &self.super_block,
                g,
                self.super_block.inode_bitmap_offset_spec(),
                self.super_block.inode_bitmap_blocks_spec(),
            ),
    {
        let ghost sb = &self.super_block;
        let first = self.super_block.inode_bitmap_offset();
        let blocks = self.super_block.inode_bitmap_blocks();
        let gc = self.super_block.group_count();
        let walked = if gc == 0 { 1 } else { gc };
        let mut target: u64 = 0;
        while target < walked
            invariant
                cache.wf(),
                cache@ == old(cache)@,
                self.layout_ok(old(cache)@.len() as int),
                first == self.super_block.inode_bitmap_offset_spec(),
                blocks == self.super_block.inode_bitmap_blocks_spec(),
                walked == walked_groups(&self.super_block),
                target <= walked,
                forall|g: int| 0 <= g < target ==> #[trigger] group_full(old(cache)@, &self.super_block, g, first as int, blocks as int),
            decreases walked - target,
        {
            match self.reserve_in_group(cache, target, first, blocks) {
                Some(v) => {
                    let r = self.group_base(target, v, 1);
                    proof {
                        let (i, j, b) = choose|i: int, j: int, b: int| 0 <= i < blocks && v == j * 8 + b && #[trigger] reserved_at(
                            old(cache)@,
                            cache@,
                            &self.super_block,
                            target as int,
                            first as int,
                            i,
                            j,
                            b,
                        ) && first_clear_in_group(old(cache)@, &self.super_block, target as int, first as int, i, j, b);
                        assert(reserved_at(old(cache)@, cache@, &self.super_block, target as int, first as int, i, j, b));
                        assert(first_clear_in_group(old(cache)@, &self.super_block, target as int, first as int, i, j, b));
                        assert(cache@ != old(cache)@) by {
                            let at = bitmap_block_start(&self.super_block, target as int, first as int, i) + j;
                            let x = old(cache)@[at];
                            lemma_set_clear_bit(x, b as u8);
                            assert(cache@[at] != old(cache)@[at]);
                        }
                    }
                    return r;
                },
                None => {},
            }
            target += 1;
        }
        0
    }

    /// Reserves a free data block: the first clear bit of the block bitmaps, group by group from
    /// the group of inode `n`, wrapping round to the first group. Returns the block number (the
    /// bit's position plus the first data block), or 0 with nothing changed when every bitmap is
    /// full.
    pub fn allocate_data_block<D: BlockDriver>(&self, cache: &mut BlockCache<D>, n: u32) -> (r: u32)
        requires
            old(cache).wf(),
            self.layout_ok(old(cache)@.len() as int),
            n >= 1,
            inode_group(&self.super_block, n) < walked_groups(&self.super_block),
        ensures
            final(cache).wf(),
            final(cache)@ == old(cache)@ ==> r == 0 && forall|g: int| 0 <= g < walked_groups(&self.super_block)
                ==> #[trigger] group_full(
                old(cache)@,
                &self.super_block,
                g,
                self.super_block.block_bitmap_offset_spec(),
                self.super_block.block_bitmap_blocks_spec(),
            ),
            final(cache)@ != old(cache)@ ==> reserved_bit(
                old(cache)@,
                final(cache)@,
                &self.super_block,
                self.super_block.block_bitmap_offset_spec(),
                self.super_block.block_bitmap_blocks_spec(),
                r as int,
                self.super_block.first_data_block as int,
            ),
            final(cache)@ != old(cache)@ ==> first_in_scan(
                old(cache)@,
                final(cache)@,
                &self.super_block,
                self.super_block.block_bitmap_offset_spec(),
                self.super_block.block_bitmap_blocks_spec(),
                r as int,
                self.super_block.first_data_block as int,
                inode_group(&self.super_block, n),
            ),
    {
        let first = self.super_block.block_bitmap_offset();
        let blocks = self.super_block.block_bitmap_blocks();
        let gc = self.super_block.group_count();
        let walked = if gc == 0 { 1 } else { gc };
        let group = (n as u64 - 1) / (self.super_block.inodes_per_group as u64);
        let mut rolled_over = false;
        let mut target: u64 = group;
        while !(rolled_over && target == group)
            invariant
                cache.wf(),
                cache@ == old(cache)@,
                self.layout_ok(old(cache)@.len() as int),
                first == self.super_block.block_bitmap_offset_spec(),
                blocks == self.super_block.block_bitmap_blocks_spec(),
                walked == walked_groups(&self.super_block),
                gc == self.super_block.group_count_spec(),
                group < walked,
                target < walked,
                rolled_over ==> target <= group,
                !rolled_over ==> group <= target,
                group == inode_group(&self.super_block, n),
                forall|g: int| (if rolled_over { group <= g < walked || 0 <= g < target } else { group <= g < target })
                    ==> #[trigger] group_full(old(cache)@, &self.super_block, g, first as int, blocks as int),
            decreases (if rolled_over { group - target } else { walked - target + group + 1 }),
        {
            match self.reserve_in_group(cache, target, first, blocks) {
                Some(v) => {
                    let r = self.group_base(target, v, self.super_block.first_data_block);
                    proof {
                        let (i, j, b) = choose|i: int, j: int, b: int| 0 <= i < blocks && v == j * 8 + b && #[trigger] reserved_at(
                            old(cache)@,
                            cache@,
                            &self.super_block,
                            target as int,
                            first as int,
                            i,
                            j,
                            b,
                        ) && first_clear_in_group(old(cache)@, &self.super_block, target as int, first as int, i, j, b);
                        assert(reserved_at(old(cache)@, cache@, &self.super_block, target as int, first as int, i, j, b));
                        assert(first_clear_in_group(old(cache)@, &self.super_block, target as int, first as int, i, j, b));
                        assert(cache@ != old(cache)@) by {
                            let at = bitmap_block_start(&self.super_block, target as int, first as int, i) + j;
                            let x = old(cache)@[at];
                            lemma_set_clear_bit(x, b as u8);
                            assert(cache@[at] != old(cache)@[at]);
                        }
                        assert forall|h: int| scanned_before(&self.super_block, group as int, target as int, h) implies #[trigger] group_full(
                            old(cache)@,
                            &self.super_block,
                            h,
                            first as int,
                            blocks as int,
                        ) by {}
                    }
                    return r;
                },
                None => {},
            }
            target += 1;
            if target >= gc {
                target = 0;
                rolled_over = true;
            }
        }
        0
    }
}

} // verus!

verus! {

/// Whether `m` holds the fields that the inode record at `off` of `v` gives.
pub open spec fn meta_read_from(m: Ext2Meta, v: Seq<u8>, off: int) -> bool {
    &&& m.mode == crate::bytes::le_u16(v, off)
    &&& m.size == crate::bytes::le_u32(v, off + 4)
    &&& m.links_count == crate::bytes::le_u16(v, off + 26)
    &&& forall|i: int| 0 <= i < 15 ==> #[trigger] m.block[i] == crate::bytes::le_u32(v, off + 40 + 4 * i)
}

impl Ext2InodeCache {
    /// Whether the record of inode `n`, and the bit of its bitmap, lie within a disk of `len`
    /// bytes.
    pub open spec fn inode_on_disk(&self, n: u32, len: int) -> bool {
        &&& self.super_block.wf()
        &&& self.super_block.inodes_per_group > 0
        &&& n >= 1
        &&& inode_bitmap_byte(&self.super_block, n) < len
        &&& inode_record_offset(&self.super_block, n) + 1024 <= len
    }

    /// Reads the record of inode `n`, from the 1024 bytes of the inode table at its start.
    pub fn read_node<D: BlockDriver>(&self, cache: &mut BlockCache<D>, n: u32) -> (r: Ext2Inode)
        requires
            old(cache).wf(),
            self.inode_on_disk(n, old(cache)@.len() as int),
        ensures
            final(cache).wf(),
            final(cache)@ == old(cache)@,
            r.parsed_from(old(cache)@, inode_record_offset(&self.super_block, n)),
    {
        proof {
            cache.lemma_sector_count();
        }
        let at = self.record_offset(n);
        let mut block_buffer = crate::bytes::zeroed_bytes(1024);
        cache.read(at as usize, &mut block_buffer);
        let ghost b = block_buffer@;
        let node = Ext2Inode::parse(block_buffer.as_slice(), 0);
        proof {
            let off = inode_record_offset(&self.super_block, n);
            assert(forall|k: int| 0 <= k < 1024 ==> #[trigger] b[k] == old(cache)@[off + k]);
            assert forall|i: int| 0 <= i < 15 implies #[trigger] node.block[i] == crate::bytes::le_u32(
                old(cache)@,
                off + 40 + 4 * i,
            ) by {
                assert(node.block[i] == crate::bytes::le_u32(b, 40 + 4 * i));
                assert(b[40 + 4 * i] == old(cache)@[off + 40 + 4 * i]);
                assert(b[40 + 4 * i + 1] == old(cache)@[off + 40 + 4 * i + 1]);
                assert(b[40 + 4 * i + 2] == old(cache)@[off + 40 + 4 * i + 2]);
                assert(b[40 + 4 * i + 3] == old(cache)@[off + 40 + 4 * i + 3]);
            }
            assert forall|i: int| 0 <= i < 12 implies #[trigger] node.osd2[i] == old(cache)@[off + 116 + i] by {
                assert(b[116 + i] == old(cache)@[off + 116 + i]);
            }
        }
        node
    }

    /// Writes the 128 bytes of `inode` over the record of inode `n`.
    pub fn write_node<D: BlockDriver>(&self, cache: &mut BlockCache<D>, n: u32, inode: &Ext2Inode)
        requires
            old(cache).wf(),
            self.super_block.wf(),
            self.super_block.inodes_per_group > 0,
            n >= 1,
            inode_record_offset(&self.super_block, n) + EXT2_INODE_SIZE <= old(cache)@.len(),
        ensures
            final(cache).wf(),
            final(cache)@ == spliced(old(cache)@, inode_record_offset(&self.super_block, n), inode_bytes(*inode)),
            final(cache)@.len() == old(cache)@.len(),
    {
        proof {
            cache.lemma_sector_count();
        }
        let at = self.record_offset(n);
        let bytes = inode.to_bytes();
        cache.write(at as usize, bytes.as_slice());
        proof {
            lemma_spliced_len(old(cache)@, inode_record_offset(&self.super_block, n), inode_bytes(*inode));
        }
    }

    /// Reads the record of inode `n`, hands it to `func`, and writes back the record `func`
    /// returns.
    pub fn modify_node<D: BlockDriver, F: FnOnce(Ext2Inode) -> Ext2Inode>(&self, cache: &mut BlockCache<D>, n: u32, func: F)
        requires
            old(cache).wf(),
            self.inode_on_disk(n, old(cache)@.len() as int),
            forall|i: Ext2Inode| #[trigger] call_requires(func, (i,)),
        ensures
            final(cache).wf(),
            final(cache)@.len() == old(cache)@.len(),
            exists|before: Ext2Inode, after: Ext2Inode|
                #![trigger call_ensures(func, (before,), after)]
                before.parsed_from(old(cache)@, inode_record_offset(&self.super_block, n)) && call_ensures(
                    func,
                    (before,),
                    after,
                ) && final(cache)@ == spliced(old(cache)@, inode_record_offset(&self.super_block, n), inode_bytes(after)),
    {
        proof {
            cache.lemma_sector_count();
        }
        let at = self.record_offset(n);
        let mut block_buffer = crate::bytes::zeroed_bytes(EXT2_INODE_SIZE);
        cache.read(at as usize, &mut block_buffer);
        let ghost b = block_buffer@;
        let node = Ext2Inode::parse(block_buffer.as_slice(), 0);
        proof {
            let off = inode_record_offset(&self.super_block, n);
            assert(forall|k: int| 0 <= k < 128 ==> #[trigger] b[k] == old(cache)@[off + k]);
            assert forall|i: int| 0 <= i < 15 implies #[trigger] node.block[i] == crate::bytes::le_u32(
                old(cache)@,
                off + 40 + 4 * i,
            ) by {
                assert(node.block[i] == crate::bytes::le_u32(b, 40 + 4 * i));
                assert(b[40 + 4 * i] == old(cache)@[off + 40 + 4 * i]);
                assert(b[40 + 4 * i + 1] == old(cache)@[off + 40 + 4 * i + 1]);
                assert(b[40 + 4 * i + 2] == old(cache)@[off + 40 + 4 * i + 2]);
                assert(b[40 + 4 * i + 3] == old(cache)@[off + 40 + 4 * i + 3]);
            }
            assert forall|i: int| 0 <= i < 12 implies #[trigger] node.osd2[i] == old(cache)@[off + 116 + i] by {
                assert(b[116 + i] == old(cache)@[off + 116 + i]);
            }
        }
        let ghost mid = cache@;
        let modified = func(node);
        let bytes = modified.to_bytes();
        proof {
            cache.lemma_sector_count();
        }
        cache.write(at as usize, bytes.as_slice());
        proof {
            assert(call_ensures(func, (node,), modified));
            lemma_spliced_len(old(cache)@, inode_record_offset(&self.super_block, n), inode_bytes(modified));
        }
    }

    /// The inode numbered `n`: the cached one if it is loaded, else read from its record and
    /// added to the cache, or `NoExist` when its bitmap marks it free.
    pub fn lookup_or_create<D: BlockDriver>(&mut self, cache: &mut BlockCache<D>, n: u32) -> (r: Result<
        Ext2InodeWrapper,
        FsError,
    >)
        requires
            old(cache).wf(),
            (forall|j: int| 0 <= j < old(self).cache@.len() ==> #[trigger] old(self).cache@[j].number != n)
                ==> old(self).inode_on_disk(n, old(cache)@.len() as int),
        ensures
            final(cache).wf(),
            final(cache)@ == old(cache)@,
            final(self).super_block == old(self).super_block,
            forall|k: int| first_with_number(old(self).cache@, n, k) ==> r == Ok::<Ext2InodeWrapper, FsError>(
                old(self).cache@[k],
            ) && final(self).cache@ == old(self).cache@,
            (forall|j: int| 0 <= j < old(self).cache@.len() ==> #[trigger] old(self).cache@[j].number != n) ==> {
                let sb = &old(self).super_block;
                if !bit_set(old(cache)@[inode_bitmap_byte(sb, n)], inode_index(sb, n) % 8) {
                    r == Err::<Ext2InodeWrapper, FsError>(FsError::NoExist) && final(self).cache@ == old(self).cache@
                } else {
                    &&& r is Ok
                    &&& r->Ok_0.number == n
                    &&& meta_read_from(r->Ok_0.ext2_inode, old(cache)@, inode_record_offset(sb, n))
                    &&& final(self).cache@ == old(self).cache@.push(r->Ok_0)
                }
            },
    {
        match self.position(n) {
            Some(k) => {
                return Ok(self.cache[k]);
            },
            None => {},
        }
        if !self.inode_exists(cache, n) {
            return Err(FsError::NoExist);
        }
        let node = self.read_node(cache, n);
        let wrapped = Ext2InodeWrapper { number: n, ext2_inode: Ext2Meta::from_ext2_inode(&node) };
        Ok(self.insert(wrapped))
    }
}

} // verus!

verus! {

/// A reserved bit leaves the disk as long as it was, and names a block below the end of the
/// last walked group's range.
pub proof fn lemma_reserved_bit_bound(old: Seq<u8>, new: Seq<u8>, sb: &SuperBlock, first: int, blocks: int, r: int, base: int)
    requires
        sb.wf(),
        reserved_bit(old, new, sb, first, blocks, r, base),
    ensures
        new.len() == old.len(),
        r < walked_groups(sb) * sb.block_size_spec() * 8 + base,
{
    let (g, i, j, b) = choose|g: int, i: int, j: int, b: int|
        0 <= g < walked_groups(sb) && 0 <= i < blocks && #[trigger] reserved_at(old, new, sb, g, first, i, j, b) && r
            == g * sb.block_size_spec() * 8 + j * 8 + b + base;
    let bs = sb.block_size_spec();
    assert(bs >= 1024) by {
        vstd::arithmetic::power2::lemma_pow2_pos(sb.log_block_size as nat);
    }
    assert(g * bs * 8 + j * 8 + b < (g + 1) * bs * 8) by (nonlinear_arith)
        requires
            0 <= j < 1024,
            0 <= b < 8,
            bs >= 1024,
            g >= 0;
    assert((g + 1) * bs * 8 <= walked_groups(sb) * bs * 8) by (nonlinear_arith)
        requires
            g + 1 <= walked_groups(sb),
            bs >= 0;
}

/// Writing bytes inside the disk keeps its length.
pub proof fn lemma_spliced_len(v: Seq<u8>, at: int, data: Seq<u8>)
    requires
        0 <= at,
        at + data.len() <= v.len(),
    ensures
        spliced(v, at, data).len() == v.len(),
{
}

} // verus!

verus! {

/// What reading an inode record gives back after writing it: the inode written.
pub proof fn lemma_read_node_after_write(v: Seq<u8>, off: int, written: Ext2Inode, read: Ext2Inode)
    requires
        0 <= off,
        off + EXT2_INODE_SIZE <= v.len(),
        read.parsed_from(spliced(v, off, inode_bytes(written)), off),
    ensures
        read == written,
{
    crate::subsystem::fs::ext2::raw::lemma_inode_bytes_parse(written);
    crate::subsystem::fs::ext2::raw::lemma_inode_bytes_len(written);
    let b = inode_bytes(written);
    let s = spliced(v, off, b);
    assert forall|k: int| 0 <= k < 128 implies #[trigger] s[off + k] == b[k] by {}
    assert(read.block =~= written.block) by {
        assert forall|j: int| 0 <= j < 15 implies read.block[j] == written.block[j] by {
            assert(s[off + 40 + 4 * j] == b[40 + 4 * j]);
            assert(s[off + 40 + 4 * j + 1] == b[40 + 4 * j + 1]);
            assert(s[off + 40 + 4 * j + 2] == b[40 + 4 * j + 2]);
            assert(s[off + 40 + 4 * j + 3] == b[40 + 4 * j + 3]);
        }
    }
    assert(read.osd2 =~= written.osd2) by {
        assert forall|j: int| 0 <= j < 12 implies read.osd2[j] == written.osd2[j] by {
            assert(s[off + 116 + j] == b[116 + j]);
        }
    }
    assert(s[off] == b[0] && s[off + 1] == b[1] && s[off + 2] == b[2] && s[off + 3] == b[3]);
    assert(s[off + 4] == b[4] && s[off + 5] == b[5] && s[off + 6] == b[6] && s[off + 7] == b[7]);
    assert(s[off + 8] == b[8] && s[off + 9] == b[9] && s[off + 10] == b[10] && s[off + 11] == b[11]);
    assert(s[off + 12] == b[12] && s[off + 13] == b[13] && s[off + 14] == b[14] && s[off + 15] == b[15]);
    assert(s[off + 16] == b[16] && s[off + 17] == b[17] && s[off + 18] == b[18] && s[off + 19] == b[19]);
    assert(s[off + 20] == b[20] && s[off + 21] == b[21] && s[off + 22] == b[22] && s[off + 23] == b[23]);
    assert(s[off + 24] == b[24] && s[off + 25] == b[25] && s[off + 26] == b[26] && s[off + 27] == b[27]);
    assert(s[off + 28] == b[28] && s[off + 29] == b[29] && s[off + 30] == b[30] && s[off + 31] == b[31]);
    assert(s[off + 32] == b[32] && s[off + 33] == b[33] && s[off + 34] == b[34] && s[off + 35] == b[35]);
    assert(s[off + 36] == b[36] && s[off + 37] == b[37] && s[off + 38] == b[38] && s[off + 39] == b[39]);
    assert(s[off + 100] == b[100] && s[off + 101] == b[101] && s[off + 102] == b[102] && s[off + 103] == b[103]);
    assert(s[off + 104] == b[104] && s[off + 105] == b[105] && s[off + 106] == b[106] && s[off + 107] == b[107]);
    assert(s[off + 108] == b[108] && s[off + 109] == b[109] && s[off + 110] == b[110] && s[off + 111] == b[111]);
    assert(s[off + 112] == b[112] && s[off + 113] == b[113] && s[off + 114] == b[114] && s[off + 115] == b[115]);
}

} // verus!

verus! {

/// A reserved bit was clear, so not every walked group was full.
pub proof fn lemma_reserved_bit_not_full(old: Seq<u8>, new: Seq<u8>, sb: &SuperBlock, first: int, blocks: int, r: int, base: int)
    requires
        reserved_bit(old, new, sb, first, blocks, r, base),
    ensures
        !(forall|g: int| 0 <= g < walked_groups(sb) ==> #[trigger] group_full(old, sb, g, first, blocks)),
{
    let (g, i, j, b) = choose|g: int, i: int, j: int, b: int|
        0 <= g < walked_groups(sb) && 0 <= i < blocks && #[trigger] reserved_at(old, new, sb, g, first, i, j, b) && r
            == g * sb.block_size_spec() * 8 + j * 8 + b + base;
    let x = old[bitmap_block_start(sb, g, first, i) + j];
    let k = b as u8;
    assert(x != 0xFFu8) by {
        if x == 0xFFu8 {
            assert((0xFFu8 >> k) & 1u8 == 1u8) by (bit_vector)
                requires
                    k < 8,
            ;
        }
    }
    assert(!group_full(old, sb, g, first, blocks));
}

} // verus!
