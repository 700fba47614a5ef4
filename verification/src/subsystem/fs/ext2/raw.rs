use vstd::prelude::*;
use vstd::arithmetic::power2::pow2;
use crate::bytes::{le_u16, le_u32, read_le_u16, read_le_u32, u32_le_bytes, u32_to_le_bytes};
use crate::dtb::parser::copy_bytes;

verus! {

/// `a / b` rounded up.
pub open spec fn div_ceil(a: int, b: int) -> int {
    (a + b - 1) / b
}

pub fn div_ceil_u64(a: u64, b: u64) -> (r: u64)
    requires
        b > 0,
    ensures
        r == div_ceil(a as int, b as int),
{
    let q = a / b;
    proof {
        assert(q * b + a % b == a && 0 <= a % b < b) by (nonlinear_arith)
            requires q == a / b, b > 0;
        assert(a % b != 0 ==> q < 0xffff_ffff_ffff_ffff) by (nonlinear_arith)
            requires q * b + a % b == a, 0 <= a % b < b, b > 0, a <= 0xffff_ffff_ffff_ffff;
    }
    let r = if a % b == 0 { q } else { q + 1 };
    proof {
        assert(r as int == (a as int + b as int - 1) / b as int) by (nonlinear_arith)
            requires q * b + a % b == a, 0 <= a % b < b, b > 0,
                r as int == if a % b == 0 { q as int } else { q as int + 1 };
    }
    r
}

/// Size in bytes of the superblock record that the driver reads.
pub const SUPER_BLOCK_SIZE: usize = 204;

/// Size in bytes of an on-disk inode record.
pub const EXT2_INODE_SIZE: usize = 128;

pub struct SuperBlock {
    /// Total number of inodes, used + free, in the fs.
    pub inodes_count: u32,
    /// Total number of blocks, used + free, in the fs.
    pub blocks_count: u32,
    /// Total number of blocks reserved for super user.
    pub r_blocks_count: u32,
    /// Total number of free blocks.
    pub free_blocks_count: u32,
    /// Total number of free inodes.
    pub free_inodes_count: u32,
    /// ID of the first datablock.
    pub first_data_block: u32,
    /// log2(max block size) - 10
    pub log_block_size: u32,
    /// log2(max frag size) - 10
    pub log_frag_size: u32,
    /// Total number of blocks per group.
    pub blocks_per_group: u32,
    /// Total number of fragments per group.
    pub frags_per_group: u32,
    /// Total number of inodes per group.
    pub inodes_per_group: u32,
    /// Unix time of last time mounted.
    pub mtime: u32,
    /// Unix time of last write.
    pub wtime: u32,
    /// How many times the file system was mounted before last verify.
    pub mnt_count: u16,
    /// Max times to mount before verification.
    pub max_mnt_count: u16,
    /// Ext2 identification magic number, 0xEF53.
    pub magic: u16,
    /// File system state.
    pub state: u16,
    /// What the driver should do if errors are detected.
    pub errors: u16,
    /// Minor revision level.
    pub minor_rev_level: u16,
    /// Unix time of last fs check.
    pub last_check: u32,
    /// Max Unix time interval between fs checks.
    pub check_interval: u32,
    /// Identifier of the OS that created the file system.
    pub creator_os: u32,
    /// Revision level.
    pub rev_level: u32,
    /// Default user id for reserved blocks.
    pub def_resuid: u16,
    /// Default group id for reserved blocks.
    pub def_resgid: u16,
    /// First usable inode index.
    pub first_inode: u32,
    /// Inode size.
    pub inode_size: u16,
    /// Block group number hosting this superblock.
    pub block_group_number: u16,
    /// Compatible features.
    pub feature_compatible: u32,
    /// Incompatible features.
    pub feature_incompatible: u32,
    /// Read-only compatible features.
    pub feature_ro_compatible: u32,
    /// UUID of this file system.
    pub uuid: Vec<u8>,
    /// Name of this volume.
    pub volume_name: Vec<u8>,
    /// Directory where this was last mounted.
    pub last_mounted: Vec<u8>,
    /// Compression algorithms used.
    pub algo_bitmap: u32,
}

impl SuperBlock {
    /// Geometry that the layout computations rely on.
    pub open spec fn wf(&self) -> bool {
        &&& self.log_block_size <= 16
        &&& self.blocks_per_group > 0
    }

    pub open spec fn block_size_spec(&self) -> int {
        (1024 * pow2(self.log_block_size as nat)) as int
    }

    pub open spec fn group_count_spec(&self) -> int {
        (self.blocks_count / self.blocks_per_group) as int
    }

    pub open spec fn group_descriptor_blocks_spec(&self) -> int {
        div_ceil(self.group_count_spec() * 32, self.block_size_spec())
    }

    pub open spec fn block_bitmap_offset_spec(&self) -> int {
        1 + self.group_descriptor_blocks_spec()
    }

    pub open spec fn block_bitmap_blocks_spec(&self) -> int {
        div_ceil(self.blocks_per_group as int, self.block_size_spec() * 8)
    }

    pub open spec fn inode_bitmap_offset_spec(&self) -> int {
        self.block_bitmap_offset_spec() + self.block_bitmap_blocks_spec()
    }

    pub open spec fn inode_bitmap_blocks_spec(&self) -> int {
        div_ceil(self.inodes_per_group as int, self.block_size_spec() * 8)
    }

    pub open spec fn inode_table_offset_spec(&self) -> int {
        self.inode_bitmap_offset_spec() + self.inode_bitmap_blocks_spec()
    }

    /// Whether this superblock is the record that `b` holds at `off`.
    pub open spec fn parsed_from(&self, b: Seq<u8>, off: int) -> bool {
        &&& self.inodes_count == le_u32(b, off)
        &&& self.blocks_count == le_u32(b, off + 4)
        &&& self.r_blocks_count == le_u32(b, off + 8)
        &&& self.free_blocks_count == le_u32(b, off + 12)
        &&& self.free_inodes_count == le_u32(b, off + 16)
        &&& self.first_data_block == le_u32(b, off + 20)
        &&& self.log_block_size == le_u32(b, off + 24)
        &&& self.log_frag_size == le_u32(b, off + 28)
        &&& self.blocks_per_group == le_u32(b, off + 32)
        &&& self.frags_per_group == le_u32(b, off + 36)
        &&& self.inodes_per_group == le_u32(b, off + 40)
        &&& self.mtime == le_u32(b, off + 44)
        &&& self.wtime == le_u32(b, off + 48)
        &&& self.mnt_count == le_u16(b, off + 52)
        &&& self.max_mnt_count == le_u16(b, off + 54)
        &&& self.magic == le_u16(b, off + 56)
        &&& self.state == le_u16(b, off + 58)
        &&& self.errors == le_u16(b, off + 60)
        &&& self.minor_rev_level == le_u16(b, off + 62)
        &&& self.last_check == le_u32(b, off + 64)
        &&& self.check_interval == le_u32(b, off + 68)
        &&& self.creator_os == le_u32(b, off + 72)
        &&& self.rev_level == le_u32(b, off + 76)
        &&& self.def_resuid == le_u16(b, off + 80)
        &&& self.def_resgid == le_u16(b, off + 82)
        &&& self.first_inode == le_u32(b, off + 84)
        &&& self.inode_size == le_u16(b, off + 88)
        &&& self.block_group_number == le_u16(b, off + 90)
        &&& self.feature_compatible == le_u32(b, off + 92)
        &&& self.feature_incompatible == le_u32(b, off + 96)
        &&& self.feature_ro_compatible == le_u32(b, off + 100)
        &&& self.uuid@ == b.subrange(off + 104, off + 120)
        &&& self.volume_name@ == b.subrange(off + 120, off + 136)
        &&& self.last_mounted@ == b.subrange(off + 136, off + 200)
        &&& self.algo_bitmap == le_u32(b, off + 200)
    }

    /// Reads the superblock record that `b` holds at `off`.
    pub fn parse(b: &[u8], off: usize) -> (r: Self)
        requires
            off + SUPER_BLOCK_SIZE <= b@.len(),
        ensures
            r.parsed_from(b@, off as int),
    {
        let _n = b.len();
        SuperBlock {
            inodes_count: read_le_u32(b, off),
            blocks_count: read_le_u32(b, off + 4),
            r_blocks_count: read_le_u32(b, off + 8),
            free_blocks_count: read_le_u32(b, off + 12),
            free_inodes_count: read_le_u32(b, off + 16),
            first_data_block: read_le_u32(b, off + 20),
            log_block_size: read_le_u32(b, off + 24),
            log_frag_size: read_le_u32(b, off + 28),
            blocks_per_group: read_le_u32(b, off + 32),
            frags_per_group: read_le_u32(b, off + 36),
            inodes_per_group: read_le_u32(b, off + 40),
            mtime: read_le_u32(b, off + 44),
            wtime: read_le_u32(b, off + 48),
            mnt_count: read_le_u16(b, off + 52),
            max_mnt_count: read_le_u16(b, off + 54),
            magic: read_le_u16(b, off + 56),
            state: read_le_u16(b, off + 58),
            errors: read_le_u16(b, off + 60),
            minor_rev_level: read_le_u16(b, off + 62),
            last_check: read_le_u32(b, off + 64),
            check_interval: read_le_u32(b, off + 68),
            creator_os: read_le_u32(b, off + 72),
            rev_level: read_le_u32(b, off + 76),
            def_resuid: read_le_u16(b, off + 80),
            def_resgid: read_le_u16(b, off + 82),
            first_inode: read_le_u32(b, off + 84),
            inode_size: read_le_u16(b, off + 88),
            block_group_number: read_le_u16(b, off + 90),
            feature_compatible: read_le_u32(b, off + 92),
            feature_incompatible: read_le_u32(b, off + 96),
            feature_ro_compatible: read_le_u32(b, off + 100),
            uuid: copy_bytes(b, off + 104, 16),
            volume_name: copy_bytes(b, off + 120, 16),
            last_mounted: copy_bytes(b, off + 136, 64),
            algo_bitmap: read_le_u32(b, off + 200),
        }
    }

    pub fn block_size(&self) -> (r: u64)
        requires
            self.wf(),
        ensures
            r == self.block_size_spec(),
            1024 <= r <= 0x400_0000,
    {
        let shift = self.log_block_size as u64;
        proof {
            vstd::arithmetic::power2::lemma2_to64();
            vstd::arithmetic::power2::lemma_pow2_pos(shift as nat);
            if shift < 16 {
                vstd::arithmetic::power2::lemma_pow2_strictly_increases(shift as nat, 16);
            }
            vstd::bits::lemma_u64_shl_is_mul(1024, shift);
        }
        1024u64 << shift
    }

    pub fn group_count(&self) -> (r: u64)
        requires
            self.wf(),
        ensures
            r == self.group_count_spec(),
    {
        (self.blocks_count / self.blocks_per_group) as u64
    }

    pub fn super_block_offset(&self) -> (r: u64)
        ensures
            r == 0,
    {
        0
    }

    pub fn group_descriptor_offset(&self) -> (r: u64)
        ensures
            r == 1,
    {
        self.super_block_offset() + 1
    }

    pub fn group_descriptor_blocks(&self) -> (r: u64)
        requires
            self.wf(),
        ensures
            r == self.group_descriptor_blocks_spec(),
            r <= 0x1_0000_0000,
    {
        let r = div_ceil_u64(self.group_count() * 32, self.block_size());
        proof {
            let g = self.group_count_spec();
            let b = self.block_size_spec();
            assert(0 <= g <= 0xffff_ffff);
            assert((g * 32 + b - 1) / b <= 0x1_0000_0000) by (nonlinear_arith)
                requires 0 <= g <= 0xffff_ffff, b >= 1024;
        }
        r
    }

    pub fn block_bitmap_offset(&self) -> (r: u64)
        requires
            self.wf(),
        ensures
            r == self.block_bitmap_offset_spec(),
            r <= 0x1_0000_0001,
    {
        self.group_descriptor_offset() + self.group_descriptor_blocks()
    }

    pub fn block_bitmap_blocks(&self) -> (r: u64)
        requires
            self.wf(),
        ensures
            r == self.block_bitmap_blocks_spec(),
            r <= 0x1_0000_0000,
    {
        let bs = self.block_size();
        let r = div_ceil_u64(self.blocks_per_group as u64, bs * 8);
        proof {
            let p = self.blocks_per_group as int;
            assert((p + bs * 8 - 1) / (bs * 8) <= 0x1_0000_0000) by (nonlinear_arith)
                requires 0 <= p <= 0xffff_ffff, bs >= 1024;
        }
        r
    }

    pub fn inode_bitmap_offset(&self) -> (r: u64)
        requires
            self.wf(),
        ensures
            r == self.inode_bitmap_offset_spec(),
            r <= 0x2_0000_0001,
    {
        self.block_bitmap_offset() + self.block_bitmap_blocks()
    }

    pub fn inode_bitmap_blocks(&self) -> (r: u64)
        requires
            self.wf(),
        ensures
            r == self.inode_bitmap_blocks_spec(),
            r <= 0x1_0000_0000,
    {
        let bs = self.block_size();
        let r = div_ceil_u64(self.inodes_per_group as u64, bs * 8);
        proof {
            let p = self.inodes_per_group as int;
            assert((p + bs * 8 - 1) / (bs * 8) <= 0x1_0000_0000) by (nonlinear_arith)
                requires 0 <= p <= 0xffff_ffff, bs >= 1024;
        }
        r
    }

    pub fn inode_table_offset(&self) -> (r: u64)
        requires
            self.wf(),
        ensures
            r == self.inode_table_offset_spec(),
            r <= 0x3_0000_0001,
    {
        self.inode_bitmap_offset() + self.inode_bitmap_blocks()
    }

    pub fn inode_table_blocks(&self) -> (r: u64)
        requires
            self.wf(),
        ensures
            r == div_ceil(self.inodes_per_group * self.inode_size, self.block_size_spec()),
    {
        let ipg = self.inodes_per_group as u64;
        let isz = self.inode_size as u64;
        assert(ipg * isz <= 0xffff_ffff * 0xffff) by (nonlinear_arith)
            requires ipg <= 0xffff_ffff, isz <= 0xffff;
        let bytes = ipg * isz;
        div_ceil_u64(bytes, self.block_size())
    }
}

/// Description of one block group.
pub struct BlockGroupDescriptorTable {
    /// Block ID of the first block of the group's block bitmap.
    pub block_bitmap: u32,
    /// Block ID of the first block of the group's inode bitmap.
    pub inode_bitmap: u32,
    /// Block ID of the first block of the group's inode table.
    pub inode_table: u32,
    /// Number of free blocks of the group.
    pub free_blocks_count: u16,
    /// Number of free inodes of the group.
    pub free_inodes_count: u16,
    /// Number of inodes allocated to directories.
    pub used_dirs_count: u16,
}

impl BlockGroupDescriptorTable {
    /// Reads the descriptor that `b` holds at `off`.
    pub fn parse(b: &[u8], off: usize) -> (r: Self)
        requires
            off + 32 <= b@.len(),
        ensures
            r.block_bitmap == le_u32(b@, off as int),
            r.inode_bitmap == le_u32(b@, off + 4),
            r.inode_table == le_u32(b@, off + 8),
            r.free_blocks_count == le_u16(b@, off + 12),
            r.free_inodes_count == le_u16(b@, off + 14),
            r.used_dirs_count == le_u16(b@, off + 16),
    {
        let _n = b.len();
        BlockGroupDescriptorTable {
            block_bitmap: read_le_u32(b, off),
            inode_bitmap: read_le_u32(b, off + 4),
            inode_table: read_le_u32(b, off + 8),
            free_blocks_count: read_le_u16(b, off + 12),
            free_inodes_count: read_le_u16(b, off + 14),
            used_dirs_count: read_le_u16(b, off + 16),
        }
    }
}

/// On-disk inode.
#[derive(Clone, Copy)]
pub struct Ext2Inode {
    /// File type and access rights.
    pub mode: u16,
    /// User ID of the file.
    pub uid: u16,
    /// Size of the file in bytes (lower 32 bits).
    pub size: u32,
    /// Unix timestamp of last access.
    pub atime: u32,
    /// Unix timestamp of creation.
    pub ctime: u32,
    /// Unix timestamp of last modification.
    pub mtime: u32,
    /// Unix timestamp of deletion.
    pub dtime: u32,
    /// Group ID of the file.
    pub gid: u16,
    /// Hard links to this inode.
    pub links_count: u16,
    /// Number of 512-byte blocks reserved for this inode.
    pub blocks: u32,
    /// Access flags.
    pub flags: u32,
    /// OS dependent value.
    pub osd1: u32,
    /// Twelve direct block ids, then a single, a double and a triple indirect block id.
    pub block: [u32; 15],
    /// File version.
    pub generation: u32,
    /// Extended attributes.
    pub file_acl: u32,
    /// Upper 32 bits of the file size.
    pub dir_acl: u32,
    /// File fragment location.
    pub faddr: u32,
    /// OS dependent bytes.
    pub osd2: [u8; 12],
}

/// The 2 bytes of `x` in little endian order.
pub open spec fn u16_le_bytes(x: u16) -> Seq<u8> {
    seq![(x % 0x100) as u8, (x / 0x100) as u8]
}

/// The bytes of the first `n` block ids of `block`.
pub open spec fn block_ids_bytes(block: [u32; 15], n: nat) -> Seq<u8>
    decreases n,
{
    if n == 0 {
        Seq::empty()
    } else {
        block_ids_bytes(block, (n - 1) as nat) + u32_le_bytes(block[n - 1])
    }
}

/// Four bytes for each block id.
pub proof fn lemma_block_ids_bytes_len(block: [u32; 15], n: nat)
    ensures
        block_ids_bytes(block, n).len() == 4 * n,
    decreases n,
{
    if n > 0 {
        lemma_block_ids_bytes_len(block, (n - 1) as nat);
    }
}

/// An inode record is 128 bytes long.
pub proof fn lemma_inode_bytes_len(i: Ext2Inode)
    ensures
        inode_bytes(i).len() == EXT2_INODE_SIZE,
{
    lemma_block_ids_bytes_len(i.block, 15);
    assert(forall|x: u16| #[trigger] u16_le_bytes(x).len() == 2);
    assert(forall|x: u32| #[trigger] u32_le_bytes(x).len() == 4);
    assert(i.osd2@.len() == 12);
}

/// The 128 bytes of an inode record on disk.
pub open spec fn inode_bytes(i: Ext2Inode) -> Seq<u8> {
    u16_le_bytes(i.mode) + u16_le_bytes(i.uid) + u32_le_bytes(i.size) + u32_le_bytes(i.atime) + u32_le_bytes(i.ctime)
        + u32_le_bytes(i.mtime) + u32_le_bytes(i.dtime) + u16_le_bytes(i.gid) + u16_le_bytes(i.links_count)
        + u32_le_bytes(i.blocks) + u32_le_bytes(i.flags) + u32_le_bytes(i.osd1) + block_ids_bytes(i.block, 15)
        + u32_le_bytes(i.generation) + u32_le_bytes(i.file_acl) + u32_le_bytes(i.dir_acl) + u32_le_bytes(i.faddr)
        + i.osd2@
}

/// Appends the 2 bytes of `x` in little endian order.
fn push_u16(v: &mut Vec<u8>, x: u16)
    ensures
        final(v)@ == old(v)@ + u16_le_bytes(x),
{
    v.push((x % 0x100) as u8);
    v.push((x / 0x100) as u8);
    assert(v@ =~= old(v)@ + u16_le_bytes(x));
}

/// Appends the 4 bytes of `x` in little endian order.
fn push_u32(v: &mut Vec<u8>, x: u32)
    ensures
        final(v)@ == old(v)@ + u32_le_bytes(x),
{
    let mut b = u32_to_le_bytes(x);
    v.append(&mut b);
}

/// Whether a mode describes a regular file.
pub open spec fn mode_is_file(mode: u16) -> bool {
    mode / 0x1000 == 0x8
}

/// Whether a mode describes a directory.
pub open spec fn mode_is_directory(mode: u16) -> bool {
    mode / 0x1000 == 0x4
}

pub fn mode_file_type(mode: u16) -> (r: u16)
    ensures
        r == mode / 0x1000,
{
    assert(mode >> 12u16 == mode / 0x1000) by (bit_vector);
    mode >> 12
}

impl Ext2Inode {
    /// Whether this inode is the record that `b` holds at `off`.
    pub open spec fn parsed_from(&self, b: Seq<u8>, off: int) -> bool {
        &&& self.mode == le_u16(b, off)
        &&& self.uid == le_u16(b, off + 2)
        &&& self.size == le_u32(b, off + 4)
        &&& self.atime == le_u32(b, off + 8)
        &&& self.ctime == le_u32(b, off + 12)
        &&& self.mtime == le_u32(b, off + 16)
        &&& self.dtime == le_u32(b, off + 20)
        &&& self.gid == le_u16(b, off + 24)
        &&& self.links_count == le_u16(b, off + 26)
        &&& self.blocks == le_u32(b, off + 28)
        &&& self.flags == le_u32(b, off + 32)
        &&& self.osd1 == le_u32(b, off + 36)
        &&& forall|i: int| 0 <= i < 15 ==> #[trigger] self.block[i] == le_u32(b, off + 40 + 4 * i)
        &&& self.generation == le_u32(b, off + 100)
        &&& self.file_acl == le_u32(b, off + 104)
        &&& self.dir_acl == le_u32(b, off + 108)
        &&& self.faddr == le_u32(b, off + 112)
        &&& forall|i: int| 0 <= i < 12 ==> #[trigger] self.osd2[i] == b[off + 116 + i]
    }

    /// Reads the inode record that `b` holds at `off`.
    pub fn parse(b: &[u8], off: usize) -> (r: Self)
        requires
            off + EXT2_INODE_SIZE <= b@.len(),
        ensures
            r.parsed_from(b@, off as int),
    {
        let _n = b.len();
        let mut block = [0u32; 15];
        let mut i: usize = 0;
        while i < 15
            invariant
                off + EXT2_INODE_SIZE <= b@.len(),
                b@.len() <= usize::MAX,
                i <= 15,
                forall|j: int| 0 <= j < i ==> #[trigger] block[j] == le_u32(b@, off + 40 + 4 * j),
            decreases 15 - i,
        {
            block[i] = read_le_u32(b, off + 40 + 4 * i);
            i += 1;
        }
        let mut osd2 = [0u8; 12];
        let mut i: usize = 0;
        while i < 12
            invariant
                off + EXT2_INODE_SIZE <= b@.len(),
                b@.len() <= usize::MAX,
                i <= 12,
                forall|j: int| 0 <= j < i ==> #[trigger] osd2[j] == b@[off + 116 + j],
            decreases 12 - i,
        {
            osd2[i] = b[off + 116 + i];
            i += 1;
        }
        Ext2Inode {
            mode: read_le_u16(b, off),
            uid: read_le_u16(b, off + 2),
            size: read_le_u32(b, off + 4),
            atime: read_le_u32(b, off + 8),
            ctime: read_le_u32(b, off + 12),
            mtime: read_le_u32(b, off + 16),
            dtime: read_le_u32(b, off + 20),
            gid: read_le_u16(b, off + 24),
            links_count: read_le_u16(b, off + 26),
            blocks: read_le_u32(b, off + 28),
            flags: read_le_u32(b, off + 32),
            osd1: read_le_u32(b, off + 36),
            block,
            generation: read_le_u32(b, off + 100),
            file_acl: read_le_u32(b, off + 104),
            dir_acl: read_le_u32(b, off + 108),
            faddr: read_le_u32(b, off + 112),
            osd2,
        }
    }

    /// The 128 bytes of this inode on disk.
    pub fn to_bytes(&self) -> (r: Vec<u8>)
        ensures
            r@ == inode_bytes(*self),
            r@.len() == EXT2_INODE_SIZE,
    {
        proof {
            lemma_inode_bytes_len(*self);
        }
        let mut r: Vec<u8> = Vec::new();
        push_u16(&mut r, self.mode);
        push_u16(&mut r, self.uid);
        push_u32(&mut r, self.size);
        push_u32(&mut r, self.atime);
        push_u32(&mut r, self.ctime);
        push_u32(&mut r, self.mtime);
        push_u32(&mut r, self.dtime);
        push_u16(&mut r, self.gid);
        push_u16(&mut r, self.links_count);
        push_u32(&mut r, self.blocks);
        push_u32(&mut r, self.flags);
        push_u32(&mut r, self.osd1);
        let ghost head = r@;
        let mut i: usize = 0;
        while i < 15
            invariant
                i <= 15,
                r@ == head + block_ids_bytes(self.block, i as nat),
            decreases 15 - i,
        {
            push_u32(&mut r, self.block[i]);
            i += 1;
            assert(r@ =~= head + block_ids_bytes(self.block, i as nat));
        }
        push_u32(&mut r, self.generation);
        push_u32(&mut r, self.file_acl);
        push_u32(&mut r, self.dir_acl);
        push_u32(&mut r, self.faddr);
        let ghost head = r@;
        let mut i: usize = 0;
        while i < 12
            invariant
                i <= 12,
                r@ == head + self.osd2@.subrange(0, i as int),
            decreases 12 - i,
        {
            r.push(self.osd2[i]);
            i += 1;
            assert(r@ =~= head + self.osd2@.subrange(0, i as int));
        }
        assert(self.osd2@.subrange(0, 12) =~= self.osd2@);
        r
    }

    pub fn is_file(&self) -> (r: bool)
        ensures
            r == mode_is_file(self.mode),
    {
        mode_file_type(self.mode) == 0x8
    }

    pub fn is_directory(&self) -> (r: bool)
        ensures
            r == mode_is_directory(self.mode),
    {
        mode_file_type(self.mode) == 0x4
    }
}

/// Header of an ext2 directory entry, without the name that follows it.
#[derive(Clone, Copy, PartialEq, Eq, Structural)]
pub struct LinkedDirectoryEntryHeader {
    /// Inode number the entry points to; 0 if unused.
    pub inode: u32,
    /// Distance to the next entry, or to the end of the block.
    pub rec_len: u16,
    /// Name length.
    pub name_len: u8,
    /// File type.
    pub file_type: u8,
}

/// The 8 bytes of a directory entry header on disk.
pub open spec fn dentry_header_bytes(h: LinkedDirectoryEntryHeader) -> Seq<u8> {
    u32_le_bytes(h.inode) + seq![(h.rec_len % 0x100) as u8, (h.rec_len / 0x100) as u8, h.name_len, h.file_type]
}

/// A header's bytes are eight.
pub proof fn lemma_dentry_header_bytes_len(h: LinkedDirectoryEntryHeader)
    ensures
        dentry_header_bytes(h).len() == 8,
{
    crate::bytes::lemma_u32_le_bytes_roundtrip(h.inode);
}

impl LinkedDirectoryEntryHeader {
    /// Reads the header that `b` holds at `off`.
    pub fn parse(b: &[u8], off: usize) -> (r: Self)
        requires
            off + 8 <= b@.len(),
        ensures
            r.inode == le_u32(b@, off as int),
            r.rec_len == le_u16(b@, off + 4),
            r.name_len == b@[off + 6],
            r.file_type == b@[off + 7],
    {
        let _n = b.len();
        LinkedDirectoryEntryHeader {
            inode: read_le_u32(b, off),
            rec_len: read_le_u16(b, off + 4),
            name_len: b[off + 6],
            file_type: b[off + 7],
        }
    }

    /// The 8 bytes of this header on disk.
    pub fn to_bytes(&self) -> (r: Vec<u8>)
        ensures
            r@ == dentry_header_bytes(*self),
    {
        let mut r = u32_to_le_bytes(self.inode);
        r.push((self.rec_len % 0x100) as u8);
        r.push((self.rec_len / 0x100) as u8);
        r.push(self.name_len);
        r.push(self.file_type);
        assert(r@ =~= dentry_header_bytes(*self));
        r
    }
}

} // verus!

verus! {

/// The bytes of `x` read back as a little endian 16-bit value give `x`.
pub proof fn lemma_u16_le_bytes_roundtrip(x: u16)
    ensures
        le_u16(u16_le_bytes(x), 0) == x,
        u16_le_bytes(x).len() == 2,
{
}

/// The block ids read back from their bytes.
pub proof fn lemma_block_ids_bytes_parse(block: [u32; 15], n: nat, i: int)
    requires
        0 <= i < n <= 15,
    ensures
        le_u32(block_ids_bytes(block, n), 4 * i) == block[i],
    decreases n,
{
    lemma_block_ids_bytes_len(block, n);
    lemma_block_ids_bytes_len(block, (n - 1) as nat);
    let prev = block_ids_bytes(block, (n - 1) as nat);
    let last = u32_le_bytes(block[n - 1]);
    crate::bytes::lemma_u32_le_bytes_roundtrip(block[n - 1]);
    if i < n - 1 {
        lemma_block_ids_bytes_parse(block, (n - 1) as nat, i);
        assert(block_ids_bytes(block, n) == prev + last);
        assert((prev + last)[4 * i] == prev[4 * i]);
        assert((prev + last)[4 * i + 1] == prev[4 * i + 1]);
        assert((prev + last)[4 * i + 2] == prev[4 * i + 2]);
        assert((prev + last)[4 * i + 3] == prev[4 * i + 3]);
    } else {
        assert(block_ids_bytes(block, n) == prev + last);
        assert((prev + last)[4 * i] == last[0]);
        assert((prev + last)[4 * i + 1] == last[1]);
        assert((prev + last)[4 * i + 2] == last[2]);
        assert((prev + last)[4 * i + 3] == last[3]);
    }
}

/// An inode record parses back to the inode it was made from.
#[verifier::spinoff_prover]
#[verifier::rlimit(100)]
pub proof fn lemma_inode_bytes_parse(i: Ext2Inode)
    ensures
        i.parsed_from(inode_bytes(i), 0),
{
    lemma_inode_bytes_len(i);
    lemma_block_ids_bytes_len(i.block, 15);
    let b = inode_bytes(i);
    let s0 = u16_le_bytes(i.mode);
    let s1 = s0 + u16_le_bytes(i.uid);
    let s2 = s1 + u32_le_bytes(i.size);
    let s3 = s2 + u32_le_bytes(i.atime);
    let s4 = s3 + u32_le_bytes(i.ctime);
    let s5 = s4 + u32_le_bytes(i.mtime);
    let s6 = s5 + u32_le_bytes(i.dtime);
    let s7 = s6 + u16_le_bytes(i.gid);
    let s8 = s7 + u16_le_bytes(i.links_count);
    let s9 = s8 + u32_le_bytes(i.blocks);
    let s10 = s9 + u32_le_bytes(i.flags);
    let s11 = s10 + u32_le_bytes(i.osd1);
    let s12 = s11 + block_ids_bytes(i.block, 15);
    let s13 = s12 + u32_le_bytes(i.generation);
    let s14 = s13 + u32_le_bytes(i.file_acl);
    let s15 = s14 + u32_le_bytes(i.dir_acl);
    let s16 = s15 + u32_le_bytes(i.faddr);
    assert(b == s16 + i.osd2@);
    assert(forall|x: u16| #[trigger] u16_le_bytes(x).len() == 2);
    assert(forall|x: u32| #[trigger] u32_le_bytes(x).len() == 4);
    assert forall|k: int| 0 <= k < 116 implies #[trigger] b[k] == s16[k] by {}
    assert forall|k: int| 0 <= k < 112 implies #[trigger] s16[k] == s15[k] by {}
    assert forall|k: int| 0 <= k < 108 implies #[trigger] s15[k] == s14[k] by {}
    assert forall|k: int| 0 <= k < 104 implies #[trigger] s14[k] == s13[k] by {}
    assert forall|k: int| 0 <= k < 100 implies #[trigger] s13[k] == s12[k] by {}
    assert forall|k: int| 0 <= k < 40 implies #[trigger] s12[k] == s11[k] by {}
    assert forall|k: int| 0 <= k < 36 implies #[trigger] s11[k] == s10[k] by {}
    assert forall|k: int| 0 <= k < 32 implies #[trigger] s10[k] == s9[k] by {}
    assert forall|k: int| 0 <= k < 28 implies #[trigger] s9[k] == s8[k] by {}
    assert forall|k: int| 0 <= k < 26 implies #[trigger] s8[k] == s7[k] by {}
    assert forall|k: int| 0 <= k < 24 implies #[trigger] s7[k] == s6[k] by {}
    assert forall|k: int| 0 <= k < 20 implies #[trigger] s6[k] == s5[k] by {}
    assert forall|k: int| 0 <= k < 16 implies #[trigger] s5[k] == s4[k] by {}
    assert forall|k: int| 0 <= k < 12 implies #[trigger] s4[k] == s3[k] by {}
    assert forall|k: int| 0 <= k < 8 implies #[trigger] s3[k] == s2[k] by {}
    assert forall|k: int| 0 <= k < 4 implies #[trigger] s2[k] == s1[k] by {}
    assert forall|k: int| 0 <= k < 2 implies #[trigger] s1[k] == s0[k] by {}
    crate::bytes::lemma_u32_le_bytes_roundtrip(i.size);
    crate::bytes::lemma_u32_le_bytes_roundtrip(i.atime);
    crate::bytes::lemma_u32_le_bytes_roundtrip(i.ctime);
    crate::bytes::lemma_u32_le_bytes_roundtrip(i.mtime);
    crate::bytes::lemma_u32_le_bytes_roundtrip(i.dtime);
    crate::bytes::lemma_u32_le_bytes_roundtrip(i.blocks);
    crate::bytes::lemma_u32_le_bytes_roundtrip(i.flags);
    crate::bytes::lemma_u32_le_bytes_roundtrip(i.osd1);
    crate::bytes::lemma_u32_le_bytes_roundtrip(i.generation);
    crate::bytes::lemma_u32_le_bytes_roundtrip(i.file_acl);
    crate::bytes::lemma_u32_le_bytes_roundtrip(i.dir_acl);
    crate::bytes::lemma_u32_le_bytes_roundtrip(i.faddr);
    lemma_u16_le_bytes_roundtrip(i.mode);
    lemma_u16_le_bytes_roundtrip(i.uid);
    lemma_u16_le_bytes_roundtrip(i.gid);
    lemma_u16_le_bytes_roundtrip(i.links_count);
    assert forall|j: int| 0 <= j < 15 implies #[trigger] i.block[j] == le_u32(b, 40 + 4 * j) by {
        lemma_block_ids_bytes_parse(i.block, 15, j);
        let bb = block_ids_bytes(i.block, 15);
        assert(s12[40 + 4 * j] == bb[4 * j]);
        assert(s12[40 + 4 * j + 1] == bb[4 * j + 1]);
        assert(s12[40 + 4 * j + 2] == bb[4 * j + 2]);
        assert(s12[40 + 4 * j + 3] == bb[4 * j + 3]);
    }
    assert forall|j: int| 0 <= j < 12 implies #[trigger] i.osd2[j] == b[116 + j] by {}
}

} // verus!
