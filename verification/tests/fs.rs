use lib::subsystem::block::{BlockCache, RamDisk};
use lib::subsystem::fs::ext2::cursor::Ext2InodeCursor;
use lib::subsystem::fs::ext2::Ext2Fs;
use lib::subsystem::fs::inode::{FsError, InodeContents};
use lib::subsystem::fs::tmpfs::InodeDirectory;
use lib::subsystem::fs::tmpfs::{TmpFs, split_path};

const KB: usize = 1024;

fn put16(d: &mut [u8], at: usize, v: u16) {
    d[at..at + 2].copy_from_slice(&v.to_le_bytes());
}

fn put32(d: &mut [u8], at: usize, v: u32) {
    d[at..at + 4].copy_from_slice(&v.to_le_bytes());
}

fn dentry(d: &mut [u8], at: usize, inode: u32, rec_len: u16, name: &[u8]) {
    put32(d, at, inode);
    put16(d, at + 4, rec_len);
    d[at + 6] = name.len() as u8;
    d[at + 7] = 0;
    d[at + 8..at + 8 + name.len()].copy_from_slice(name);
}

fn inode(d: &mut [u8], n: usize, mode: u16, size: u32, block0: u32) {
    let at = 4 * KB + (n - 1) * 128;
    put16(d, at, mode);
    put32(d, at + 4, size);
    put16(d, at + 26, 1);
    put32(d, at + 40, block0);
}

/// A 64 KiB ext2 image with 1 KiB blocks and one group: block bitmap in block 2, inode bitmap
/// in block 3, inode table from block 4, the root directory in block 10 and the file `hello`
/// (inode 11, "world") in block 11.
fn image() -> Vec<u8> {
    let mut d = vec![0u8; 64 * KB];
    let sb = KB;
    put32(&mut d, sb, 32);
    put32(&mut d, sb + 4, 64);
    put32(&mut d, sb + 20, 1);
    put32(&mut d, sb + 24, 0);
    put32(&mut d, sb + 32, 8192);
    put32(&mut d, sb + 40, 16);
    put16(&mut d, sb + 56, 0xEF53);
    put16(&mut d, sb + 88, 128);
    // Blocks 1..=11 are used: bits 0..=10 of the block bitmap.
    d[2 * KB] = 0xFF;
    d[2 * KB + 1] = 0b0000_0111;
    // Inodes 1..=11 are used.
    d[3 * KB] = 0xFF;
    d[3 * KB + 1] = 0b0000_0111;
    inode(&mut d, 2, 0x41ED, 1024, 10);
    inode(&mut d, 11, 0x81A4, 5, 11);
    let root = 10 * KB;
    dentry(&mut d, root, 2, 12, b".");
    dentry(&mut d, root + 12, 2, 12, b"..");
    dentry(&mut d, root + 24, 11, 1000, b"hello");
    d[11 * KB..11 * KB + 5].copy_from_slice(b"world");
    d
}

fn mounted() -> (Ext2Fs, BlockCache<RamDisk>) {
    let mut disk = BlockCache::new(RamDisk { data: image() });
    let fs = Ext2Fs::new(&mut disk).unwrap();
    (fs, disk)
}

#[test]
fn block_cache_reads_back_what_it_wrote() {
    let mut c = BlockCache::new(RamDisk { data: vec![0u8; 4 * KB] });
    c.write(510, b"abcd");
    let mut buf = vec![0u8; 6];
    c.read(509, &mut buf);
    assert_eq!(&buf, &[0, b'a', b'b', b'c', b'd', 0]);
    c.flush();
    assert_eq!(&c.disk.data[510..514], b"abcd");
}

#[test]
fn ext2_mount_checks_the_magic_number() {
    let mut disk = BlockCache::new(RamDisk { data: vec![0u8; 8 * KB] });
    assert!(Ext2Fs::new(&mut disk).is_none());
    let (fs, _) = mounted();
    assert_eq!(fs.cache.super_block.magic, 0xEF53);
    assert_eq!(fs.cache.super_block.inodes_per_group, 16);
}

#[test]
fn ext2_root_lists_its_entries() {
    let (mut fs, mut disk) = mounted();
    let root = fs.root(&mut disk);
    assert_eq!(root.number, 2);
    assert!(root.ext2_inode.is_directory());
    let list = root.list_directory(&mut fs.cache, &mut disk).unwrap();
    let names: Vec<&[u8]> = list.iter().map(|e| e.name.as_slice()).collect();
    assert_eq!(names, vec![&b"."[..], b"..", b"hello"]);
    let numbers: Vec<u32> = list.iter().map(|e| e.inode.number).collect();
    assert_eq!(numbers, vec![2, 2, 11]);
    assert_eq!(list[2].inode.ext2_inode.size, 5);
}

#[test]
fn ext2_finds_an_entry_by_name() {
    let (mut fs, mut disk) = mounted();
    let root = fs.root(&mut disk);
    let mut cursor = Ext2InodeCursor::new(root.ext2_inode);
    let found = cursor.find_dentry_with_name(&mut disk, b"hello").unwrap();
    assert_eq!(found.dentry_offset(), 24);
    assert_eq!(found.dentry_inode(), 11);
    assert_eq!(found.previous_dentry_offset(), Some(12));
    assert!(!found.is_dentry_start_of_block());
    let mut cursor = Ext2InodeCursor::new(root.ext2_inode);
    let first = cursor.find_dentry_with_name(&mut disk, b".").unwrap();
    assert_eq!(first.previous_dentry_offset(), None);
    let mut cursor = Ext2InodeCursor::new(root.ext2_inode);
    assert_eq!(cursor.find_dentry_with_name(&mut disk, b"nope").err(), Some(FsError::NoExist));
}

#[test]
fn ext2_open_walks_the_path() {
    let (mut fs, mut disk) = mounted();
    let hello = fs.open(&mut disk, b"/hello").unwrap();
    assert_eq!(hello.number, 11);
    assert!(hello.ext2_inode.is_file());
    let mut cursor = Ext2InodeCursor::new(hello.ext2_inode);
    let mut buf = vec![0u8; 16];
    assert_eq!(cursor.read(&mut disk, 0, &mut buf), Ok(5));
    assert_eq!(&buf[..5], b"world");
    assert_eq!(fs.open(&mut disk, b"//").unwrap().number, 2);
    assert_eq!(fs.open(&mut disk, b"/nope").err(), Some(FsError::NoExist));
    assert_eq!(fs.open(&mut disk, b"/hello/x").err(), Some(FsError::Unsupported));
}

#[test]
fn ext2_bitmaps_say_which_inodes_exist() {
    let (fs, mut disk) = mounted();
    assert!(fs.cache.inode_exists(&mut disk, 11));
    assert!(!fs.cache.inode_exists(&mut disk, 12));
}

#[test]
fn ext2_allocates_the_first_free_inode_and_block() {
    let (mut fs, mut disk) = mounted();
    assert_eq!(fs.cache.lookup_or_create(&mut disk, 12).err(), Some(FsError::NoExist));
    assert_eq!(fs.cache.allocate_inode_number(&mut disk), 12);
    assert!(fs.cache.inode_exists(&mut disk, 12));
    assert_eq!(fs.cache.allocate_inode_number(&mut disk), 13);
    // Block bits 0..=10 are taken, so the bit found is 11: block 11 + first data block 1.
    assert_eq!(fs.cache.allocate_data_block(&mut disk, 2), 12);
    assert_eq!(fs.cache.allocate_data_block(&mut disk, 2), 13);
}

#[test]
fn ext2_node_written_reads_back() {
    let (fs, mut disk) = mounted();
    let mut node = fs.cache.read_node(&mut disk, 11);
    assert_eq!(node.size, 5);
    node.size = 77;
    node.links_count = 3;
    fs.cache.write_node(&mut disk, 11, &node);
    let again = fs.cache.read_node(&mut disk, 11);
    assert_eq!(again.size, 77);
    assert_eq!(again.links_count, 3);
    assert_eq!(again.block[0], 11);
    fs.cache.modify_node(&mut disk, 11, |mut i| {
        i.size = 9;
        i
    });
    assert_eq!(fs.cache.read_node(&mut disk, 11).size, 9);
}

#[test]
fn ext2_cache_keeps_loaded_inodes() {
    let (mut fs, mut disk) = mounted();
    assert!(fs.cache.lookup(11).is_none());
    let w = fs.cache.lookup_or_create(&mut disk, 11).unwrap();
    assert_eq!(w.number, 11);
    assert_eq!(fs.cache.lookup(11).unwrap().ext2_inode.size, 5);
    fs.cache.remove_inode(11);
    assert!(fs.cache.lookup(11).is_none());
}

#[test]
fn tmpfs_creates_and_opens_files() {
    let mut fs = TmpFs::new();
    assert_eq!(fs.open(b"/"), Ok(0));
    assert_eq!(fs.create(b"/a"), Ok(1));
    assert_eq!(fs.open(b"/a"), Ok(1));
    assert_eq!(fs.open(b"/b"), Err(FsError::NoExist));
    assert_eq!(fs.create_with_ops(b"/d", InodeContents::Directory(InodeDirectory::new())), Ok(2));
    // The walk to the parent stops one part early, so `x` lands in the root.
    assert_eq!(fs.create(b"/d/x"), Ok(3));
    assert_eq!(fs.open(b"/x"), Ok(3));
    assert_eq!(fs.open(b"/d/x"), Err(FsError::NoExist));
    assert_eq!(fs.create(b"/a/b/c"), Err(FsError::Unsupported));
    assert_eq!(fs.create(b"/nope/b/c"), Err(FsError::NoExist));
}

#[test]
fn paths_split_at_slashes() {
    let parts = split_path(b"/a//b");
    let parts: Vec<&[u8]> = parts.iter().map(|p| p.as_slice()).collect();
    assert_eq!(parts, vec![&b""[..], b"a", b"", b"b"]);
}

use lib::subsystem::fs::ext2::cursor::Ext2InodeWriteCursor;

#[test]
fn ext2_write_extends_a_file() {
    let (mut fs, mut disk) = mounted();
    let mut hello = fs.cache.lookup_or_create(&mut disk, 11).unwrap();
    assert_eq!(hello.write(&fs.cache, &mut disk, 5, b"!!"), Ok(2));
    assert_eq!(hello.ext2_inode.size, 7);
    let mut buf = vec![0u8; 16];
    assert_eq!(hello.read(&mut disk, 0, &mut buf), Ok(7));
    assert_eq!(&buf[..7], b"world!!");
    // The record on disk has the new size too.
    assert_eq!(fs.cache.read_node(&mut disk, 11).size, 7);
}

#[test]
fn ext2_write_past_the_last_block_reserves_one() {
    let (mut fs, mut disk) = mounted();
    let mut hello = fs.cache.lookup_or_create(&mut disk, 11).unwrap();
    assert_eq!(hello.write(&fs.cache, &mut disk, 1024, b"x"), Ok(1));
    assert_eq!(hello.ext2_inode.size, 1025);
    // Bits 0..=10 of the block bitmap were taken: bit 11 is block 12.
    assert_eq!(hello.ext2_inode.block[1], 12);
    assert_eq!(fs.cache.read_node(&mut disk, 11).block[1], 12);
    let mut buf = vec![0u8; 1];
    assert_eq!(hello.read(&mut disk, 1024, &mut buf), Ok(1));
    assert_eq!(&buf, b"x");
    let mut buf = vec![9u8; 3];
    assert_eq!(hello.read(&mut disk, 5, &mut buf), Ok(3));
    assert_eq!(&buf, &[0, 0, 0]);
}

#[test]
fn ext2_header_read_modify_write() {
    let (mut fs, mut disk) = mounted();
    let root = fs.root(&mut disk);
    let mut cursor = Ext2InodeWriteCursor::new(root.number, root.ext2_inode);
    let h = cursor.read_dentry_header(&mut disk, 24).unwrap();
    assert_eq!(h.inode, 11);
    assert_eq!(h.rec_len, 1000);
    assert_eq!(h.name_len, 5);
    let r = cursor.rmw_dentry_header(&fs.cache, &mut disk, 24, |mut h| {
        h.inode = 0;
        h
    });
    assert_eq!(r, Ok(()));
    assert_eq!(cursor.read_dentry_header(&mut disk, 24).unwrap().inode, 0);
    let mut reader = Ext2InodeCursor::new(root.ext2_inode);
    assert_eq!(reader.find_dentry_with_name(&mut disk, b"hello").err(), Some(FsError::NoExist));
    assert_eq!(cursor.read_dentry_header(&mut disk, 1020).err(), Some(FsError::EndOfFile));
}

#[test]
fn ext2_append_dentry_cuts_the_last_record() {
    let (mut fs, mut disk) = mounted();
    let root = fs.root(&mut disk);
    let mut cursor = Ext2InodeWriteCursor::new(root.number, root.ext2_inode);
    assert_eq!(cursor.append_dentry(&fs.cache, &mut disk, 12, b"new"), Ok(()));
    let prev = cursor.read_dentry_header(&mut disk, 24).unwrap();
    // The last entry now ends right after its name, rounded to 4 bytes.
    assert_eq!(prev.rec_len, 16);
    let added = cursor.read_dentry_header(&mut disk, 40).unwrap();
    assert_eq!(added.inode, 12);
    assert_eq!(added.name_len, 3);
    // The new record's length is 1024 less its offset modulo 4, which runs past the block,
    // so a later search stops at it.
    assert_eq!(added.rec_len, 1024);
    let mut reader = Ext2InodeCursor::new(root.ext2_inode);
    assert_eq!(reader.find_dentry_with_name(&mut disk, b"new").err(), Some(FsError::BadMeta));
}

#[test]
fn ext2_create_file_adds_an_inode_and_an_entry() {
    let (mut fs, mut disk) = mounted();
    let mut root = fs.root(&mut disk);
    assert_eq!(root.create_file(&fs.cache, &mut disk, b"f"), Ok(()));
    // Inodes 1..=11 were taken, so the new file is inode 12.
    assert!(fs.cache.inode_exists(&mut disk, 12));
    let node = fs.cache.read_node(&mut disk, 12);
    assert_eq!(node.mode, 0x81FF);
    assert_eq!(node.links_count, 1);
    assert_eq!(node.size, 0);
    let mut cursor = Ext2InodeWriteCursor::new(root.number, root.ext2_inode);
    let added = cursor.read_dentry_header(&mut disk, 40).unwrap();
    assert_eq!(added.inode, 12);
    assert_eq!(added.name_len, 1);
}

#[test]
fn ext2_lookup_node_reads_the_record() {
    let (fs, mut disk) = mounted();
    let node = fs.lookup_node(&mut disk, 11).unwrap();
    assert_eq!(node.size, 5);
    assert!(!node.is_directory());
    let root = fs.lookup_node(&mut disk, 2).unwrap();
    assert!(root.is_directory());
}

#[test]
fn ext2_write_within_a_mapped_block_reads_back_and_keeps_the_rest() {
    let (mut fs, mut disk) = mounted();
    let mut hello = fs.cache.lookup_or_create(&mut disk, 11).unwrap();
    assert_eq!(hello.write(&fs.cache, &mut disk, 1, b"ABC"), Ok(3));
    assert_eq!(hello.ext2_inode.size, 5);
    let mut buf = vec![0u8; 5];
    assert_eq!(hello.read(&mut disk, 0, &mut buf), Ok(5));
    assert_eq!(&buf, b"wABCd");
    assert_eq!(fs.cache.read_node(&mut disk, 11).size, 5);
}

#[test]
fn ext2_write_cursor_reserves_blocks_for_holes() {
    let (mut fs, mut disk) = mounted();
    let hello = fs.cache.lookup_or_create(&mut disk, 11).unwrap();
    let mut cursor = Ext2InodeWriteCursor::new(11, hello.ext2_inode);
    let data: Vec<u8> = (0..1100u32).map(|i| (i % 251) as u8).collect();
    // File blocks 1 and 2 are holes: blocks 12 and 13 are reserved for them.
    assert_eq!(cursor.write(&fs.cache, &mut disk, 1500, &data), 1100);
    assert_eq!(cursor.inner.inode.block[1], 12);
    assert_eq!(cursor.inner.inode.block[2], 13);
    assert_eq!(cursor.inner.inode.size, 2600);
    let mut bitmap = vec![0u8; 2];
    disk.read(2 * KB, &mut bitmap);
    assert_eq!(bitmap, vec![0xFF, 0b0001_1111]);
    let mut reader = Ext2InodeCursor::new(cursor.inner.inode);
    let mut buf = vec![0u8; 1100];
    assert_eq!(reader.read(&mut disk, 1500, &mut buf), Ok(1100));
    assert_eq!(buf, data);
    assert_eq!(fs.cache.read_node(&mut disk, 11).block[2], 13);
}

#[test]
fn ext2_write_cursor_stops_when_the_bitmaps_are_full() {
    let mut d = image();
    for b in &mut d[2 * KB..3 * KB] {
        *b = 0xFF;
    }
    let mut disk = BlockCache::new(RamDisk { data: d });
    let mut fs = Ext2Fs::new(&mut disk).unwrap();
    let hello = fs.cache.lookup_or_create(&mut disk, 11).unwrap();
    let mut cursor = Ext2InodeWriteCursor::new(11, hello.ext2_inode);
    // File block 0 is mapped; file block 1 is a hole and no block is free.
    let data = vec![7u8; 2000];
    assert_eq!(cursor.write(&fs.cache, &mut disk, 0, &data), 1024);
    assert_eq!(cursor.inner.inode.block[1], 0);
    assert_eq!(cursor.inner.inode.size, 1024);
}

#[test]
fn ext2_append_dentry_starts_the_next_block_when_the_last_is_full() {
    let mut d = image();
    let root = 10 * KB;
    for b in &mut d[root..root + KB] {
        *b = 0;
    }
    dentry(&mut d, root, 2, 12, b".");
    dentry(&mut d, root + 12, 2, 988, b"..");
    dentry(&mut d, root + 1000, 11, 24, b"hello");
    let mut disk = BlockCache::new(RamDisk { data: d });
    let mut fs = Ext2Fs::new(&mut disk).unwrap();
    let root = fs.root(&mut disk);
    let mut cursor = Ext2InodeWriteCursor::new(root.number, root.ext2_inode);
    assert_eq!(cursor.append_dentry(&fs.cache, &mut disk, 12, b"new"), Ok(()));
    // The entry could not follow "hello" in block 0: file block 1 got block 12.
    assert_eq!(cursor.inner.inode.block[1], 12);
    let added = cursor.read_dentry_header(&mut disk, 1024).unwrap();
    assert_eq!(added.inode, 12);
    assert_eq!(added.rec_len, 1024);
    assert_eq!(added.name_len, 3);
    let mut name = vec![0u8; 3];
    disk.read(12 * KB + 8, &mut name);
    assert_eq!(name, b"new");
    // The last entry of block 0 keeps its record length.
    assert_eq!(cursor.read_dentry_header(&mut disk, 1000).unwrap().rec_len, 24);
}
