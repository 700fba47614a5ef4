use lib::memory::{PageAllocator, Pfn};
use lib::subsystem::page::meta::{PageMeta, PAGE_TYPE_ANON};
use lib::sched::lazy_buffer::{LazyFaultAction, LazyPageBuffer, LazyVmaBounds};
use lib::sched::user_pages::UserPageTable;
use lib::subsystem::fs::inode::FsError;
use lib::subsystem::fs::mounts::MountTable;
use lib::subsystem::fs::tmpfs::TmpFs;
use lib::subsystem::page::fault::{PageFaultError, PageFaultType};

#[test]
fn root_mount_serves_every_path() {
    let mut table = MountTable::new(TmpFs::new());
    assert_eq!(table.root(), 0);
    assert_eq!(table.mounts.len(), 1);
    assert_eq!(table.mounts[0].path, b"/".to_vec());
    // `/a` is opened as `a` in the root file system.
    assert_eq!(table.create(b"/a"), Ok(1));
    assert_eq!(table.open(b"/a"), Ok(1));
    assert_eq!(table.open(b"/b"), Err(FsError::NoExist));
    // No mount is a prefix of a relative path.
    assert_eq!(table.open(b"a"), Err(FsError::NoExist));
    assert_eq!(table.create(b"a"), Err(FsError::NoExist));
}

#[test]
fn latest_mount_comes_first() {
    let mut table = MountTable::new(TmpFs::new());
    assert_eq!(table.lookup_mount(b"/de"), None);
    table.mount(b"/dev", TmpFs::new());
    assert_eq!(table.mounts.len(), 2);
    assert_eq!(table.mounts[0].path, b"/dev".to_vec());
    assert_eq!(table.lookup_mount(b"/de"), Some(0));
    assert_eq!(table.lookup_mount(b"/"), Some(0));
    // A file created under /dev goes to the file system mounted there.
    assert_eq!(table.create(b"/dev/null"), Ok(1));
    assert_eq!(table.mounts[0].fs().open(b"/null"), Ok(1));
    assert_eq!(table.mounts[1].fs().open(b"/null"), Err(FsError::NoExist));
    assert_eq!(table.open(b"/dev/null"), Ok(1));
}

#[test]
fn lazy_area_counts_whole_pages() {
    let buf = LazyPageBuffer::new_zeroed(0x10000, 0x12800);
    assert_eq!(buf.vma_bounds, LazyVmaBounds(0x10000, 0x12800));
    assert_eq!(buf.vma_area.pfn_count, 2);
    assert_eq!(buf.start_address(), 0x10000);
    assert_eq!(buf.end_address(), 0x12800);
    assert!(buf.contains_vma(0x10000));
    assert!(!buf.contains_vma(0x12800));
    // Pages at 0x10000 and 0x11000 lie in the area; the one at 0x12000 does not.
    let table = UserPageTable { pages: vec![(0x10000, 1, true), (0x11000, 2, true), (0x12000, 3, true), (0x20000, 1, true)] };
    let mut metas = used_metas(&[0, 2, 1, 1]);
    buf.release_pages(&table, &mut metas);
    let counts: Vec<u32> = metas.iter().map(|m| m.refcount).collect();
    assert_eq!(counts, vec![0, 1, 0, 1]);
    let backwards = LazyPageBuffer::new_uninit(0x2000, 0x1000);
    assert_eq!(backwards.vma_area.pfn_count, 0);
}

#[test]
fn lazy_faults_fill_or_copy() {
    let buf = LazyPageBuffer::new_zeroed(0x10000, 0x13000);
    assert_eq!(
        buf.page_fault(PageFaultType::Translation, 0x11234),
        Ok(LazyFaultAction::Fill { page_vma: 0x11000, source_offset: 0x1000 })
    );
    assert_eq!(
        buf.page_fault(PageFaultType::Permission, 0x12fff),
        Ok(LazyFaultAction::CopyOnWrite { page_vma: 0x12000 })
    );
    assert_eq!(buf.page_fault(PageFaultType::Translation, 0x13000), Err(PageFaultError::Unhandled));
    assert_eq!(buf.page_fault(PageFaultType::Access, 0x10000), Err(PageFaultError::Unhandled));
    let mut page = vec![7u8; 32];
    buf.fill_page(0, &mut page);
    assert_eq!(page, vec![0u8; 32]);
    let uninit = LazyPageBuffer::new_uninit(0, 0x1000);
    let mut page = vec![7u8; 32];
    uninit.fill_page(0, &mut page);
    assert_eq!(page, vec![7u8; 32]);
}

#[test]
fn lazy_area_end_moves() {
    let mut heap = LazyPageBuffer::new_zeroed(0x10000, 0x10000);
    let mut table = UserPageTable { pages: vec![(0x10000, 1, true), (0x11000, 2, true), (0x12000, 3, true)] };
    let mut metas = used_metas(&[0, 1, 1, 2]);
    heap.set_end_bound(0x12001, &mut table, &mut metas);
    assert_eq!(heap.vma_area.pfn_count, 3);
    assert_eq!(table.pages.len(), 3);
    // Shrinking invalidates the pages from the new end up to the old one.
    heap.set_end_bound(0x11000, &mut table, &mut metas);
    assert_eq!(table.pages, vec![(0x10000, 1, true)]);
    let counts: Vec<u32> = metas.iter().map(|m| m.refcount).collect();
    assert_eq!(counts, vec![0, 1, 0, 1]);
    assert_eq!(heap.vma_area.pfn_count, 1);
    assert_eq!(heap.end_address(), 0x11000);
    let child = heap.fork();
    assert_eq!(child.vma_area.pfn_count, 1);
    assert_eq!(child.vma_bounds, heap.vma_bounds);
    assert!(child.anon_vma.get().parent.is_some());
}

#[test]
fn missing_page_takes_a_fresh_anonymous_frame() {
    let buf = LazyPageBuffer::new_zeroed(0x1000, 0x3000);
    let mut pages = PageAllocator::new(vec![0b1u64], 0);
    let mut metas: Vec<PageMeta> = (0..8).map(|_| PageMeta::new_unused()).collect();
    let mut frame = vec![7u8; 16];
    assert_eq!(buf.fill_fault(&mut pages, &mut metas, 0, &mut frame), Some(Pfn(1)));
    assert_eq!(frame, vec![0u8; 16]);
    assert_eq!(pages.bitmask, vec![0b11u64]);
    assert_eq!(metas[1].refcount, 1);
    assert_eq!(metas[1].flags.page_type(), PAGE_TYPE_ANON);
    assert!(!metas[1].flags.is_locked());
    assert_eq!(metas[2].refcount, 0);

    // A write to the shared frame 1 copies it into frame 2 and drops the use of frame 1.
    let shared = vec![5u8; 16];
    let mut copy = vec![0u8; 16];
    assert_eq!(buf.copy_on_write_fault(&mut pages, &mut metas, Pfn(1), &shared, &mut copy), Some(Pfn(2)));
    assert_eq!(copy, shared);
    assert_eq!(metas[1].refcount, 0);
    assert_eq!(metas[1].flags.page_type(), 0);
    assert_eq!(metas[2].refcount, 1);
    assert_eq!(pages.bitmask, vec![0b111u64]);
}

#[test]
fn faults_map_their_fresh_frames() {
    let buf = LazyPageBuffer::new_zeroed(0x1000, 0x3000);
    let mut pages = PageAllocator::new(vec![0b1u64], 0);
    let mut metas: Vec<PageMeta> = (0..8).map(|_| PageMeta::new_unused()).collect();
    let mut table = UserPageTable { pages: vec![] };
    let mut frame = vec![7u8; 16];
    // A missing page at 0x2345 gets frame 1, filled and mapped at 0x2000.
    let r = buf.handle_fault(PageFaultType::Translation, 0x2345, &mut pages, &mut metas, &mut table, &mut frame, &[]);
    assert_eq!(r, Ok(Some(Pfn(1))));
    assert_eq!(frame, vec![0u8; 16]);
    assert_eq!(table.pages, vec![(0x2000, 1, true)]);
    assert_eq!(metas[1].refcount, 1);

    // A write there copies frame 1 into frame 2, which the page then maps.
    let shared = vec![9u8; 16];
    let mut copy = vec![0u8; 16];
    let r = buf.handle_fault(PageFaultType::Permission, 0x2010, &mut pages, &mut metas, &mut table, &mut copy, &shared);
    assert_eq!(r, Ok(Some(Pfn(2))));
    assert_eq!(copy, shared);
    assert_eq!(table.pages, vec![(0x2000, 2, true)]);
    assert_eq!(metas[1].refcount, 0);
    assert_eq!(metas[2].refcount, 1);

    // A write to a page that no valid page maps changes nothing.
    let r = buf.handle_fault(PageFaultType::Permission, 0x1010, &mut pages, &mut metas, &mut table, &mut copy, &shared);
    assert_eq!(r, Ok(None));
    assert_eq!(pages.bitmask, vec![0b111u64]);
    // Past the area, or an access fault: unhandled.
    let r = buf.handle_fault(PageFaultType::Translation, 0x3000, &mut pages, &mut metas, &mut table, &mut copy, &shared);
    assert_eq!(r, Err(PageFaultError::Unhandled));
    assert_eq!(table.pages, vec![(0x2000, 2, true)]);
}

fn used_metas(counts: &[u32]) -> Vec<PageMeta> {
    counts
        .iter()
        .map(|&c| {
            let mut m = PageMeta::new_unused();
            for _ in 0..c {
                m.inc_refcount();
            }
            m
        })
        .collect()
}
