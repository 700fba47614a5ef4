use lib::dtb::parser::{FdtNode, FdtProp};
use lib::memory::{init_page_allocator, memory_region, PageAllocator, Pfn, DTB_LEN, PAGE_SIZE};

fn memory_node(reg: Option<Vec<u8>>) -> FdtNode {
    FdtNode {
        name: Some(b"memory@40000000".to_vec()),
        properties: vec![FdtProp { name: b"reg".to_vec(), value: reg }],
        children: vec![],
    }
}

#[test]
fn memory_region_reads_start_and_size() {
    let mut reg = Vec::new();
    reg.extend_from_slice(&0x4000_0000u64.to_be_bytes());
    reg.extend_from_slice(&0x800_0000u64.to_be_bytes());
    assert_eq!(memory_region(&memory_node(Some(reg))), Some((0x4000_0000, 0x800_0000)));
    assert_eq!(memory_region(&memory_node(Some(vec![0; 8]))), None);
    assert_eq!(memory_region(&memory_node(None)), None);
}

#[test]
fn fresh_allocator_reserves_tree_kernel_and_bitmask() {
    let start = 0x4000_0000usize;
    let size = 0x80_0000usize; // 2048 pages
    let words = PageAllocator::bitmask_len_for_memory(size);
    assert_eq!(words, 256);
    let kernel_start = 0x4020_0000usize;
    let kernel_end = 0x4020_3001usize;
    let bitmask_addr = 0xffff_ff80_4030_0000usize;
    let alloc = init_page_allocator(start, size, vec![0u64; words], bitmask_addr, kernel_start, kernel_end);
    assert_eq!(alloc.offset, start / PAGE_SIZE);
    let base = start / PAGE_SIZE;
    // The tree is marked from frame `start` itself, which lies past the covered pages.
    assert!(alloc.is_free(Pfn(base)));
    assert!(DTB_LEN / PAGE_SIZE > 0);
    // Four pages of kernel image.
    for k in 0..4 {
        assert!(!alloc.is_free(Pfn(kernel_start / PAGE_SIZE + k)));
    }
    assert!(alloc.is_free(Pfn(kernel_start / PAGE_SIZE + 4)));
    // 256 words of 8 bytes: half a page, so no page of the bitmask is marked.
    assert!(alloc.is_free(Pfn(0x4030_0000 / PAGE_SIZE)));
}
