use lib::allocators::align_up;
use lib::allocators::bump::BumpAllocator;
use lib::allocators::ll::{LLAllocator, LLHole, LL_HEADER_SIZE};
use lib::memory::{PageAllocator, Pfn, PAGE_SIZE};

fn free_at(holes: &[LLHole], a: u64) -> bool {
    holes.iter().any(|h| h.addr <= a && a < h.addr + h.size)
}

#[test]
fn align_up_rounds_to_the_next_multiple() {
    assert_eq!(align_up(0, 16), 0);
    assert_eq!(align_up(1, 16), 16);
    assert_eq!(align_up(16, 16), 16);
    assert_eq!(align_up(17, 8), 24);
    assert_eq!(align_up(4095, 4096), 4096);
}

#[test]
fn bump_allocator_aligns_and_runs_out() {
    let mut b = BumpAllocator::new(0x1001, 0x1040);
    assert_eq!(b.allocate(8, 16), Ok(0x1010));
    assert_eq!(b.current, 0x1018);
    assert_eq!(b.allocate(0x20, 8), Ok(0x1018));
    assert_eq!(b.allocate(0x10, 8), Err(()));
    assert_eq!(b.current, 0x1038);
    b.deallocate(0x1010, 8);
    assert_eq!(b.current, 0x1038);
}

#[test]
fn ll_pages_to_claim_has_a_floor_of_eight() {
    assert_eq!(LLAllocator::pages_to_claim(0), 8);
    assert_eq!(LLAllocator::pages_to_claim(4096 * 10), 11);
    assert_eq!(LLAllocator::pages_to_claim(4096 * 10 + 1), 12);
}

#[test]
fn ll_allocate_without_memory_asks_for_more() {
    let mut a = LLAllocator::new();
    assert_eq!(a.allocate(32, 8), None);
    assert_eq!(a.stats.bytes_allocated, 0);
}

#[test]
fn ll_allocate_places_header_and_splits_hole() {
    let mut a = LLAllocator::new();
    a.claim_region(0x10000, 0x1000);
    let p = a.allocate(32, 8).unwrap();
    assert_eq!(p, 0x10000 + LL_HEADER_SIZE);
    assert_eq!(a.headers.len(), 1);
    assert_eq!(a.headers[0].region_start, 0x10000);
    assert_eq!(a.headers[0].region_end, 0x10030);
    assert_eq!(a.holes.len(), 1);
    assert_eq!(a.holes[0].addr, 0x10030);
    assert_eq!(a.holes[0].size, 0x1000 - 0x30);
    assert_eq!(a.stats.bytes_allocated, 32);
    let q = a.allocate(1, 64).unwrap();
    assert_eq!(q % 64, 0);
    assert!(q >= 0x10030 + LL_HEADER_SIZE);
}

#[test]
fn ll_small_rest_is_not_split_off() {
    let mut a = LLAllocator::new();
    a.claim_region(0x2000, 0x38);
    let p = a.allocate(16, 8).unwrap();
    assert_eq!(p, 0x2010);
    // The bytes end at 0x2020; the 0x18 left behind are fewer than two hole records.
    assert!(a.holes.is_empty());
    assert_eq!(a.headers[0].region_end, 0x2038);
}

#[test]
fn ll_deallocate_gives_back_exactly_the_region() {
    let mut a = LLAllocator::new();
    a.claim_region(0x10000, 0x1000);
    let p1 = a.allocate(100, 8).unwrap();
    let p2 = a.allocate(200, 16).unwrap();
    let before: Vec<LLHole> = a.holes.clone();
    let region = (a.headers[0].region_start, a.headers[0].region_end);
    a.deallocate(p1, 100);
    for addr in (0x10000u64..0x11000).step_by(8) {
        let expected = free_at(&before, addr) || (region.0 <= addr && addr < region.1);
        assert_eq!(free_at(&a.holes, addr), expected, "address {:x}", addr);
    }
    a.deallocate(p2, 200);
    // Everything merged back into one hole.
    assert_eq!(a.holes.len(), 1);
    assert_eq!(a.holes[0].addr, 0x10000);
    assert_eq!(a.holes[0].size, 0x1000);
    assert_eq!(a.stats.bytes_allocated, 0);
    assert!(a.headers.is_empty());
}

#[test]
fn ll_rest_of_two_hole_records_stays_a_hole() {
    let mut a = LLAllocator::new();
    a.claim_region(0x2000, 0x40);
    a.allocate(16, 8).unwrap();
    assert_eq!(a.holes.len(), 1);
    assert_eq!(a.holes[0].addr, 0x2020);
    assert_eq!(a.holes[0].size, 0x20);
}

#[test]
fn ll_deallocate_merges_with_following_hole() {
    let mut a = LLAllocator::new();
    a.claim_region(0x4000, 0x100);
    let p = a.allocate(16, 8).unwrap();
    assert_eq!(a.holes.len(), 1);
    a.deallocate(p, 16);
    assert_eq!(a.holes.len(), 1);
    assert_eq!(a.holes[0].addr, 0x4000);
    assert_eq!(a.holes[0].size, 0x100);
}

#[test]
fn ll_stats_saturate() {
    let mut a = LLAllocator::new();
    a.claim_region(0x4000, 0x100);
    let p = a.allocate(16, 8).unwrap();
    a.deallocate(p, 1000);
    assert_eq!(a.stats.bytes_allocated, 0);
}

#[test]
fn page_allocator_reserves_first_free_run() {
    let mut pa = PageAllocator::new(vec![0b0000_0101, 0], 100);
    let first = pa.reserve_pages(2).unwrap();
    assert_eq!(first.number(), 103);
    assert!(!pa.is_free(Pfn(103)));
    assert!(!pa.is_free(Pfn(104)));
    assert!(pa.is_free(Pfn(101)));
    let again = pa.reserve_pages(1).unwrap();
    assert_eq!(again.number(), 101);
    assert_eq!(PAGE_SIZE, 4096);
}

#[test]
fn allocation_claims_pages_when_no_hole_fits() {
    let mut ll = LLAllocator::new();
    let mut pages = PageAllocator::new(vec![0b1u64, 0], 0);
    // Frame 0 is taken, so the eight claimed pages are frames 1 to 8, one bit per byte of a word.
    assert_eq!(ll.allocate_claiming(&mut pages, 32, 8), Some(0xffff_ff80_0000_1010));
    assert_eq!(pages.bitmask, vec![0xffu64, 0x1]);
    assert_eq!(ll.holes.len(), 1);
    // The next request fits the rest of the claimed pages.
    assert_eq!(ll.allocate_claiming(&mut pages, 16, 8), Some(0xffff_ff80_0000_1040));
    assert_eq!(pages.bitmask, vec![0xffu64, 0x1]);
}

#[test]
fn large_requests_fail_or_fit_without_a_size_bound() {
    let mut ll = LLAllocator::new();
    ll.claim_region(0x100_0000_0000 - 0x10, 0x1000);
    assert_eq!(ll.allocate(usize::MAX, 8), None);
    assert_eq!(ll.allocate(8, 1 << 41), None);
    // The header fits just below the alignment boundary, so the bytes start on it.
    assert_eq!(ll.allocate(8, 1 << 40), Some(0x100_0000_0000));
    assert_eq!(ll.allocate(8, 1usize << 63), None);
}

#[test]
fn ll_freed_request_is_served_again_no_higher() {
    let mut a = LLAllocator::new();
    a.holes.push(LLHole { addr: 0x1000, size: 0x40 });
    a.holes.push(LLHole { addr: 0x2000, size: 0x1000 });
    // The first hole is too small for 0x80 bytes; the second takes it.
    let p = a.allocate(0x80, 16).unwrap();
    assert_eq!(p, 0x2010);
    a.deallocate(p, 0x80);
    let q = a.allocate(0x80, 16).unwrap();
    assert!(q <= p);
    assert_eq!(q, 0x2010);
}
