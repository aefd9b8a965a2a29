use mimalloc::AllocError;
use mimalloc::Heap;
use mimalloc::Layout;
use mimalloc::MiMalloc;
use mimalloc::Region;

fn layout(size: usize, align: usize) -> Layout {
    Layout::from_size_align(size, align).unwrap()
}

fn fill(heap: &mut Heap, region: Region, byte: u8) {
    let mut i = 0;
    while i < region.size {
        heap.store(region.addr, i, byte);
        i += 1;
    }
}

fn check_range(heap: &Heap, region: Region, from: usize, to: usize, byte: u8) {
    let mut i = from;
    while i < to {
        assert_eq!(heap.load(region.addr, i), byte, "byte {} differs", i);
        i += 1;
    }
}

#[test]
fn layout_accepts_powers_of_two() {
    for align in [1usize, 2, 4, 8, 1024] {
        let l = Layout::from_size_align(10, align).unwrap();
        assert_eq!(l.size, 10);
        assert_eq!(l.align, align);
    }
}

#[test]
fn layout_rejects_other_alignments() {
    assert!(Layout::from_size_align(10, 0).is_none());
    assert!(Layout::from_size_align(10, 3).is_none());
    assert!(Layout::from_size_align(10, 12).is_none());
}

#[test]
fn allocate_is_aligned_and_long_enough() {
    let mut heap = Heap::new();
    let m = MiMalloc;
    let region = m.allocate(&mut heap, layout(64, 8)).unwrap();
    assert_eq!(region.addr % 8, 0);
    assert_eq!(region.size, 64);
    assert_eq!(heap.region_len(region.addr), 64);
}

#[test]
fn allocate_zero_size() {
    let mut heap = Heap::new();
    let m = MiMalloc;
    let region = m.allocate(&mut heap, layout(0, 16)).unwrap();
    assert_eq!(region.addr % 16, 0);
    assert_eq!(region.size, 0);
    assert_eq!(heap.region_len(region.addr), 0);
}

#[test]
fn allocate_exhausted_address_space_fails() {
    let mut heap = Heap::new();
    let m = MiMalloc;
    assert_eq!(m.allocate(&mut heap, layout(usize::MAX, 1)), Err(AllocError));
}

#[test]
fn allocate_injected_failure() {
    let mut heap = Heap::new();
    heap.set_fail_alloc(true);
    let m = MiMalloc;
    assert_eq!(m.allocate(&mut heap, layout(8, 8)), Err(AllocError));
    assert_eq!(m.allocate_zeroed(&mut heap, layout(8, 8)), Err(AllocError));
    heap.set_fail_alloc(false);
    assert!(m.allocate(&mut heap, layout(8, 8)).is_ok());
}

#[test]
fn allocate_zeroed_is_all_zero() {
    let mut heap = Heap::new();
    let m = MiMalloc;
    let region = m.allocate_zeroed(&mut heap, layout(100, 4)).unwrap();
    check_range(&heap, region, 0, 100, 0x00);
}

#[test]
fn allocate_fresh_memory_is_not_zeroed() {
    let mut heap = Heap::new();
    let m = MiMalloc;
    let region = m.allocate(&mut heap, layout(16, 4)).unwrap();
    // The model fills fresh memory with a fixed non-zero byte.
    check_range(&heap, region, 0, 16, 0xA5);
}

#[test]
fn round_trip_leaves_no_trace() {
    let mut heap = Heap::new();
    let m = MiMalloc;
    let l = layout(32, 8);
    let region = m.allocate(&mut heap, l).unwrap();
    fill(&mut heap, region, 0xAB);
    m.deallocate(&mut heap, region, l);
    // A later allocation shows only fresh filler or zeros, never the pattern.
    let again = m.allocate(&mut heap, l).unwrap();
    check_range(&heap, again, 0, 32, 0xA5);
    let zeroed = m.allocate_zeroed(&mut heap, l).unwrap();
    check_range(&heap, zeroed, 0, 32, 0x00);
}

#[test]
fn grow_in_place_preserves_prefix() {
    // Enough slack for the expansion primitive to succeed in place.
    let mut heap = Heap::with_slack(64);
    let m = MiMalloc;
    let old_l = layout(64, 8);
    let region = m.allocate(&mut heap, old_l).unwrap();
    fill(&mut heap, region, 0xAB);
    let new_l = layout(128, 8);
    let grown = m.grow(&mut heap, region, old_l, new_l).unwrap();
    // In place: the address did not change.
    assert_eq!(grown.addr, region.addr);
    assert_eq!(grown.size, 128);
    check_range(&heap, grown, 0, 64, 0xAB);
}

#[test]
fn grow_relocating_preserves_prefix() {
    // No slack: in-place expansion is declined and the region moves.
    let mut heap = Heap::new();
    let m = MiMalloc;
    let old_l = layout(64, 8);
    let region = m.allocate(&mut heap, old_l).unwrap();
    fill(&mut heap, region, 0xCD);
    let new_l = layout(128, 8);
    let grown = m.grow(&mut heap, region, old_l, new_l).unwrap();
    assert_ne!(grown.addr, region.addr);
    assert_eq!(grown.addr % 8, 0);
    assert_eq!(grown.size, 128);
    check_range(&heap, grown, 0, 64, 0xCD);
}

#[test]
fn grow_same_size_is_identity() {
    let mut heap = Heap::with_slack(16);
    let m = MiMalloc;
    let l = layout(16, 4);
    let region = m.allocate(&mut heap, l).unwrap();
    fill(&mut heap, region, 0x11);
    let grown = m.grow(&mut heap, region, l, l).unwrap();
    assert_eq!(grown.size, 16);
    check_range(&heap, grown, 0, 16, 0x11);
}

#[test]
fn grow_zeroed_in_place_zeroes_exactly_the_new_bytes() {
    let mut heap = Heap::with_slack(64);
    let m = MiMalloc;
    let old_l = layout(64, 8);
    let region = m.allocate(&mut heap, old_l).unwrap();
    fill(&mut heap, region, 0xAB);
    let new_l = layout(128, 8);
    let grown = m.grow_zeroed(&mut heap, region, old_l, new_l).unwrap();
    assert_eq!(grown.addr, region.addr);
    check_range(&heap, grown, 0, 64, 0xAB);
    check_range(&heap, grown, 64, 128, 0x00);
}

#[test]
fn grow_zeroed_relocating_zeroes_exactly_the_new_bytes() {
    let mut heap = Heap::new();
    let m = MiMalloc;
    let old_l = layout(64, 8);
    let region = m.allocate(&mut heap, old_l).unwrap();
    fill(&mut heap, region, 0xAB);
    let new_l = layout(128, 8);
    let grown = m.grow_zeroed(&mut heap, region, old_l, new_l).unwrap();
    assert_ne!(grown.addr, region.addr);
    check_range(&heap, grown, 0, 64, 0xAB);
    check_range(&heap, grown, 64, 128, 0x00);
}

#[test]
fn shrink_preserves_prefix_and_address() {
    let mut heap = Heap::new();
    let m = MiMalloc;
    let old_l = layout(64, 8);
    let region = m.allocate(&mut heap, old_l).unwrap();
    fill(&mut heap, region, 0xEE);
    let new_l = layout(24, 8);
    let shrunk = m.shrink(&mut heap, region, old_l, new_l).unwrap();
    assert_eq!(shrunk.addr, region.addr);
    assert_eq!(shrunk.size, 24);
    assert_eq!(heap.region_len(shrunk.addr), 24);
    check_range(&heap, shrunk, 0, 24, 0xEE);
}

#[test]
fn failed_grow_leaves_region_untouched() {
    let mut heap = Heap::new();
    let m = MiMalloc;
    let old_l = layout(32, 8);
    let region = m.allocate(&mut heap, old_l).unwrap();
    fill(&mut heap, region, 0x77);
    heap.set_fail_expand(true);
    heap.set_fail_realloc(true);
    let new_l = layout(64, 8);
    assert_eq!(m.grow(&mut heap, region, old_l, new_l), Err(AllocError));
    assert_eq!(m.grow_zeroed(&mut heap, region, old_l, new_l), Err(AllocError));
    // The original region is still live and byte-for-byte unchanged.
    assert_eq!(heap.region_len(region.addr), 32);
    check_range(&heap, region, 0, 32, 0x77);
    heap.set_fail_expand(false);
    heap.set_fail_realloc(false);
    let grown = m.grow(&mut heap, region, old_l, new_l).unwrap();
    check_range(&heap, grown, 0, 32, 0x77);
}

#[test]
fn failed_shrink_leaves_region_untouched() {
    let mut heap = Heap::new();
    let m = MiMalloc;
    let old_l = layout(32, 8);
    let region = m.allocate(&mut heap, old_l).unwrap();
    fill(&mut heap, region, 0x55);
    heap.set_fail_realloc(true);
    let new_l = layout(16, 8);
    assert_eq!(m.shrink(&mut heap, region, old_l, new_l), Err(AllocError));
    assert_eq!(heap.region_len(region.addr), 32);
    check_range(&heap, region, 0, 32, 0x55);
}

#[test]
fn grow_falls_back_when_only_expansion_fails() {
    let mut heap = Heap::with_slack(64);
    let m = MiMalloc;
    let old_l = layout(16, 8);
    let region = m.allocate(&mut heap, old_l).unwrap();
    fill(&mut heap, region, 0x42);
    heap.set_fail_expand(true);
    let grown = m.grow(&mut heap, region, old_l, layout(32, 8)).unwrap();
    // The reallocation fallback moved the region.
    assert_ne!(grown.addr, region.addr);
    check_range(&heap, grown, 0, 16, 0x42);
}

#[test]
fn collect_keeps_live_regions() {
    let mut heap = Heap::new();
    let m = MiMalloc;
    let l = layout(16, 4);
    let keep = m.allocate(&mut heap, l).unwrap();
    fill(&mut heap, keep, 0x99);
    let drop1 = m.allocate(&mut heap, l).unwrap();
    let drop2 = m.allocate(&mut heap, l).unwrap();
    m.deallocate(&mut heap, drop1, l);
    m.deallocate(&mut heap, drop2, l);
    m.collect(&mut heap, false);
    check_range(&heap, keep, 0, 16, 0x99);
    m.collect(&mut heap, true);
    check_range(&heap, keep, 0, 16, 0x99);
}

#[test]
fn expand_primitive_respects_capacity() {
    let mut heap = Heap::with_slack(8);
    let addr = heap.alloc_aligned(16, 4);
    assert_ne!(addr, 0);
    // Within the reserved capacity: in place, same address.
    assert_eq!(heap.expand(addr, 24), addr);
    // Beyond it: the null sentinel.
    assert_eq!(heap.expand(addr, 25), 0);
}

#[test]
fn realloc_primitive_shrinks_in_place() {
    let mut heap = Heap::new();
    let addr = heap.zalloc_aligned(32, 8);
    assert_ne!(addr, 0);
    assert_eq!(heap.realloc(addr, 16), addr);
    assert_eq!(heap.region_len(addr), 16);
}

#[test]
fn scenario_allocate_grow_shrink_deallocate() {
    let mut heap = Heap::with_slack(64);
    let m = MiMalloc;
    let l64 = layout(64, 8);
    let region = m.allocate(&mut heap, l64).unwrap();
    assert_eq!(region.addr % 8, 0);
    assert_eq!(region.size, 64);
    fill(&mut heap, region, 0xAB);

    let l128 = layout(128, 8);
    let grown = m.grow(&mut heap, region, l64, l128).unwrap();
    check_range(&heap, grown, 0, 64, 0xAB);

    let zeroed = m.grow_zeroed(&mut heap, grown, l128, layout(256, 8)).unwrap();
    check_range(&heap, zeroed, 0, 64, 0xAB);
    check_range(&heap, zeroed, 128, 256, 0x00);

    let l32 = layout(32, 8);
    let shrunk = m.shrink(&mut heap, zeroed, layout(256, 8), l32).unwrap();
    check_range(&heap, shrunk, 0, 32, 0xAB);

    m.deallocate(&mut heap, shrunk, l32);
}
