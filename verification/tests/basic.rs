use freelist_alloc::block::{block_new, NO_REGION};
use freelist_alloc::context::{resolve_page_size, FreelistAllocator};
use freelist_alloc::layout::{align_up, min_region_size, pow2_ceil, GROWTH_FLOOR};
use freelist_alloc::words::{read_word, read_word_usize};

#[test]
fn it_works() {
    let result = 2 + 2;
    assert_eq!(result, 4);
}

#[test]
fn min_region_size_is_header_plus_footer() {
    assert_eq!(min_region_size(), 38);
}

#[test]
fn align_up_rounds_to_boundary() {
    assert_eq!(align_up(0, 8), 0);
    assert_eq!(align_up(1, 8), 8);
    assert_eq!(align_up(40, 16), 48);
    assert_eq!(align_up(48, 16), 48);
}

#[test]
fn pow2_ceil_picks_smallest_power() {
    assert_eq!(pow2_ceil(1), Some(1));
    assert_eq!(pow2_ceil(3), Some(4));
    assert_eq!(pow2_ceil(4096), Some(4096));
    assert_eq!(pow2_ceil(4097), Some(8192));
    assert_eq!(pow2_ceil(usize::MAX), None);
}

#[test]
fn growth_increment_reaches_floor() {
    let a = FreelistAllocator::with_page_size(4096);
    assert_eq!(a.growth_increment, GROWTH_FLOOR);
    assert_eq!(a.block_count(), 0);
    let b = FreelistAllocator::with_page_size(64 * 1024 * 1024);
    assert_eq!(b.growth_increment, 64 * 1024 * 1024);
}

#[test]
fn resolve_page_size_falls_back() {
    assert_eq!(resolve_page_size(-1), 4096);
    assert_eq!(resolve_page_size(0), 4096);
    assert_eq!(resolve_page_size(4096), 4096);
    assert_eq!(resolve_page_size(65536), 65536);
    assert_eq!(resolve_page_size(7), 4096);
}

#[test]
fn fresh_block_is_one_free_region() {
    let b = block_new(4096);
    assert_eq!(b.mem.len(), 4096);
    assert_eq!(b.first_free, 0);
    assert_eq!(b.largest, 4096);
    // header words: leading sentinel, null prev, null next, span size
    assert_eq!(read_word(&b.mem, 0), 0x5452415453474552);
    assert_eq!(read_word_usize(&b.mem, 8), NO_REGION);
    assert_eq!(read_word_usize(&b.mem, 16), NO_REGION);
    assert_eq!(read_word_usize(&b.mem, 24), 4096);
    // the six trailing sentinel bytes "REGEND" close the span
    assert_eq!(&b.mem[4096 - 6..], b"REGEND");
}

#[test]
fn grow_rounds_large_requests_to_power_of_two() {
    let mut a = FreelistAllocator::with_page_size(4096);
    // a request above the growth increment gets a block exactly large
    // enough, rounded to the next power of two
    let len = a.grow(GROWTH_FLOOR + 1).unwrap();
    assert_eq!(len, 2 * GROWTH_FLOOR);
    assert_eq!(a.block_count(), 1);
    // a small request gets a block of the growth increment
    let len2 = a.grow(64).unwrap();
    assert_eq!(len2, GROWTH_FLOOR);
    assert_eq!(a.block_count(), 2);
}

#[test]
fn allocate_returns_aligned_offsets() {
    let mut a = FreelistAllocator::with_page_size(4096);
    let (b1, p1) = a.allocate(64, 8).unwrap();
    assert_eq!(b1, 0);
    assert_eq!(p1, 40);
    assert_eq!(p1 % 8, 0);
    let (b2, p2) = a.allocate(64, 8).unwrap();
    assert_eq!(b2, 0);
    assert_eq!(p2, 144);
    // the two usable spans do not overlap
    assert!(p1 + 64 <= p2);
}

#[test]
fn allocate_writes_record_sentinels() {
    let mut a = FreelistAllocator::with_page_size(4096);
    let (bi, p) = a.allocate(64, 8).unwrap();
    let mem = &a.blocks[bi].mem;
    // record: leading sentinel, record size, closing sentinel, back offset
    assert_eq!(read_word(mem, 0), 0x5452415453474154);
    assert_eq!(read_word_usize(mem, 16), 104);
    assert_eq!(read_word(mem, 24), 0x444e454741540000);
    assert_eq!(read_word_usize(mem, p - 8), p);
    // the remainder became a free region headed by its own sentinel
    assert_eq!(a.blocks[bi].first_free, 104);
    assert_eq!(read_word(mem, 104), 0x5452415453474552);
}

#[test]
fn large_alignment_yields_aligned_pointer_and_intact_record() {
    let mut a = FreelistAllocator::with_page_size(4096);
    let (bi, p) = a.allocate(10, 256).unwrap();
    assert_eq!(p % 256, 0);
    let mem = &a.blocks[bi].mem;
    // padding before the usable span did not corrupt the record's sentinels
    assert_eq!(read_word(mem, 0), 0x5452415453474154);
    assert_eq!(read_word(mem, 24), 0x444e454741540000);
    // the back-offset word recovers the record from the bare pointer
    assert_eq!(read_word_usize(mem, p - 8), p);
}

#[test]
fn oversized_request_gets_exactly_sized_block() {
    let mut a = FreelistAllocator::with_page_size(4096);
    let (bi, p) = a.allocate(GROWTH_FLOOR + 1000, 8).unwrap();
    assert_eq!(bi, 0);
    assert_eq!(a.block_count(), 1);
    assert_eq!(a.blocks[bi].mem.len(), 2 * GROWTH_FLOOR);
    assert!(p + GROWTH_FLOOR + 1000 <= 2 * GROWTH_FLOOR);
}

#[test]
fn exhausted_block_grows_a_second_one() {
    let mut a = FreelistAllocator::with_page_size(4096);
    // consume nearly the whole first block
    let (b1, _) = a.allocate(GROWTH_FLOOR - 100, 8).unwrap();
    assert_eq!(b1, 0);
    assert_eq!(a.block_count(), 1);
    // the head free region left is too small: a second block is mapped
    let (b2, p2) = a.allocate(64, 8).unwrap();
    assert_eq!(b2, 1);
    assert_eq!(a.block_count(), 2);
    assert_eq!(p2 % 8, 0);
}
