use buddy_allocator::map::MemBitMap;
use buddy_allocator::queue::PageQueue;
use buddy_allocator::sizes::{page_size, MAX_ORDER, MIN_PAGE_SIZE};
use buddy_allocator::{AllocError, Align, BuddyAllocator, Page};

const MIB: usize = 1 << 20;

fn align(power: u32) -> Align {
    Align { power }
}

fn sixteen_mib() -> BuddyAllocator {
    let mut a = BuddyAllocator::new();
    a.init(0, 16 * MIB, 0);
    a
}

#[test]
fn page_sizes_double_per_order() {
    assert_eq!(page_size(0), MIN_PAGE_SIZE);
    assert_eq!(page_size(1), 8192);
    assert_eq!(page_size(MAX_ORDER), 4 * MIB);
}

#[test]
fn align_sizes() {
    assert_eq!(align(12).as_size(), 4096);
    assert_eq!(align(22).as_size(), 4 * MIB);
    assert_eq!(align(13).as_power(), 13);
}

#[test]
fn new_allocator_has_nothing_to_hand_out() {
    let mut a = BuddyAllocator::new();
    assert_eq!(a.alloc_pages(align(12)), Err(AllocError::OutOfMemory));
    assert_eq!(a.alloc_pages(align(22)), Err(AllocError::OutOfMemory));
}

#[test]
fn too_large_alignment_is_misaligned() {
    let mut a = sixteen_mib();
    assert_eq!(a.alloc_pages(align(23)), Err(AllocError::Misaligned));
    assert_eq!(a.alloc_pages(align(30)), Err(AllocError::Misaligned));
}

#[test]
fn first_pages_follow_the_bitmaps() {
    // the bitmaps of a 16 MiB region take 1024 bytes from address 0, so the
    // first free page is at 4096; the pages below 4 MiB are laid from the
    // top down, one block per order
    let mut a = sixteen_mib();
    assert_eq!(a.alloc_pages(align(12)), Ok(Page { addr: 4096, align: align(12) }));
    assert_eq!(a.alloc_pages(align(13)), Ok(Page { addr: 8192, align: align(13) }));
    assert_eq!(a.alloc_pages(align(21)), Ok(Page { addr: 2 * MIB, align: align(21) }));
    assert_eq!(a.alloc_pages(align(20)), Ok(Page { addr: MIB, align: align(20) }));
}

#[test]
fn split_hands_out_the_lower_half() {
    let mut a = sixteen_mib();
    assert_eq!(a.alloc_pages(align(12)).unwrap().addr, 4096);
    // order 0 is empty now: the order-1 block at 8192 is split
    assert_eq!(a.alloc_pages(align(12)).unwrap().addr, 8192);
    // its upper half went to order 0
    assert_eq!(a.alloc_pages(align(12)).unwrap().addr, 12288);
    // next the order-2 block at 16384 is split twice
    assert_eq!(a.alloc_pages(align(12)).unwrap().addr, 16384);
    assert_eq!(a.alloc_pages(align(12)).unwrap().addr, 20480);
    assert_eq!(a.alloc_pages(align(13)).unwrap().addr, 24576);
}

#[test]
fn largest_blocks_run_out() {
    let mut a = sixteen_mib();
    assert_eq!(a.alloc_pages(align(22)).unwrap().addr, 4 * MIB);
    assert_eq!(a.alloc_pages(align(22)).unwrap().addr, 8 * MIB);
    assert_eq!(a.alloc_pages(align(22)).unwrap().addr, 12 * MIB);
    assert_eq!(a.alloc_pages(align(22)), Err(AllocError::OutOfMemory));
}

#[test]
fn freed_largest_block_is_handed_out_again() {
    let mut a = sixteen_mib();
    let p = a.alloc_pages(align(22)).unwrap();
    assert_eq!(a.free_pages(p), Ok(()));
    // it joined the back of the queue
    assert_eq!(a.alloc_pages(align(22)).unwrap().addr, 8 * MIB);
    assert_eq!(a.alloc_pages(align(22)).unwrap().addr, 12 * MIB);
    assert_eq!(a.alloc_pages(align(22)).unwrap().addr, 4 * MIB);
    assert_eq!(a.alloc_pages(align(22)), Err(AllocError::OutOfMemory));
}

#[test]
fn freeing_merges_buddies() {
    let mut a = sixteen_mib();
    let p1 = a.alloc_pages(align(12)).unwrap(); // 4096
    let p2 = a.alloc_pages(align(12)).unwrap(); // 8192, split from order 1
    let p3 = a.alloc_pages(align(12)).unwrap(); // 12288
    assert_eq!((p1.addr, p2.addr, p3.addr), (4096, 8192, 12288));
    a.free_pages(p2).unwrap();
    a.free_pages(p3).unwrap();
    // 8192 and 12288 merged back into the order-1 block at 8192
    assert_eq!(a.alloc_pages(align(13)).unwrap().addr, 8192);
    // the page at 4096 has its buddy (page 0, the bitmaps) in use: no merge
    a.free_pages(p1).unwrap();
    assert_eq!(a.alloc_pages(align(12)).unwrap().addr, 4096);
}

#[test]
fn alloc_then_free_restores_what_can_be_handed_out() {
    let mut a = sixteen_mib();
    let p = a.alloc_pages(align(12)).unwrap();
    let q = a.alloc_pages(align(12)).unwrap(); // splits the order-1 block
    a.free_pages(q).unwrap();
    // the order-1 block is whole again
    assert_eq!(a.alloc_pages(align(13)).unwrap().addr, 8192);
    a.free_pages(p).unwrap();
    assert_eq!(a.alloc_pages(align(12)).unwrap().addr, 4096);
}

#[test]
fn handed_out_block_is_given_back_after_other_traffic() {
    let mut a = sixteen_mib();
    let big = a.alloc_pages(align(21)).unwrap();
    let small = a.alloc_pages(align(12)).unwrap();
    let mid = a.alloc_pages(align(20)).unwrap();
    assert_eq!((big.addr, small.addr, mid.addr), (2 * MIB, 4096, MIB));
    a.free_pages(small).unwrap();
    a.free_pages(big).unwrap();
    // the 2 MiB block is free again and whole; its buddy holds the bitmaps
    assert_eq!(a.alloc_pages(align(21)).unwrap().addr, 2 * MIB);
    a.free_pages(mid).unwrap();
    assert_eq!(a.alloc_pages(align(20)).unwrap().addr, MIB);
    assert_eq!(a.alloc_pages(align(12)).unwrap().addr, 4096);
}

#[test]
fn split_takes_from_the_next_order_up() {
    let mut a = sixteen_mib();
    // order 0 holds the page at 4096; the order-1 block at 8192 is split
    assert_eq!(a.split(0), 8192);
    assert_eq!(a.alloc_pages(align(12)).unwrap().addr, 4096);
    assert_eq!(a.alloc_pages(align(12)).unwrap().addr, 12288);
    // no free block above order 10
    assert_eq!(a.split(MAX_ORDER), 0);
}

#[test]
fn region_not_on_a_largest_boundary() {
    // 1 MiB start: the bitmaps take 513 bytes, the first page is at
    // 1 MiB + 4 KiB and the largest block starts at 5 MiB
    let mut a = BuddyAllocator::new();
    a.init(MIB, 8 * MIB, MIB);
    assert_eq!(a.alloc_pages(align(22)).unwrap().addr, 5 * MIB);
    assert_eq!(a.alloc_pages(align(22)), Err(AllocError::OutOfMemory));
    assert_eq!(a.alloc_pages(align(21)).unwrap().addr, 3 * MIB);
    assert_eq!(a.alloc_pages(align(12)).unwrap().addr, MIB + 4096);
}

#[test]
fn page_queue_is_first_in_first_out() {
    let mut q = PageQueue::new();
    assert!(q.empty());
    q.enqueue(4096);
    q.enqueue(8192);
    q.enqueue(12288);
    assert!(!q.empty());
    q.remove(8192);
    assert_eq!(q.dequeue(), 4096);
    assert_eq!(q.dequeue(), 12288);
    assert_eq!(q.dequeue(), 0);
    assert!(q.empty());
}

#[test]
fn mem_bit_map_starts_all_set() {
    let mut m = MemBitMap::new();
    assert_eq!(m.size(), 0);
    assert!(m.is_set(0));
    m.init(0x1000, 10);
    assert_eq!(m.size(), 2);
    for i in 0..12 {
        assert!(m.is_set(i));
    }
    m.clear_bit(9);
    assert!(!m.is_set(9));
    assert!(m.is_set(8));
    m.set_bit(9);
    assert!(m.is_set(9));
    m.clear_bit(0);
    m.clear_bit(7);
    assert!(!m.is_set(0) && !m.is_set(7) && m.is_set(1));
}

#[test]
fn mem_bit_map_size_rounds_up_to_bytes() {
    let mut m = MemBitMap::new();
    m.init(0, 16);
    assert_eq!(m.size(), 2);
    m.init(0, 17);
    assert_eq!(m.size(), 3);
    m.init(0, 0);
    assert_eq!(m.size(), 0);
}
