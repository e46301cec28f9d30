use arceos_core::early::{align_down, align_up, AllocError, EarlyAllocator, BITMAP_CAP, MIN_HEAP_SIZE};

const PAGE: usize = 0x1000;

fn allocator(start: usize, size: usize) -> Box<EarlyAllocator<PAGE>> {
    let mut a = Box::new(EarlyAllocator::<PAGE>::new());
    a.init(start, size);
    a
}

#[test]
fn new_allocator_is_empty() {
    let mut a = Box::new(EarlyAllocator::<PAGE>::new());
    assert_eq!(a.total_pages(), 0);
    assert_eq!(a.used_pages(), 0);
    assert_eq!(a.available_pages(), 0);
    assert_eq!(a.alloc_pages(1, PAGE), Err(AllocError::NoMemory));
    assert_eq!(MIN_HEAP_SIZE, 0x8000);
}

#[test]
fn init_aligns_the_region() {
    let a = allocator(0x8000_0800, 0x10_0000);
    // 0x8000_1000 .. 0x8010_0000 holds 0xff whole pages.
    assert_eq!(a.total_pages(), 0xff);
    assert_eq!(a.available_pages(), 0xff);
}

#[test]
fn single_pages_come_lowest_first() {
    let mut a = allocator(0x8000_0000, 0x10_0000);
    assert_eq!(a.alloc_pages(1, PAGE), Ok(0x8000_0000));
    assert_eq!(a.alloc_pages(1, PAGE), Ok(0x8000_1000));
    assert_eq!(a.used_pages(), 2);
    assert_eq!(a.available_pages(), 0x100 - 2);
}

#[test]
fn contiguous_pages_follow_the_alignment() {
    let mut a = allocator(0x8000_0000, 0x10_0000);
    assert_eq!(a.alloc_pages(1, PAGE), Ok(0x8000_0000));
    // Four pages aligned to four: the bitmap reads 4 as the logarithm of the
    // alignment, so the run starts at a multiple of 2^4 = 16 pages.
    assert_eq!(a.alloc_pages(4, 4 * PAGE), Ok(0x8001_0000));
    assert_eq!(a.used_pages(), 5);
    // With an alignment of one page the run is aligned to 2^1 pages.
    assert_eq!(a.alloc_pages(2, PAGE), Ok(0x8000_2000));
    assert_eq!(a.alloc_pages(1, PAGE), Ok(0x8000_1000));
}

#[test]
fn invalid_requests_change_nothing() {
    let mut a = allocator(0x8000_0000, 0x10_0000);
    assert_eq!(a.alloc_pages(1, 0x800), Err(AllocError::InvalidParam));
    assert_eq!(a.alloc_pages(1, 3 * PAGE), Err(AllocError::InvalidParam));
    assert_eq!(a.alloc_pages(0, PAGE), Err(AllocError::InvalidParam));
    assert_eq!(a.alloc_pages(1, 0), Err(AllocError::InvalidParam));
    assert_eq!(a.used_pages(), 0);
    assert_eq!(a.alloc_pages(1, PAGE), Ok(0x8000_0000));
}

#[test]
fn exhausted_allocator_reports_no_memory() {
    let mut a = allocator(0x8000_0000, 2 * PAGE);
    assert_eq!(a.total_pages(), 2);
    assert_eq!(a.alloc_pages(4, PAGE), Err(AllocError::NoMemory));
    assert_eq!(a.alloc_pages(1, PAGE), Ok(0x8000_0000));
    assert_eq!(a.alloc_pages(1, PAGE), Ok(0x8000_1000));
    assert_eq!(a.alloc_pages(1, PAGE), Err(AllocError::NoMemory));
    assert_eq!(a.used_pages(), 2);
}

#[test]
fn dealloc_returns_the_page() {
    let mut a = allocator(0x8000_0000, 0x10_0000);
    let p = a.alloc_pages(1, PAGE).unwrap();
    let q = a.alloc_pages(1, PAGE).unwrap();
    assert_ne!(p, q);
    a.dealloc_pages(p, 1);
    assert_eq!(a.used_pages(), 1);
    assert_eq!(a.alloc_pages(1, PAGE), Ok(p));
}

#[test]
fn dealloc_counts_all_pages_but_frees_one() {
    let mut a = allocator(0x8000_0000, 0x10_0000);
    let p = a.alloc_pages(2, 2 * PAGE).unwrap();
    assert_eq!(p, 0x8000_0000);
    a.dealloc_pages(p, 2);
    assert_eq!(a.used_pages(), 0);
    assert_eq!(a.alloc_pages(1, PAGE), Ok(0x8000_0000));
    assert_eq!(a.alloc_pages(1, PAGE), Ok(0x8000_2000));
}

#[test]
fn alignment_helpers() {
    assert_eq!(align_down(0x1234, 0x1000), 0x1000);
    assert_eq!(align_up(0x1234, 0x1000), 0x2000);
    assert_eq!(align_up(0x2000, 0x1000), 0x2000);
    assert_eq!(align_down(0x2000, 0x1000), 0x2000);
    assert_eq!(BITMAP_CAP, 1 << 20);
}

#[test]
fn available_pages_count_free_pages_after_single_frees() {
    let mut a = allocator(0x8000_0000, 8 * PAGE);
    let p = a.alloc_pages(1, PAGE).unwrap();
    let q = a.alloc_pages(2, 2 * PAGE).unwrap();
    assert_eq!(a.available_pages(), 5);
    a.dealloc_pages(p, 1);
    assert_eq!(a.available_pages(), 6);
    // The six free pages can all be taken, and then no more.
    for _ in 0..6 {
        assert!(a.alloc_pages(1, PAGE).is_ok());
    }
    assert_eq!(a.alloc_pages(1, PAGE), Err(AllocError::NoMemory));
    assert_eq!(a.available_pages(), 0);
    assert_ne!(p, q);
}

#[test]
fn page_is_free_reports_bitmap() {
    let mut a = allocator(0x8000_0000, 4 * PAGE);
    assert_eq!(a.page_is_free(0x8000_0000), Some(true));
    let p = a.alloc_pages(1, PAGE).unwrap();
    assert_eq!(a.page_is_free(p), Some(false));
    assert_eq!(a.page_is_free(0x7000_0000), None);
}

#[test]
fn page_addresses_fit_in_a_word() {
    let a = allocator(0x8000_0000, 0x10_0000);
    assert!(a.page_addresses_fit());
    let b = allocator(usize::MAX - 0x10_0000, 0x8000);
    assert!(!b.page_addresses_fit());
}

#[test]
fn init_twice_adds_the_second_region() {
    let mut a = allocator(0x8000_0000, 2 * PAGE);
    a.init(0x9000_0000, 4 * PAGE);
    assert_eq!(a.total_pages(), 4);
    // Pages 0..4 are free; page 0 now lies at the second region's start.
    assert_eq!(a.alloc_pages(1, PAGE), Ok(0x9000_0000));
    assert_eq!(a.available_pages(), 3);
}
