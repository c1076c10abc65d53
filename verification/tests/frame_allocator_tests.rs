use os::address::PhysPageNum;
use os::frame_allocator::{alloc_frame, dealloc_frame, LinkedFrameAllocator, PhysFrame};

fn small_pool() -> LinkedFrameAllocator {
    // Pages 0x80201 .. 0x80204: three untouched pages.
    let mut a = LinkedFrameAllocator::new();
    a.init(0x8020_0000, 0x8020_4000);
    a
}

#[test]
fn test_alloc_hands_out_pages_in_order() {
    let mut a = small_pool();
    assert_eq!(a.alloc_page().0, 0x80201);
    assert_eq!(a.alloc_page().0, 0x80202);
    assert_eq!(a.alloc_page().0, 0x80203);
}

#[test]
fn test_init_starts_after_the_kernel_page() {
    let mut a = LinkedFrameAllocator::new();
    a.init(0x8021_5123, 0x8800_0000);
    assert_eq!(a.alloc_page().0, 0x80216);
}

#[test]
fn test_dealloc_then_alloc_when_exhausted() {
    let mut a = small_pool();
    let p1 = a.alloc_page();
    let _p2 = a.alloc_page();
    let _p3 = a.alloc_page();
    a.dealloc_page(p1);
    assert_eq!(a.alloc_page().0, p1.0);
}

#[test]
fn test_recycled_pages_come_back_last_in_first_out() {
    let mut a = small_pool();
    let p1 = a.alloc_page();
    let p2 = a.alloc_page();
    let _p3 = a.alloc_page();
    a.dealloc_page(p1);
    a.dealloc_page(p2);
    assert_eq!(a.alloc_page().0, 0x80202);
    assert_eq!(a.alloc_page().0, 0x80201);
}

#[test]
fn test_untouched_pages_go_before_recycled_ones() {
    let mut a = small_pool();
    let p1 = a.alloc_page();
    a.dealloc_page(p1);
    assert_eq!(a.alloc_page().0, 0x80202);
    assert_eq!(a.alloc_page().0, 0x80203);
    assert_eq!(a.alloc_page().0, 0x80201);
}

#[test]
fn test_two_allocations_are_distinct() {
    let mut a = small_pool();
    let p = a.alloc_page();
    let q = a.alloc_page();
    assert_ne!(p.0, q.0);
}

#[test]
fn test_alloc_frame_and_release() {
    let mut a = small_pool();
    let f = alloc_frame(&mut a);
    assert_eq!(f.ppn.0, 0x80201);
    let _g = alloc_frame(&mut a);
    let _h = alloc_frame(&mut a);
    f.release(&mut a);
    assert_eq!(alloc_frame(&mut a).ppn.0, 0x80201);
}

#[test]
fn test_dealloc_frame_gives_page_back() {
    let mut a = small_pool();
    let p = a.alloc_page();
    let _ = a.alloc_page();
    let _ = a.alloc_page();
    dealloc_frame(&mut a, p);
    assert_eq!(a.alloc_page().0, 0x80201);
}

#[test]
fn test_new_nonzero_keeps_page_number() {
    let f = PhysFrame::new_nonzero(PhysPageNum(0x1234));
    assert_eq!(f.ppn.0, 0x1234);
}

#[test]
fn test_kernel_past_memory_top_serves_only_recycled_pages() {
    let mut a = LinkedFrameAllocator::new();
    a.init(0x8020_0000, 0x8010_0000);
    a.dealloc_page(PhysPageNum(0x80000));
    assert_eq!(a.alloc_page().0, 0x80000);
}

#[test]
fn test_allocator_queries() {
    let mut a = small_pool();
    assert_eq!(a.current(), 0x80201);
    assert_eq!(a.end(), 0x80204);
    assert!(a.can_alloc());
    assert!(a.has_available(3));
    assert!(!a.has_available(4));
    let p = a.alloc_page();
    let _ = a.alloc_page();
    let _ = a.alloc_page();
    assert!(!a.can_alloc());
    assert!(a.has_available(0));
    a.dealloc_page(p);
    assert_eq!(a.recycled_count(), 1);
    assert!(a.can_alloc());
    assert!(a.has_available(1));
    assert!(!a.has_available(2));
}

#[test]
fn test_new_allocator_has_nothing() {
    let a = LinkedFrameAllocator::new();
    assert!(!a.can_alloc());
    assert_eq!(a.current(), 0);
    assert_eq!(a.end(), 0);
    assert_eq!(a.recycled_count(), 0);
}
