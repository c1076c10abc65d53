use os::address::{PhysPageNum, VirtPageNum};
use os::frame_allocator::LinkedFrameAllocator;
use os::pagetable::{PTEFlags, PageTable, PageTableEntry, PTE_R, PTE_V, PTE_W, PTE_X};

fn allocator() -> LinkedFrameAllocator {
    let mut a = LinkedFrameAllocator::new();
    a.init(0x8020_0000, 0x8040_0000);
    a
}

#[test]
fn test_entry_holds_page_number_and_flags() {
    let e = PageTableEntry::new(PhysPageNum(0x80200), PTEFlags { bits: PTE_V | PTE_R });
    assert_eq!(e.bits, (0x80200 << 10) | 3);
    assert_eq!(e.get_ppn().0, 0x80200);
    assert_eq!(e.flags().bits, 3);
    assert!(e.is_valid());
}

#[test]
fn test_entry_without_v_is_invalid() {
    let e = PageTableEntry::new(PhysPageNum(0x80200), PTEFlags { bits: PTE_R | PTE_W });
    assert!(!e.is_valid());
    assert!(!PageTableEntry { bits: 0 }.is_valid());
    assert!(PageTableEntry { bits: 0x401 }.is_valid());
}

#[test]
fn test_entry_flags_take_the_low_byte() {
    let e = PageTableEntry { bits: 0x1234_56cf };
    assert_eq!(e.flags().bits, 0xcf);
    assert_eq!(e.get_ppn().0, 0x1234_56cf >> 10);
}

#[test]
fn test_flags_from_bits_never_fails() {
    assert_eq!(PTEFlags::from_bits(0xff).unwrap().bits, 0xff);
    assert_eq!(PTEFlags::from_bits(0).unwrap().bits, 0);
    assert_eq!(PTEFlags::empty().bits, 0);
}

#[test]
fn test_flags_union_and_intersection() {
    let rw = PTEFlags { bits: PTE_R }.union(PTEFlags { bits: PTE_W });
    assert_eq!(rw.bits, 6);
    assert_eq!(rw.intersection(PTEFlags { bits: PTE_W | PTE_X }).bits, PTE_W);
}

#[test]
fn test_new_table_token_points_at_page_zero() {
    let pt = PageTable::new();
    assert_eq!(pt.token(), 8usize << 60);
    assert_eq!(pt.table_count(), 0);
}

#[test]
fn test_init_takes_the_root_frame() {
    let mut a = allocator();
    let mut pt = PageTable::new();
    pt.init(&mut a);
    assert_eq!(pt.token(), (8usize << 60) | 0x80201);
    assert_eq!(pt.table_count(), 1);
    assert_eq!(pt.table_frame(0).0, 0x80201);
    assert_eq!(a.alloc_page().0, 0x80202);
}

#[test]
fn test_map_then_translate() {
    let mut a = allocator();
    let mut pt = PageTable::new();
    pt.init(&mut a);
    pt.map(&mut a, VirtPageNum(0x80200), PhysPageNum(0x90000), PTEFlags { bits: PTE_R | PTE_W });
    let e = pt.translate(VirtPageNum(0x80200)).unwrap();
    assert_eq!(e.get_ppn().0, 0x90000);
    assert_eq!(e.flags().bits, PTE_V | PTE_R | PTE_W);
}

#[test]
fn test_map_builds_two_tables_below_the_root() {
    let mut a = allocator();
    let mut pt = PageTable::new();
    pt.init(&mut a);
    pt.map(&mut a, VirtPageNum(5), PhysPageNum(0x90000), PTEFlags { bits: PTE_R });
    assert_eq!(pt.table_count(), 3);
    assert_eq!(pt.table_frame(1).0, 0x80202);
    assert_eq!(pt.table_frame(2).0, 0x80203);
    // The root's entry 0 points at the second-level page, whose entry 0
    // points at the leaf page.
    assert_eq!(pt.table_entry(0, 0).bits, (0x80202 << 10) | 1);
    assert_eq!(pt.table_entry(1, 0).bits, (0x80203 << 10) | 1);
    assert_eq!(pt.table_entry(2, 5).bits, (0x90000 << 10) | 3);
}

#[test]
fn test_map_in_the_same_leaf_takes_no_frame() {
    let mut a = allocator();
    let mut pt = PageTable::new();
    pt.init(&mut a);
    pt.map(&mut a, VirtPageNum(5), PhysPageNum(0x90000), PTEFlags { bits: PTE_R });
    pt.map(&mut a, VirtPageNum(6), PhysPageNum(0x90001), PTEFlags { bits: PTE_R });
    assert_eq!(pt.table_count(), 3);
    assert_eq!(a.alloc_page().0, 0x80204);
}

#[test]
fn test_map_in_another_root_slot_takes_two_frames() {
    let mut a = allocator();
    let mut pt = PageTable::new();
    pt.init(&mut a);
    pt.map(&mut a, VirtPageNum(5), PhysPageNum(0x90000), PTEFlags { bits: PTE_R });
    pt.map(&mut a, VirtPageNum(1 << 18), PhysPageNum(0x90001), PTEFlags { bits: PTE_R });
    assert_eq!(pt.table_count(), 5);
    pt.map(&mut a, VirtPageNum((1 << 18) | (1 << 9)), PhysPageNum(0x90002), PTEFlags { bits: PTE_R });
    assert_eq!(pt.table_count(), 6);
}

#[test]
fn test_map_keeps_other_mappings() {
    let mut a = allocator();
    let mut pt = PageTable::new();
    pt.init(&mut a);
    pt.map(&mut a, VirtPageNum(5), PhysPageNum(0x90000), PTEFlags { bits: PTE_R });
    pt.map(&mut a, VirtPageNum(0x7ff_ffff), PhysPageNum(0x90001), PTEFlags { bits: PTE_X });
    assert_eq!(pt.translate(VirtPageNum(5)).unwrap().get_ppn().0, 0x90000);
    assert_eq!(pt.translate(VirtPageNum(0x7ff_ffff)).unwrap().get_ppn().0, 0x90001);
    assert!(pt.translate(VirtPageNum(4)).is_none());
    assert!(pt.translate(VirtPageNum(0x7ff_fffe)).is_none());
}

#[test]
fn test_map_uses_the_low_27_bits_of_the_page_number() {
    let mut a = allocator();
    let mut pt = PageTable::new();
    pt.init(&mut a);
    pt.map(&mut a, VirtPageNum((1 << 27) | 9), PhysPageNum(0x90000), PTEFlags { bits: PTE_R });
    assert_eq!(pt.translate(VirtPageNum(9)).unwrap().get_ppn().0, 0x90000);
}

#[test]
fn test_translate_without_root_finds_nothing() {
    let pt = PageTable::new();
    assert!(pt.translate(VirtPageNum(0)).is_none());
}

#[test]
fn test_unmap_leaves_the_table_as_it_is() {
    let mut a = allocator();
    let mut pt = PageTable::new();
    pt.init(&mut a);
    pt.map(&mut a, VirtPageNum(5), PhysPageNum(0x90000), PTEFlags { bits: PTE_R });
    pt.unmap(VirtPageNum(5));
    assert_eq!(pt.translate(VirtPageNum(5)).unwrap().get_ppn().0, 0x90000);
    assert_eq!(pt.table_count(), 3);
}

#[test]
fn test_release_gives_table_frames_back_in_order() {
    let mut a = LinkedFrameAllocator::new();
    a.init(0x8020_0000, 0x8020_4000);
    let mut pt = PageTable::new();
    pt.init(&mut a);
    pt.map(&mut a, VirtPageNum(5), PhysPageNum(0x90000), PTEFlags { bits: PTE_R });
    pt.release(&mut a);
    // Given back 0x80201, 0x80202, 0x80203 in that order: the last comes first.
    assert_eq!(a.alloc_page().0, 0x80203);
    assert_eq!(a.alloc_page().0, 0x80202);
    assert_eq!(a.alloc_page().0, 0x80201);
}

#[test]
fn test_init_root_entries_are_zero() {
    let mut a = allocator();
    let mut pt = PageTable::new();
    pt.init(&mut a);
    for i in 0..512 {
        assert_eq!(pt.table_entry(0, i).bits, 0);
    }
}

#[test]
fn test_first_map_leaves_exact_tables() {
    let mut a = LinkedFrameAllocator::new();
    a.init(0x8021_5000, 0x8022_0000);
    let mut pt = PageTable::new();
    pt.init(&mut a);
    pt.map(&mut a, VirtPageNum(0x80200), PhysPageNum(0x80200), PTEFlags { bits: PTE_R | PTE_X });
    assert_eq!(pt.table_count(), 3);
    assert_eq!(pt.table_frame(0).0, 0x80216);
    assert_eq!(pt.table_frame(1).0, 0x80217);
    assert_eq!(pt.table_frame(2).0, 0x80218);
    for k in 0..3 {
        for i in 0..512 {
            let expected = match (k, i) {
                (0, 2) => 0x2008_5C01,
                (1, 1) => 0x2008_6001,
                (2, 0) => 0x2008_000B,
                _ => 0,
            };
            assert_eq!(pt.table_entry(k, i).bits, expected);
        }
    }
    assert_eq!(a.current(), 0x80219);
}

#[test]
fn test_directory_entries_are_not_leaves() {
    let mut a = allocator();
    let mut pt = PageTable::new();
    pt.init(&mut a);
    pt.map(&mut a, VirtPageNum(0x80200), PhysPageNum(0x80200), PTEFlags { bits: PTE_R | PTE_W | PTE_X });
    assert_eq!(pt.table_entry(0, 2).bits & 0xe, 0);
    assert_eq!(pt.table_entry(1, 1).bits & 0xe, 0);
    assert_eq!(pt.translate(VirtPageNum(0x80200)).unwrap().bits, (0x80200 << 10) | 0xf);
}
