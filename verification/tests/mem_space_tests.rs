use os::address::VirtPageNum;
use os::frame_allocator::LinkedFrameAllocator;
use os::mem_space::{kernel_memspace_init, KernelLayout, MapArea, MapPermission, MapType, MemSpace, MAP_R, MAP_U, MAP_W, MAP_X};
use os::pagetable::PTE_V;
use os::vm_init;

fn layout() -> KernelLayout {
    KernelLayout {
        stext: 0x8020_0000,
        etext: 0x8020_2000,
        srodata: 0x8020_2000,
        erodata: 0x8020_2800,
        sdata: 0x8020_3000,
        edata: 0x8020_4000,
        boot_stack: 0x8020_4000,
        boot_stack_top: 0x8021_4000,
        sbss: 0x8021_4000,
        ebss: 0x8021_5000,
        ekernel: 0x8021_5000,
        phystop: 0x8030_0000,
    }
}

#[test]
fn test_map_permission_from_bits() {
    assert_eq!(MapPermission::from_bits(MAP_R | MAP_W | MAP_X | MAP_U).unwrap().bits, 0x1e);
    assert!(MapPermission::from_bits(1).is_none());
    assert!(MapPermission::from_bits(0x20).is_none());
    assert_eq!(MapPermission::from_bits(0).unwrap().bits, 0);
}

#[test]
fn test_map_permission_union() {
    let p = MapPermission { bits: MAP_R }.union(MapPermission { bits: MAP_X });
    assert_eq!(p.bits, 10);
}

#[test]
fn test_map_area_new_holds_no_frame() {
    let mut a = LinkedFrameAllocator::new();
    a.init(0x8020_0000, 0x8030_0000);
    let area = MapArea::new(VirtPageNum(1), VirtPageNum(4), MapType::Framed, MapPermission { bits: MAP_R });
    area.release(&mut a);
    assert_eq!(a.alloc_page().0, 0x80201);
}

#[test]
fn test_vm_init_maps_every_kernel_page_to_itself() {
    let mut a = LinkedFrameAllocator::new();
    let mut space = MemSpace::new();
    let token = vm_init(&mut a, &mut space, &layout());
    let pt = space.page_table();
    for vpn in 0x80200usize..0x80300 {
        let e = pt.translate(VirtPageNum(vpn)).unwrap();
        assert_eq!(e.get_ppn().0, vpn);
    }
    assert!(pt.translate(VirtPageNum(0x801ff)).is_none());
    assert!(pt.translate(VirtPageNum(0x80300)).is_none());
    // The root is the first page after the kernel.
    assert_eq!(token, (8usize << 60) | 0x80216);
    assert_eq!(space.token(), token);
}

#[test]
fn test_vm_init_gives_each_section_its_permissions() {
    let mut a = LinkedFrameAllocator::new();
    let mut space = MemSpace::new();
    vm_init(&mut a, &mut space, &layout());
    let pt = space.page_table();
    let flags = |vpn: usize| pt.translate(VirtPageNum(vpn)).unwrap().flags().bits;
    assert_eq!(flags(0x80200), PTE_V | MAP_R | MAP_X);
    assert_eq!(flags(0x80201), PTE_V | MAP_R | MAP_X);
    assert_eq!(flags(0x80202), PTE_V | MAP_R);
    assert_eq!(flags(0x80203), PTE_V | MAP_R | MAP_W);
    assert_eq!(flags(0x80210), PTE_V | MAP_R | MAP_W);
    assert_eq!(flags(0x80214), PTE_V | MAP_R | MAP_W);
    assert_eq!(flags(0x802ff), PTE_V | MAP_R | MAP_W);
}

#[test]
fn test_vm_init_takes_three_table_frames() {
    let mut a = LinkedFrameAllocator::new();
    let mut space = MemSpace::new();
    vm_init(&mut a, &mut space, &layout());
    // Root, one second-level page and one leaf page cover 0x80200..0x80300.
    assert_eq!(space.page_table().table_count(), 3);
    assert_eq!(a.alloc_page().0, 0x80219);
}

#[test]
fn test_kernel_memspace_init_on_fresh_space() {
    let mut a = LinkedFrameAllocator::new();
    a.init(0x8021_5000, 0x8030_0000);
    let mut space = MemSpace::new();
    kernel_memspace_init(&mut space, &mut a, &layout());
    let pt = space.page_table();
    assert_eq!(pt.translate(VirtPageNum(0x80215)).unwrap().get_ppn().0, 0x80215);
}

#[test]
fn test_memspace_release_returns_table_frames_last() {
    // Exactly the three frames the page table needs.
    let mut a = LinkedFrameAllocator::new();
    a.init(0x8021_5000, 0x8021_9000);
    let mut space = MemSpace::new();
    let mut l = layout();
    // Only sections below the allocator's first page, so that every frame
    // can be given back.
    l.ekernel = 0x8021_5000;
    l.phystop = 0x8021_5001;
    kernel_memspace_init(&mut space, &mut a, &l);
    space.release(&mut a);
    // Page-table frames are given back last: root, second level, leaf.
    assert_eq!(a.alloc_page().0, 0x80218);
    assert_eq!(a.alloc_page().0, 0x80217);
    assert_eq!(a.alloc_page().0, 0x80216);
    // Before them, the areas' frames, last area first, each in page order:
    // text 0x80200..0x80202 was given back last of the areas.
    assert_eq!(a.alloc_page().0, 0x80201);
    assert_eq!(a.alloc_page().0, 0x80200);
    assert_eq!(a.alloc_page().0, 0x80202);
    assert_eq!(a.alloc_page().0, 0x80203);
    assert_eq!(a.alloc_page().0, 0x80213);
}

#[test]
fn test_kernel_layout_is_valid() {
    assert!(os::mem_space::kernel_layout_is_valid(&layout()));
    let mut overlapping = layout();
    overlapping.srodata = 0x8020_1000;
    assert!(!os::mem_space::kernel_layout_is_valid(&overlapping));
    let mut empty_end = layout();
    empty_end.etext = 0;
    assert!(!os::mem_space::kernel_layout_is_valid(&empty_end));
}

#[test]
fn test_empty_sections_do_not_overlap() {
    let mut l = layout();
    l.sdata = 0x8020_3000;
    l.edata = 0x8020_3000;
    // The data section is empty: [0x80203, 0x80203) holds no page.
    l.boot_stack = 0x8020_3000;
    assert!(os::mem_space::kernel_layout_is_valid(&l));
}

#[test]
fn test_count_kernel_frames() {
    assert_eq!(os::mem_space::count_kernel_frames(&layout()), 3);
    let mut l = layout();
    // Memory up to 0x8060_0000: a second leaf page from page 0x80400.
    l.phystop = 0x8060_0000;
    assert_eq!(os::mem_space::count_kernel_frames(&l), 4);
    // Up to 0xc000_0000: one second-level page, 511 leaf pages.
    l.phystop = 0xc000_0000;
    assert_eq!(os::mem_space::count_kernel_frames(&l), 513);
}

#[test]
fn test_vm_init_over_all_of_memory() {
    let mut l = layout();
    l.phystop = 0x8800_0000;
    let mut a = LinkedFrameAllocator::new();
    let mut space = MemSpace::new();
    vm_init(&mut a, &mut space, &l);
    let pt = space.page_table();
    for vpn in [0x80200usize, 0x80215, 0x80400, 0x84000, 0x87fff] {
        assert_eq!(pt.translate(VirtPageNum(vpn)).unwrap().get_ppn().0, vpn);
    }
    assert!(pt.translate(VirtPageNum(0x88000)).is_none());
    // Root, one second-level page, leaves for 0x401..=0x43f.
    assert_eq!(pt.table_count(), 2 + 0x3f);
}
