use os::address::{phys_page_round_down, phys_page_round_up, PhysAddr, PhysPageNum, VirtAddr, VirtPageNum};

#[test]
fn test_usize_from_each_address_kind() {
    assert_eq!(usize::from(PhysAddr(0x8020_0000)), 0x8020_0000);
    assert_eq!(usize::from(PhysPageNum(0x80200)), 0x80200);
    assert_eq!(usize::from(VirtAddr(0x1234)), 0x1234);
    assert_eq!(usize::from(VirtPageNum(0x42)), 0x42);
}

#[test]
fn test_phys_addr_from_usize_keeps_56_bits() {
    assert_eq!(PhysAddr::from(usize::MAX).0, (1usize << 56) - 1);
    assert_eq!(PhysAddr::from(0x8020_0000usize).0, 0x8020_0000);
    assert_eq!(PhysAddr::from(1usize << 56).0, 0);
}

#[test]
fn test_phys_page_num_from_usize_keeps_44_bits() {
    assert_eq!(PhysPageNum::from(usize::MAX).0, (1usize << 44) - 1);
    assert_eq!(PhysPageNum::from((1usize << 44) + 7).0, 7);
    assert_eq!(PhysPageNum::from(0usize).0, 0);
}

#[test]
fn test_virt_addr_from_usize_keeps_39_bits() {
    assert_eq!(VirtAddr::from(usize::MAX).0, (1usize << 39) - 1);
    assert_eq!(VirtAddr::from((1usize << 39) | 0x1000).0, 0x1000);
}

#[test]
fn test_virt_page_num_from_usize_keeps_27_bits() {
    assert_eq!(VirtPageNum::from(usize::MAX).0, (1usize << 27) - 1);
    assert_eq!(VirtPageNum::from(0x1234_5678usize).0, 0x0234_5678);
    assert_eq!(VirtPageNum::from(0x80200usize).0, 0x80200);
}

#[test]
fn test_page_numbers_of_addresses() {
    assert_eq!(VirtPageNum::from(VirtAddr(0x1234_5678)).0, 0x12345);
    assert_eq!(PhysPageNum::from(PhysAddr(0x8020_0fff)).0, 0x80200);
    assert_eq!(PhysPageNum::from(PhysAddr(0xfff)).0, 0);
}

#[test]
fn test_phys_addr_of_page_number() {
    assert_eq!(PhysAddr::from(PhysPageNum(0x80200)).0, 0x8020_0000);
    assert_eq!(PhysAddr::from(PhysPageNum(0)).0, 0);
    assert_eq!(PhysAddr::from(PhysPageNum(1usize << 52)).0, 0);
}

#[test]
fn test_phys_page_round_up() {
    assert_eq!(phys_page_round_up(0x8020_0000), 0x80201);
    assert_eq!(phys_page_round_up(0x8020_0fff), 0x80201);
    assert_eq!(phys_page_round_up(0), 1);
    assert_eq!(phys_page_round_up(usize::MAX), (usize::MAX >> 12) + 1);
}

#[test]
fn test_phys_page_round_down() {
    assert_eq!(phys_page_round_down(0x8800_0000), 0x88000);
    assert_eq!(phys_page_round_down(0x8800_0fff), 0x88000);
    assert_eq!(phys_page_round_down(0xfff), 0);
    assert_eq!(phys_page_round_down(0x1000), 1);
}

#[test]
fn test_virt_page_num_order() {
    assert!(VirtPageNum(1) < VirtPageNum(2));
    assert!(VirtPageNum(7) == VirtPageNum(7));
}

#[test]
fn test_page_to_address_and_back() {
    for ppn in [0usize, 1, 0x80200, (1usize << 52) - 1] {
        assert_eq!(PhysPageNum::from(PhysAddr::from(PhysPageNum(ppn))).0, ppn);
    }
}
