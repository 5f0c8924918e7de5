use kernel_mm::address::{PhysAddr, PhysPageNum, VPNRange, VirtAddr, VirtPageNum};
use kernel_mm::config::{PAGE_SIZE, TRAMPOLINE, TRAP_CONTEXT};
use kernel_mm::memory_set::TRAMPOLINE_VPN;
use kernel_mm::pte::{
    PTEFlags, PageTableEntry, PTE_A, PTE_COW, PTE_D, PTE_G, PTE_R, PTE_U, PTE_V, PTE_W, PTE_X,
};

#[test]
fn floor_truncates_and_ceil_rounds_up() {
    assert_eq!(VirtAddr(0).floor(), VirtPageNum(0));
    assert_eq!(VirtAddr(0).ceil(), VirtPageNum(0));
    assert_eq!(VirtAddr(1).floor(), VirtPageNum(0));
    assert_eq!(VirtAddr(1).ceil(), VirtPageNum(1));
    assert_eq!(VirtAddr(4095).floor(), VirtPageNum(0));
    assert_eq!(VirtAddr(4095).ceil(), VirtPageNum(1));
    assert_eq!(VirtAddr(4096).floor(), VirtPageNum(1));
    assert_eq!(VirtAddr(4096).ceil(), VirtPageNum(1));
    assert_eq!(VirtAddr(0x10010).floor(), VirtPageNum(0x10));
    assert_eq!(VirtAddr(0x10010).ceil(), VirtPageNum(0x11));
    assert_eq!(PhysAddr(0x8020_1234).floor(), PhysPageNum(0x80201));
    assert_eq!(PhysAddr(0x8020_1234).ceil(), PhysPageNum(0x80202));
    assert_eq!(VirtAddr(u64::MAX).ceil(), VirtPageNum(0x10_0000_0000_0000));
}

#[test]
fn page_offset_and_alignment() {
    assert_eq!(VirtAddr(0x10010).page_offset(), 0x10);
    assert_eq!(PhysAddr(0x8020_1fff).page_offset(), 0xfff);
    assert!(VirtAddr(0x3000).aligned());
    assert!(!VirtAddr(0x3001).aligned());
}

#[test]
fn new_keeps_the_low_bits_of_the_width() {
    assert_eq!(VirtAddr::new(0x1234), VirtAddr(0x1234));
    assert_eq!(VirtAddr::new(TRAMPOLINE), VirtAddr(0x7f_ffff_f000));
    assert_eq!(VirtAddr::new(TRAP_CONTEXT), VirtAddr(0x7f_ffff_e000));
    assert_eq!(VirtAddr::new(TRAMPOLINE).floor(), VirtPageNum(TRAMPOLINE_VPN));
    assert_eq!(VirtPageNum::new(0x800_0005), VirtPageNum(5));
    assert_eq!(PhysPageNum::new(0x1000_0000_0007), PhysPageNum(7));
    assert_eq!(PhysAddr::new(0x100_0000_0000_0009), PhysAddr(9));
}

#[test]
fn layout_constants() {
    assert_eq!(PAGE_SIZE, 4096);
    assert_eq!(TRAMPOLINE, 0xffff_ffff_ffff_f000);
    assert_eq!(TRAP_CONTEXT, TRAMPOLINE - PAGE_SIZE);
    assert_eq!(TRAMPOLINE_VPN, 0x7ff_ffff);
}

#[test]
fn addresses_of_page_numbers() {
    assert_eq!(VirtAddr::from_vpn(VirtPageNum(0x10)), VirtAddr(0x10000));
    assert_eq!(PhysAddr::from_ppn(PhysPageNum(0x80201)), PhysAddr(0x8020_1000));
}

#[test]
fn indexes_split_the_page_number_in_three() {
    assert_eq!(VirtPageNum(0).indexes(), (0, 0, 0));
    assert_eq!(VirtPageNum(0x7ff_ffff).indexes(), (511, 511, 511));
    assert_eq!(VirtPageNum((3 << 18) | (5 << 9) | 7).indexes(), (3, 5, 7));
    assert_eq!(VirtPageNum(0x80200).indexes(), (2, 1, 0));
}

#[test]
fn range_getters() {
    let r = VPNRange::new(VirtPageNum(3), VirtPageNum(9));
    assert_eq!(r.get_start(), VirtPageNum(3));
    assert_eq!(r.get_end(), VirtPageNum(9));
    assert_eq!(r.len(), 6);
    let e = VPNRange::new(VirtPageNum(4), VirtPageNum(4));
    assert_eq!(e.len(), 0);
}

#[test]
fn flag_bits_are_those_of_the_format() {
    assert_eq!(PTE_V, 1 << 0);
    assert_eq!(PTE_R, 1 << 1);
    assert_eq!(PTE_W, 1 << 2);
    assert_eq!(PTE_X, 1 << 3);
    assert_eq!(PTE_U, 1 << 4);
    assert_eq!(PTE_G, 1 << 5);
    assert_eq!(PTE_A, 1 << 6);
    assert_eq!(PTE_D, 1 << 7);
    assert_eq!(PTE_COW, 1 << 8);
}

#[test]
fn flag_set_operations() {
    let f = PTEFlags { bits: PTE_R | PTE_W };
    assert!(f.contains(PTE_R));
    assert!(f.contains(PTE_R | PTE_W));
    assert!(!f.contains(PTE_X));
    assert!(!f.contains(PTE_R | PTE_X));
    assert_eq!(f.union(PTE_X).bits, PTE_R | PTE_W | PTE_X);
    assert_eq!(f.difference(PTE_W).bits, PTE_R);
    assert_eq!(f.difference(PTE_X).bits, PTE_R | PTE_W);
    assert_eq!(PTEFlags::empty().bits, 0);
    assert_eq!(PTEFlags::from_bits(0x1ff), Some(PTEFlags { bits: 0x1ff }));
    assert_eq!(PTEFlags::from_bits(0x200), None);
}

#[test]
fn entry_packs_page_number_above_ten_flag_bits() {
    let e = PageTableEntry::new(PhysPageNum(0x80201), PTEFlags { bits: PTE_V | PTE_R | PTE_X });
    assert_eq!(e.bits, (0x80201 << 10) | 0b1011);
    assert_eq!(e.ppn(), PhysPageNum(0x80201));
    assert_eq!(e.flags(), PTEFlags { bits: PTE_V | PTE_R | PTE_X });
    assert!(e.is_valid());
    assert!(e.readable());
    assert!(e.executable());
    assert!(!e.writable());
    assert!(!e.is_cow());
    let top = PageTableEntry::new(PhysPageNum(0xfff_ffff_ffff), PTEFlags { bits: 0x1ff });
    assert_eq!(top.bits, 0x3f_ffff_ffff_fdff);
    assert_eq!(top.ppn(), PhysPageNum(0xfff_ffff_ffff));
    assert_eq!(top.flags().bits, 0x1ff);
    assert!(top.is_cow());
}

#[test]
fn empty_entry_is_not_valid() {
    let e = PageTableEntry::empty();
    assert_eq!(e.bits, 0);
    assert!(!e.is_valid());
    assert_eq!(e.ppn(), PhysPageNum(0));
    assert_eq!(e.flags().bits, 0);
}
