use kernel_mm::address::{PhysPageNum, VirtPageNum};
use kernel_mm::frame::PhysMemory;
use kernel_mm::page_table::PageTable;
use kernel_mm::pte::{PTEFlags, PageTableEntry, PTE_COW, PTE_R, PTE_U, PTE_V, PTE_W, PTE_X};

#[test]
fn map_then_translate_gives_the_entry() {
    let mut mem = PhysMemory::new(PhysPageNum(0x80400), 16);
    let mut pt = PageTable::new(&mut mem);
    let vpn = VirtPageNum(0x10000);
    pt.map(&mut mem, vpn, PhysPageNum(0x1234), PTEFlags { bits: PTE_R | PTE_W });
    let e = pt.translate(&mem, vpn).unwrap();
    assert_eq!(e, PageTableEntry::new(PhysPageNum(0x1234), PTEFlags { bits: PTE_R | PTE_W | PTE_V }));
    assert_eq!(e.ppn(), PhysPageNum(0x1234));
    assert_eq!(e.flags().bits, PTE_R | PTE_W | PTE_V);
    assert_eq!(e.bits, (0x1234 << 10) | 0x7);
    assert!(pt.translate(&mem, VirtPageNum(0x10001)).is_none());
}

#[test]
fn unmap_then_translate_gives_none() {
    let mut mem = PhysMemory::new(PhysPageNum(0x80400), 16);
    let mut pt = PageTable::new(&mut mem);
    let vpn = VirtPageNum(0x7ff_ffff);
    pt.map(&mut mem, vpn, PhysPageNum(7), PTEFlags { bits: PTE_R });
    assert!(pt.translate(&mem, vpn).is_some());
    pt.unmap(&mut mem, vpn);
    assert!(pt.translate(&mem, vpn).is_none());
}

#[test]
fn translate_of_an_unmapped_page_is_none() {
    let mut mem = PhysMemory::new(PhysPageNum(0x80400), 16);
    let pt = PageTable::new(&mut mem);
    assert!(pt.translate(&mem, VirtPageNum(0)).is_none());
    assert!(pt.translate(&mem, VirtPageNum(0x7ff_ffff)).is_none());
    assert_eq!(mem.free_frames(), 15);
}

#[test]
fn a_walk_creates_the_nodes_it_misses_and_no_more() {
    let mut mem = PhysMemory::new(PhysPageNum(0x80400), 16);
    let mut pt = PageTable::new(&mut mem);
    assert_eq!(pt.frame_count(), 1);
    pt.map(&mut mem, VirtPageNum(0), PhysPageNum(1), PTEFlags { bits: PTE_R });
    assert_eq!(pt.frame_count(), 3);
    assert_eq!(mem.free_frames(), 13);
    // same level-0 node
    pt.map(&mut mem, VirtPageNum(511), PhysPageNum(2), PTEFlags { bits: PTE_R });
    assert_eq!(pt.frame_count(), 3);
    // same level-1 node, another level-0 node
    pt.map(&mut mem, VirtPageNum(512), PhysPageNum(3), PTEFlags { bits: PTE_R });
    assert_eq!(pt.frame_count(), 4);
    // another level-1 node
    pt.map(&mut mem, VirtPageNum(1 << 18), PhysPageNum(4), PTEFlags { bits: PTE_R });
    assert_eq!(pt.frame_count(), 6);
    assert_eq!(mem.free_frames(), 10);
    // unmapping leaves the nodes in place
    pt.unmap(&mut mem, VirtPageNum(512));
    assert_eq!(pt.frame_count(), 6);
    assert_eq!(mem.free_frames(), 10);
    assert_eq!(pt.translate(&mem, VirtPageNum(0)).unwrap().ppn(), PhysPageNum(1));
    assert_eq!(pt.translate(&mem, VirtPageNum(511)).unwrap().ppn(), PhysPageNum(2));
    assert_eq!(pt.translate(&mem, VirtPageNum(1 << 18)).unwrap().ppn(), PhysPageNum(4));
    assert!(pt.translate(&mem, VirtPageNum(512)).is_none());
}

#[test]
fn token_is_the_mode_above_the_root_frame() {
    let mut mem = PhysMemory::new(PhysPageNum(0x80240), 4);
    let pt = PageTable::new(&mut mem);
    assert_eq!(pt.token(), (8u64 << 60) | 0x80240);
}

#[test]
fn interior_entries_are_valid_only() {
    let mut mem = PhysMemory::new(PhysPageNum(0x100), 8);
    let mut pt = PageTable::new(&mut mem);
    pt.map(&mut mem, VirtPageNum((1 << 18) | (2 << 9) | 3), PhysPageNum(0x55), PTEFlags { bits: PTE_R | PTE_X });
    // root is frame 0x100, the level-1 node 0x101, the level-0 node 0x102
    assert_eq!(mem.read_word(PhysPageNum(0x100), 1), (0x101 << 10) | 1);
    assert_eq!(mem.read_word(PhysPageNum(0x101), 2), (0x102 << 10) | 1);
    assert_eq!(mem.read_word(PhysPageNum(0x102), 3), (0x55 << 10) | 0b1011);
}

#[test]
fn set_flags_keeps_the_frame_and_the_valid_bit() {
    let mut mem = PhysMemory::new(PhysPageNum(0x100), 8);
    let mut pt = PageTable::new(&mut mem);
    let vpn = VirtPageNum(42);
    pt.map(&mut mem, vpn, PhysPageNum(0x77), PTEFlags { bits: PTE_R | PTE_W | PTE_U });
    pt.set_flags(&mut mem, vpn, PTEFlags { bits: PTE_R | PTE_U });
    let e = pt.translate(&mem, vpn).unwrap();
    assert_eq!(e.ppn(), PhysPageNum(0x77));
    assert_eq!(e.flags().bits, PTE_R | PTE_U | PTE_V);
}

#[test]
fn set_cow_and_reset_cow_touch_that_bit_only() {
    let mut mem = PhysMemory::new(PhysPageNum(0x100), 8);
    let mut pt = PageTable::new(&mut mem);
    let vpn = VirtPageNum(42);
    pt.map(&mut mem, vpn, PhysPageNum(0x77), PTEFlags { bits: PTE_R | PTE_X });
    pt.set_cow(&mut mem, vpn);
    let e = pt.translate(&mem, vpn).unwrap();
    assert!(e.is_cow());
    assert_eq!(e.flags().bits, PTE_R | PTE_X | PTE_V | PTE_COW);
    assert_eq!(e.ppn(), PhysPageNum(0x77));
    pt.reset_cow(&mut mem, vpn);
    let e = pt.translate(&mem, vpn).unwrap();
    assert!(!e.is_cow());
    assert_eq!(e.flags().bits, PTE_R | PTE_X | PTE_V);
    assert_eq!(e.ppn(), PhysPageNum(0x77));
}

#[test]
fn remap_cow_installs_the_frame_writable_and_not_cow() {
    let mut mem = PhysMemory::new(PhysPageNum(0x100), 8);
    let mut pt = PageTable::new(&mut mem);
    let vpn = VirtPageNum(42);
    pt.map(&mut mem, vpn, PhysPageNum(0x77), PTEFlags { bits: PTE_R | PTE_U });
    pt.set_cow(&mut mem, vpn);
    pt.remap_cow(&mut mem, vpn, PhysPageNum(0x88), PhysPageNum(0x77));
    let e = pt.translate(&mem, vpn).unwrap();
    assert_eq!(e.ppn(), PhysPageNum(0x88));
    assert_eq!(e.flags().bits, PTE_R | PTE_U | PTE_V | PTE_W);
    assert!(e.writable());
    assert!(!e.is_cow());
}

#[test]
fn release_gives_every_node_back() {
    let mut mem = PhysMemory::new(PhysPageNum(0x100), 8);
    let mut pt = PageTable::new(&mut mem);
    pt.map(&mut mem, VirtPageNum(1), PhysPageNum(0x77), PTEFlags { bits: PTE_R });
    pt.map(&mut mem, VirtPageNum(1 << 20), PhysPageNum(0x78), PTEFlags { bits: PTE_R });
    assert_eq!(mem.free_frames(), 3);
    pt.release(&mut mem);
    assert_eq!(mem.free_frames(), 8);
}
