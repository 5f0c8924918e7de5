use kernel_mm::address::{PhysPageNum, VirtAddr, VirtPageNum};
use kernel_mm::frame::PhysMemory;
use kernel_mm::map_area::{MapArea, MapPermission, MapType, MAP_R, MAP_U, MAP_W, MAP_X};
use kernel_mm::page_table::PageTable;
use kernel_mm::pte::{PTE_R, PTE_U, PTE_V, PTE_W, PTE_X};

#[test]
fn new_area_covers_the_pages_of_the_addresses() {
    let a = MapArea::new(VirtAddr(0x10010), VirtAddr(0x12001), MapType::Framed, MapPermission { bits: MAP_R });
    assert_eq!(a.get_start(), VirtPageNum(0x10));
    assert_eq!(a.get_end(), VirtPageNum(0x13));
    assert_eq!(a.get_type(), MapType::Framed);
    assert_eq!(a.get_perm(), MapPermission { bits: MAP_R });
    assert_eq!(a.frame_of(VirtPageNum(0x10)), None);
    let b = MapArea::new(VirtAddr(0x3000), VirtAddr(0x3000), MapType::Identical, MapPermission { bits: MAP_R });
    assert_eq!(b.get_start(), VirtPageNum(3));
    assert_eq!(b.get_end(), VirtPageNum(3));
}

#[test]
fn permission_bits_sit_where_the_entry_flags_sit() {
    assert_eq!(MAP_R as u16, PTE_R);
    assert_eq!(MAP_W as u16, PTE_W);
    assert_eq!(MAP_X as u16, PTE_X);
    assert_eq!(MAP_U as u16, PTE_U);
    assert_eq!(MapPermission::from_bits(MAP_R | MAP_U), Some(MapPermission { bits: 0x12 }));
    assert_eq!(MapPermission::from_bits(1), None);
    assert_eq!(MapPermission::from_bits(0x20), None);
    let p = MapPermission { bits: MAP_R }.union(MAP_W);
    assert_eq!(p.bits, MAP_R | MAP_W);
    assert!(p.contains(MAP_W));
    assert!(!p.contains(MAP_X));
}

#[test]
fn from_another_copies_the_shape_and_no_frame() {
    let mut mem = PhysMemory::new(PhysPageNum(0x100), 16);
    let mut pt = PageTable::new(&mut mem);
    let mut a = MapArea::new(VirtAddr(0x10000), VirtAddr(0x12000), MapType::Framed, MapPermission { bits: MAP_R | MAP_W });
    a.map(&mut pt, &mut mem);
    let b = MapArea::from_another(&a);
    assert_eq!(b.get_start(), a.get_start());
    assert_eq!(b.get_end(), a.get_end());
    assert_eq!(b.get_type(), MapType::Framed);
    assert_eq!(b.get_perm(), a.get_perm());
    assert!(a.frame_of(VirtPageNum(0x10)).is_some());
    assert_eq!(b.frame_of(VirtPageNum(0x10)), None);
    let c = a.duplicate();
    assert_eq!(c.frame_of(VirtPageNum(0x10)), a.frame_of(VirtPageNum(0x10)));
    assert_eq!(c.frame_of(VirtPageNum(0x11)), a.frame_of(VirtPageNum(0x11)));
}

#[test]
fn identical_area_maps_each_page_to_the_frame_of_its_number() {
    let mut mem = PhysMemory::new(PhysPageNum(0x100), 16);
    let mut pt = PageTable::new(&mut mem);
    let mut a = MapArea::new(VirtAddr(0x8020_0000), VirtAddr(0x8020_3000), MapType::Identical, MapPermission { bits: MAP_R | MAP_X });
    let free = mem.free_frames();
    a.map(&mut pt, &mut mem);
    // two nodes for the walk, no data frame
    assert_eq!(mem.free_frames(), free - 2);
    for v in 0x80200..0x80203u64 {
        let e = pt.translate(&mem, VirtPageNum(v)).unwrap();
        assert_eq!(e.ppn(), PhysPageNum(v));
        assert_eq!(e.flags().bits, PTE_R | PTE_X | PTE_V);
        assert_eq!(a.frame_of(VirtPageNum(v)), None);
    }
    assert!(pt.translate(&mem, VirtPageNum(0x80203)).is_none());
    a.unmap(&mut pt, &mut mem);
    for v in 0x80200..0x80203u64 {
        assert!(pt.translate(&mem, VirtPageNum(v)).is_none());
    }
    assert_eq!(mem.free_frames(), free - 2);
}

#[test]
fn framed_area_maps_each_page_to_a_fresh_zero_frame() {
    let mut mem = PhysMemory::new(PhysPageNum(0x100), 16);
    let mut pt = PageTable::new(&mut mem);
    let mut a = MapArea::new(VirtAddr(0x10000), VirtAddr(0x13000), MapType::Framed, MapPermission { bits: MAP_R | MAP_W | MAP_U });
    let free = mem.free_frames();
    a.map(&mut pt, &mut mem);
    assert_eq!(mem.free_frames(), free - 2 - 3);
    let mut seen = vec![];
    for v in 0x10..0x13u64 {
        let e = pt.translate(&mem, VirtPageNum(v)).unwrap();
        assert_eq!(e.flags().bits, PTE_R | PTE_W | PTE_U | PTE_V);
        assert_eq!(a.frame_of(VirtPageNum(v)), Some(e.ppn()));
        assert!(!seen.contains(&e.ppn()));
        seen.push(e.ppn());
        for off in [0usize, 1, 4095] {
            assert_eq!(mem.read_byte(e.ppn(), off), 0);
        }
    }
    a.unmap(&mut pt, &mut mem);
    assert_eq!(mem.free_frames(), free - 2);
    assert_eq!(a.frame_of(VirtPageNum(0x10)), None);
    assert!(pt.translate(&mem, VirtPageNum(0x10)).is_none());
}

#[test]
fn map_one_and_unmap_one_work_on_one_page() {
    let mut mem = PhysMemory::new(PhysPageNum(0x100), 16);
    let mut pt = PageTable::new(&mut mem);
    let mut a = MapArea::new(VirtAddr(0x10000), VirtAddr(0x13000), MapType::Framed, MapPermission { bits: MAP_R });
    a.map_one(&mut pt, &mut mem, VirtPageNum(0x11));
    assert!(pt.translate(&mem, VirtPageNum(0x10)).is_none());
    let e = pt.translate(&mem, VirtPageNum(0x11)).unwrap();
    assert_eq!(a.frame_of(VirtPageNum(0x11)), Some(e.ppn()));
    let free = mem.free_frames();
    a.unmap_one(&mut pt, &mut mem, VirtPageNum(0x11));
    assert!(pt.translate(&mem, VirtPageNum(0x11)).is_none());
    assert_eq!(a.frame_of(VirtPageNum(0x11)), None);
    assert_eq!(mem.free_frames(), free + 1);
}

#[test]
fn copy_data_fills_the_pages_from_the_first_and_leaves_the_rest() {
    let mut mem = PhysMemory::new(PhysPageNum(0x100), 16);
    let mut pt = PageTable::new(&mut mem);
    let mut a = MapArea::new(VirtAddr(0x10000), VirtAddr(0x13000), MapType::Framed, MapPermission { bits: MAP_R | MAP_W });
    a.map(&mut pt, &mut mem);
    let data: Vec<u8> = (0..5000u32).map(|i| (i % 251) as u8 + 1).collect();
    a.copy_data(&mut pt, &mut mem, &data);
    let p0 = a.frame_of(VirtPageNum(0x10)).unwrap();
    let p1 = a.frame_of(VirtPageNum(0x11)).unwrap();
    let p2 = a.frame_of(VirtPageNum(0x12)).unwrap();
    for off in 0..4096usize {
        assert_eq!(mem.read_byte(p0, off), data[off]);
    }
    for off in 0..4096usize {
        let want = if 4096 + off < 5000 { data[4096 + off] } else { 0 };
        assert_eq!(mem.read_byte(p1, off), want);
    }
    for off in 0..4096usize {
        assert_eq!(mem.read_byte(p2, off), 0);
    }
}

#[test]
fn copy_data_of_a_full_page_stops_at_the_page_end() {
    let mut mem = PhysMemory::new(PhysPageNum(0x100), 16);
    let mut pt = PageTable::new(&mut mem);
    let mut a = MapArea::new(VirtAddr(0x10000), VirtAddr(0x11000), MapType::Framed, MapPermission { bits: MAP_R | MAP_W });
    a.map(&mut pt, &mut mem);
    let data = vec![0x5au8; 4096];
    a.copy_data(&mut pt, &mut mem, &data);
    let p0 = a.frame_of(VirtPageNum(0x10)).unwrap();
    assert_eq!(mem.read_byte(p0, 0), 0x5a);
    assert_eq!(mem.read_byte(p0, 4095), 0x5a);
    a.copy_data(&mut pt, &mut mem, &[]);
    assert_eq!(mem.read_byte(p0, 0), 0x5a);
    a.copy_data(&mut pt, &mut mem, &[1, 2]);
    assert_eq!(mem.read_byte(p0, 0), 1);
    assert_eq!(mem.read_byte(p0, 1), 2);
    assert_eq!(mem.read_byte(p0, 2), 0x5a);
}

#[test]
fn release_gives_the_frames_back_and_leaves_the_table() {
    let mut mem = PhysMemory::new(PhysPageNum(0x100), 16);
    let mut pt = PageTable::new(&mut mem);
    let mut a = MapArea::new(VirtAddr(0x10000), VirtAddr(0x12000), MapType::Framed, MapPermission { bits: MAP_R | MAP_W });
    a.map(&mut pt, &mut mem);
    let free = mem.free_frames();
    a.release(&mut mem);
    assert_eq!(mem.free_frames(), free + 2);
    assert!(pt.translate(&mem, VirtPageNum(0x10)).is_some());
}
