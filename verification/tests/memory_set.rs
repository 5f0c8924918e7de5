use kernel_mm::address::{PhysAddr, PhysPageNum, VirtAddr, VirtPageNum};
use kernel_mm::config::{MEMORY_END, MMIO, PAGE_SIZE, TRAMPOLINE, TRAP_CONTEXT, USER_HEAP_SIZE, USER_STACK_SIZE};
use kernel_mm::elf::{ElfHeaders, ProgramHeader};
use kernel_mm::frame::PhysMemory;
use kernel_mm::map_area::{MapPermission, MapType, MAP_R, MAP_U, MAP_W, MAP_X};
use kernel_mm::memory_set::{KernelLayout, MemorySet, TRAMPOLINE_VPN};
use kernel_mm::pte::{PTEFlags, PTE_COW, PTE_R, PTE_U, PTE_V, PTE_W, PTE_X};

const STRAMPOLINE: u64 = 0x8020_1000;

fn layout() -> KernelLayout {
    KernelLayout {
        stext: 0x8020_0000,
        etext: 0x8020_3000,
        srodata: 0x8020_3000,
        erodata: 0x8020_5000,
        sdata: 0x8020_5000,
        edata: 0x8020_7000,
        sbss_with_stack: 0x8020_7000,
        ebss: 0x8020_9000,
        ekernel: 0x8020_9000,
        strampoline: STRAMPOLINE,
    }
}

fn flags_at(ms: &MemorySet, mem: &PhysMemory, va: u64) -> u16 {
    ms.translate(mem, VirtAddr::new(va).floor()).unwrap().flags().bits
}

fn ppn_at(ms: &MemorySet, mem: &PhysMemory, va: u64) -> PhysPageNum {
    ms.translate(mem, VirtAddr::new(va).floor()).unwrap().ppn()
}

fn read(ms: &MemorySet, mem: &PhysMemory, va: u64) -> u8 {
    mem.read_byte(ppn_at(ms, mem, va), (va % 4096) as usize)
}

fn write(ms: &MemorySet, mem: &mut PhysMemory, va: u64, b: u8) {
    let ppn = ppn_at(ms, mem, va);
    mem.write_byte(ppn, (va % 4096) as usize, b);
}

fn image() -> Vec<u8> {
    let mut v = vec![0u8; 0x7c];
    v[0] = 0x7f;
    v[1] = b'E';
    v[2] = b'L';
    v[3] = b'F';
    v[0x78] = 0xde;
    v[0x79] = 0xad;
    v[0x7a] = 0xbe;
    v[0x7b] = 0xef;
    v
}

fn headers() -> ElfHeaders {
    ElfHeaders {
        entry_point: 0x10000,
        program_headers: vec![
            ProgramHeader { is_load: false, virtual_addr: 0, mem_size: 0, offset: 0, file_size: 0, flags: 4 },
            ProgramHeader { is_load: true, virtual_addr: 0x10000, mem_size: 0x2000, offset: 0x78, file_size: 4, flags: 5 },
        ],
    }
}

fn program(mem: &mut PhysMemory) -> (MemorySet, u64, u64, u64) {
    MemorySet::from_elf(mem, PhysAddr(STRAMPOLINE), &image(), &headers())
}

#[test]
fn boot_kernel_map() {
    let l = layout();
    let mut mem = PhysMemory::new(PhysPageNum(0x80209), 0x5f7);
    let free = mem.free_frames();
    let ks = MemorySet::new_kernel(&mut mem, &l);
    let mid_text = (l.stext + l.etext) / 2;
    let mid_rodata = (l.srodata + l.erodata) / 2;
    let mid_data = (l.sdata + l.edata) / 2;
    let mid_bss = (l.sbss_with_stack + l.ebss) / 2;
    assert_eq!(flags_at(&ks, &mem, mid_text), PTE_R | PTE_X | PTE_V);
    assert_eq!(flags_at(&ks, &mem, mid_rodata), PTE_R | PTE_V);
    assert_eq!(flags_at(&ks, &mem, mid_data), PTE_R | PTE_W | PTE_V);
    assert_eq!(flags_at(&ks, &mem, mid_bss), PTE_R | PTE_W | PTE_V);
    assert_eq!(flags_at(&ks, &mem, MEMORY_END - 1), PTE_R | PTE_W | PTE_V);
    assert!(!ks.translate(&mem, VirtAddr(mid_text).floor()).unwrap().writable());
    assert!(!ks.translate(&mem, VirtAddr(mid_rodata).floor()).unwrap().writable());
    assert!(!ks.translate(&mem, VirtAddr(mid_rodata).floor()).unwrap().executable());
    assert!(!ks.translate(&mem, VirtAddr(mid_data).floor()).unwrap().executable());
    // identity
    for va in [l.stext, mid_text, mid_rodata, mid_data, l.ekernel, MEMORY_END - 1] {
        assert_eq!(ppn_at(&ks, &mem, va), PhysPageNum(va / 4096));
    }
    // the memory-mapped windows
    for (base, len) in MMIO {
        assert_eq!(flags_at(&ks, &mem, base), PTE_R | PTE_W | PTE_V);
        assert_eq!(flags_at(&ks, &mem, base + len - 1), PTE_R | PTE_W | PTE_V);
        assert_eq!(ppn_at(&ks, &mem, base), PhysPageNum(base / 4096));
    }
    // the trampoline, supervisor only
    let t = ks.translate(&mem, VirtPageNum(TRAMPOLINE_VPN)).unwrap();
    assert_eq!(t.ppn(), PhysPageNum(STRAMPOLINE / 4096));
    assert_eq!(t.flags().bits, PTE_R | PTE_X | PTE_V);
    // nothing else
    assert!(ks.translate(&mem, VirtAddr(MEMORY_END).floor()).is_none());
    assert!(ks.translate(&mem, VirtAddr(l.stext - 1).floor()).is_none());
    assert!(ks.translate(&mem, VirtPageNum(TRAMPOLINE_VPN - 1)).is_none());
    assert_eq!(ks.area_count(), 5 + MMIO.len());
    // the root, two nodes for the trampoline, four for the kernel, two for the window
    assert_eq!(mem.free_frames(), free - 9);
    assert_eq!(ks.token(), (8u64 << 60) | 0x80209);
    let areas = ks.clone_areas();
    assert_eq!(areas[0].get_start(), VirtPageNum(0x80200));
    assert_eq!(areas[0].get_end(), VirtPageNum(0x80203));
    assert_eq!(areas[0].get_type(), MapType::Identical);
    assert_eq!(areas[0].get_perm(), MapPermission { bits: MAP_R | MAP_X });
    assert_eq!(areas[4].get_start(), VirtPageNum(0x80209));
    assert_eq!(areas[4].get_end(), VirtPageNum(0x80800));
    assert_eq!(areas[5].get_start(), VirtPageNum(0x10001));
    assert_eq!(areas[5].get_end(), VirtPageNum(0x10002));
    ks.release(&mut mem);
    assert_eq!(mem.free_frames(), free);
}

#[test]
fn elf_load() {
    let mut mem = PhysMemory::new(PhysPageNum(0x80209), 64);
    let free = mem.free_frames();
    let (ms, user_sp, heap_bottom, entry) = program(&mut mem);
    assert_eq!(entry, 0x10000);
    assert_eq!(user_sp, TRAP_CONTEXT - PAGE_SIZE);
    assert_eq!(user_sp, 0xffff_ffff_ffff_d000);
    assert_eq!(heap_bottom, 0x13000);
    assert_eq!(read(&ms, &mem, 0x10000), 0xde);
    assert_eq!(read(&ms, &mem, 0x10001), 0xad);
    assert_eq!(read(&ms, &mem, 0x10002), 0xbe);
    assert_eq!(read(&ms, &mem, 0x10003), 0xef);
    assert_eq!(read(&ms, &mem, 0x10004), 0);
    assert_eq!(read(&ms, &mem, 0x10010), 0);
    assert_eq!(read(&ms, &mem, 0x11fff), 0);
    // the segment: read and execute, for the user
    assert_eq!(flags_at(&ms, &mem, 0x10000), PTE_R | PTE_X | PTE_U | PTE_V);
    assert_eq!(flags_at(&ms, &mem, 0x11000), PTE_R | PTE_X | PTE_U | PTE_V);
    // the guard page, then the heap
    assert!(ms.translate(&mem, VirtPageNum(0x12)).is_none());
    assert_eq!(flags_at(&ms, &mem, heap_bottom), PTE_R | PTE_W | PTE_U | PTE_V);
    assert_eq!(flags_at(&ms, &mem, heap_bottom + USER_HEAP_SIZE - 1), PTE_R | PTE_W | PTE_U | PTE_V);
    assert!(ms.translate(&mem, VirtAddr(heap_bottom + USER_HEAP_SIZE).floor()).is_none());
    // the trap context, for the kernel only
    assert_eq!(flags_at(&ms, &mem, TRAP_CONTEXT), PTE_R | PTE_W | PTE_V);
    // the guard page, then the stack
    assert!(ms.translate(&mem, VirtAddr::new(TRAP_CONTEXT - PAGE_SIZE).floor()).is_none());
    assert_eq!(flags_at(&ms, &mem, user_sp - 1), PTE_R | PTE_W | PTE_U | PTE_V);
    assert_eq!(flags_at(&ms, &mem, user_sp - USER_STACK_SIZE), PTE_R | PTE_W | PTE_U | PTE_V);
    assert!(ms.translate(&mem, VirtAddr::new(user_sp - USER_STACK_SIZE - 1).floor()).is_none());
    // the trampoline
    assert_eq!(flags_at(&ms, &mem, TRAMPOLINE), PTE_R | PTE_X | PTE_V);
    assert_eq!(ppn_at(&ms, &mem, TRAMPOLINE), PhysPageNum(STRAMPOLINE / 4096));
    assert_eq!(ms.area_count(), 4);
    // 2 + 8 + 1 + 2 pages, the root and four nodes
    assert_eq!(mem.free_frames(), free - 13 - 5);
    ms.release(&mut mem);
    assert_eq!(mem.free_frames(), free);
}

#[test]
fn segment_flags_become_permissions() {
    for (flags, want) in [
        (0u32, PTE_U),
        (1, PTE_U | PTE_X),
        (2, PTE_U | PTE_W),
        (4, PTE_U | PTE_R),
        (6, PTE_U | PTE_R | PTE_W),
        (7, PTE_U | PTE_R | PTE_W | PTE_X),
        (0xf000_0004, PTE_U | PTE_R),
    ] {
        let h = ProgramHeader { is_load: true, virtual_addr: 0x10000, mem_size: 0x1000, offset: 0, file_size: 0, flags };
        assert_eq!(h.map_perm().bits as u16, want);
        let mut mem = PhysMemory::new(PhysPageNum(0x80209), 64);
        let hs = ElfHeaders { entry_point: 0, program_headers: vec![h] };
        let (ms, _, _, _) = MemorySet::from_elf(&mut mem, PhysAddr(STRAMPOLINE), &image(), &hs);
        assert_eq!(flags_at(&ms, &mem, 0x10000), want | PTE_V);
    }
}

#[test]
fn heap_starts_behind_the_highest_segment() {
    let hs = ElfHeaders {
        entry_point: 0x20000,
        program_headers: vec![
            ProgramHeader { is_load: true, virtual_addr: 0x20000, mem_size: 0x1800, offset: 0x78, file_size: 4, flags: 5 },
            ProgramHeader { is_load: true, virtual_addr: 0x10000, mem_size: 0x1000, offset: 0, file_size: 4, flags: 6 },
        ],
    };
    let mut mem = PhysMemory::new(PhysPageNum(0x80209), 64);
    let (ms, _, heap_bottom, entry) = MemorySet::from_elf(&mut mem, PhysAddr(STRAMPOLINE), &image(), &hs);
    assert_eq!(entry, 0x20000);
    assert_eq!(heap_bottom, 0x23000);
    assert_eq!(read(&ms, &mem, 0x20000), 0xde);
    assert_eq!(read(&ms, &mem, 0x10000), 0x7f);
    assert_eq!(read(&ms, &mem, 0x10001), b'E');
    assert_eq!(read(&ms, &mem, 0x10004), 0);
    assert_eq!(ms.area_count(), 5);
}

#[test]
fn full_copy_fork() {
    let mut mem = PhysMemory::new(PhysPageNum(0x80209), 128);
    let (parent, _, heap_bottom, _) = program(&mut mem);
    write(&parent, &mut mem, heap_bottom + 8, 0xab);
    let free = mem.free_frames();
    let child = MemorySet::from_existed_user(&mut mem, PhysAddr(STRAMPOLINE), &parent);
    assert_eq!(mem.free_frames(), free - 13 - 5);
    write(&parent, &mut mem, heap_bottom + 8, 0xcd);
    assert_eq!(read(&child, &mem, heap_bottom + 8), 0xab);
    assert_eq!(read(&parent, &mem, heap_bottom + 8), 0xcd);
    assert_eq!(read(&child, &mem, 0x10000), 0xde);
    assert_eq!(read(&child, &mem, 0x10003), 0xef);
    assert_ne!(ppn_at(&child, &mem, 0x10000), ppn_at(&parent, &mem, 0x10000));
    assert_ne!(ppn_at(&child, &mem, heap_bottom), ppn_at(&parent, &mem, heap_bottom));
    assert_eq!(flags_at(&child, &mem, 0x10000), PTE_R | PTE_X | PTE_U | PTE_V);
    assert_eq!(flags_at(&child, &mem, heap_bottom), PTE_R | PTE_W | PTE_U | PTE_V);
    assert_eq!(flags_at(&child, &mem, TRAP_CONTEXT), PTE_R | PTE_W | PTE_V);
    assert_eq!(flags_at(&child, &mem, TRAMPOLINE), PTE_R | PTE_X | PTE_V);
    assert_eq!(child.area_count(), parent.area_count());
    let pa = parent.clone_areas();
    let ca = child.clone_areas();
    for i in 0..pa.len() {
        assert_eq!(ca[i].get_start(), pa[i].get_start());
        assert_eq!(ca[i].get_end(), pa[i].get_end());
        assert_eq!(ca[i].get_perm(), pa[i].get_perm());
        assert_eq!(ca[i].get_type(), pa[i].get_type());
    }
    child.release(&mut mem);
    assert_eq!(mem.free_frames(), free);
    assert_eq!(read(&parent, &mem, heap_bottom + 8), 0xcd);
}

#[test]
fn cow_fork_read_only_child() {
    let mut mem = PhysMemory::new(PhysPageNum(0x80209), 128);
    let (mut parent, user_sp, heap_bottom, _) = program(&mut mem);
    write(&parent, &mut mem, heap_bottom + 8, 0x11);
    write(&parent, &mut mem, user_sp - 8, 0x77);
    let free = mem.free_frames();
    let heap_top = heap_bottom + PAGE_SIZE;
    let child = MemorySet::from_copy_on_write(&mut mem, PhysAddr(STRAMPOLINE), &mut parent, heap_top);
    // the stack and the trap context are copied: 3 frames; the root and four nodes
    assert_eq!(mem.free_frames(), free - 3 - 5);
    // below the heap top: shared
    for va in [0x10000u64, 0x11000, heap_bottom, heap_bottom + USER_HEAP_SIZE - 1] {
        let p = parent.translate(&mem, VirtAddr(va).floor()).unwrap();
        let c = child.translate(&mem, VirtAddr(va).floor()).unwrap();
        assert_eq!(p, c);
        assert!(p.is_cow());
        assert!(!p.writable());
        assert!(c.is_cow());
        assert!(!c.writable());
    }
    assert_eq!(flags_at(&child, &mem, 0x10000), PTE_R | PTE_X | PTE_U | PTE_V | PTE_COW);
    assert_eq!(flags_at(&child, &mem, heap_bottom), PTE_R | PTE_U | PTE_V | PTE_COW);
    assert_eq!(read(&child, &mem, 0x10000), 0xde);
    assert_eq!(read(&child, &mem, heap_bottom + 8), 0x11);
    assert_eq!(read(&parent, &mem, heap_bottom + 8), 0x11);
    // at or above the heap top: copied
    assert_ne!(ppn_at(&child, &mem, user_sp - 8), ppn_at(&parent, &mem, user_sp - 8));
    assert_ne!(ppn_at(&child, &mem, TRAP_CONTEXT), ppn_at(&parent, &mem, TRAP_CONTEXT));
    assert_eq!(read(&child, &mem, user_sp - 8), 0x77);
    assert_eq!(flags_at(&child, &mem, user_sp - 8), PTE_R | PTE_W | PTE_U | PTE_V);
    assert_eq!(flags_at(&parent, &mem, user_sp - 8), PTE_R | PTE_W | PTE_U | PTE_V);
    assert_eq!(flags_at(&child, &mem, TRAP_CONTEXT), PTE_R | PTE_W | PTE_V);
    // the copied regions come first in the child
    let ca = child.clone_areas();
    assert_eq!(ca.len(), 4);
    assert_eq!(ca[0].get_start(), VirtPageNum(TRAMPOLINE_VPN - 1));
    assert_eq!(ca[1].get_start(), VirtPageNum(TRAMPOLINE_VPN - 4));
    assert_eq!(ca[2].get_start(), VirtPageNum(0x10));
    assert_eq!(ca[3].get_start(), VirtPageNum(0x13));
    assert_eq!(ca[2].frame_of(VirtPageNum(0x10)), None);
    assert!(ca[0].frame_of(VirtPageNum(TRAMPOLINE_VPN - 1)).is_some());
    // the parent keeps its frames
    let pa = parent.clone_areas();
    assert_eq!(pa[0].frame_of(VirtPageNum(0x10)), Some(ppn_at(&parent, &mem, 0x10000)));
    child.release(&mut mem);
    assert_eq!(mem.free_frames(), free);
    assert_eq!(read(&parent, &mem, 0x10000), 0xde);
}

#[test]
fn cow_fork_write_triggers_copy() {
    let mut mem = PhysMemory::new(PhysPageNum(0x80209), 128);
    let (mut parent, _, heap_bottom, _) = program(&mut mem);
    write(&parent, &mut mem, heap_bottom + 8, 0x11);
    let heap_top = heap_bottom + PAGE_SIZE;
    let mut child = MemorySet::from_copy_on_write(&mut mem, PhysAddr(STRAMPOLINE), &mut parent, heap_top);
    let vpn = VirtAddr(heap_bottom).floor();
    let former = child.translate(&mem, vpn).unwrap().ppn();
    let parent_before = parent.translate(&mem, vpn).unwrap();
    let free = mem.free_frames();
    assert_eq!(child.cow_alloc(&mut mem, vpn, former), 0);
    assert_eq!(mem.free_frames(), free - 1);
    let c = child.translate(&mem, vpn).unwrap();
    assert!(c.writable());
    assert!(!c.is_cow());
    assert_eq!(c.flags().bits, PTE_R | PTE_W | PTE_U | PTE_V);
    assert_ne!(c.ppn(), former);
    assert_eq!(parent.translate(&mem, vpn).unwrap(), parent_before);
    assert_eq!(parent_before.ppn(), former);
    // the fresh frame holds what the former held
    assert_eq!(read(&child, &mem, heap_bottom + 8), 0x11);
    write(&child, &mut mem, heap_bottom + 8, 0x22);
    assert_eq!(read(&child, &mem, heap_bottom + 8), 0x22);
    assert_eq!(read(&parent, &mem, heap_bottom + 8), 0x11);
    // the region of the page owns the fresh frame
    let ca = child.clone_areas();
    assert_eq!(ca[3].frame_of(vpn), Some(c.ppn()));
    // the other pages of the region are still shared
    let next = VirtPageNum(vpn.0 + 1);
    assert_eq!(child.translate(&mem, next), parent.translate(&mem, next));
    // the parent faults too: it gets a frame of its own and keeps the former
    assert_eq!(parent.cow_alloc(&mut mem, vpn, former), 0);
    assert_eq!(mem.free_frames(), free - 2);
    let p = parent.translate(&mem, vpn).unwrap();
    assert!(p.writable());
    assert!(!p.is_cow());
    assert_ne!(p.ppn(), former);
    assert_ne!(p.ppn(), c.ppn());
    assert_eq!(read(&parent, &mem, heap_bottom + 8), 0x11);
    assert_eq!(mem.read_byte(former, 8), 0x11);
    let total = mem.frame_count();
    child.release(&mut mem);
    parent.release(&mut mem);
    assert_eq!(mem.free_frames(), total);
}

#[test]
fn area_removal() {
    let mut mem = PhysMemory::new(PhysPageNum(0x80209), 64);
    let mut ms = MemorySet::new_bare(&mut mem);
    let a = VirtAddr(0x40_0000);
    let b = VirtAddr(0x40_3000);
    ms.insert_framed_area(&mut mem, a, b, MapPermission { bits: MAP_R | MAP_W | MAP_U });
    ms.insert_framed_area(&mut mem, VirtAddr(0x50_0000), VirtAddr(0x50_1000), MapPermission { bits: MAP_R });
    let free = mem.free_frames();
    assert_eq!(flags_at(&ms, &mem, a.0), PTE_R | PTE_W | PTE_U | PTE_V);
    assert_eq!(ms.area_count(), 2);
    // no region starts there
    ms.remove_area_with_start_vpn(&mut mem, VirtPageNum(a.floor().0 + 1));
    assert_eq!(ms.area_count(), 2);
    assert_eq!(mem.free_frames(), free);
    ms.remove_area_with_start_vpn(&mut mem, a.floor());
    assert_eq!(ms.area_count(), 1);
    assert!(ms.translate(&mem, a.floor()).is_none());
    assert!(ms.translate(&mem, VirtPageNum(a.floor().0 + 2)).is_none());
    assert_eq!(mem.free_frames(), free + 3);
    assert!(ms.translate(&mem, VirtPageNum(0x500)).is_some());
    assert_eq!(ms.clone_areas()[0].get_start(), VirtPageNum(0x500));
    // the range can be mapped again
    ms.insert_mmap_area(&mut mem, a, b, MapPermission { bits: MAP_R | MAP_X });
    assert_eq!(flags_at(&ms, &mem, a.0), PTE_R | PTE_X | PTE_V);
    assert_eq!(mem.free_frames(), free);
}

#[test]
fn frames_are_conserved() {
    let mut mem = PhysMemory::new(PhysPageNum(0x80209), 64);
    let before = mem.free_frames();
    let mut ms = MemorySet::new_bare(&mut mem);
    assert_eq!(mem.free_frames(), before - 1);
    ms.insert_framed_area(&mut mem, VirtAddr(0x1000), VirtAddr(0x5000), MapPermission { bits: MAP_R | MAP_W });
    // four pages and two nodes
    assert_eq!(mem.free_frames(), before - 1 - 6);
    ms.insert_framed_area(&mut mem, VirtAddr(0x20_0000), VirtAddr(0x20_1000), MapPermission { bits: MAP_R });
    // one page and one more level-0 node
    assert_eq!(mem.free_frames(), before - 1 - 6 - 2);
    ms.release(&mut mem);
    assert_eq!(mem.free_frames(), before);
}

#[test]
fn recycle_frees_the_data_and_keeps_the_table() {
    let mut mem = PhysMemory::new(PhysPageNum(0x80209), 64);
    let (mut ms, _, _, _) = program(&mut mem);
    let free = mem.free_frames();
    let token = ms.token();
    ms.recycle_data_pages(&mut mem);
    assert_eq!(ms.area_count(), 0);
    assert_eq!(mem.free_frames(), free + 13);
    assert_eq!(ms.token(), token);
    assert_eq!(flags_at(&ms, &mem, TRAMPOLINE), PTE_R | PTE_X | PTE_V);
    ms.release(&mut mem);
    assert_eq!(mem.free_frames(), free + 13 + 5);
}

#[test]
fn flag_setters_of_the_address_space() {
    let mut mem = PhysMemory::new(PhysPageNum(0x80209), 64);
    let mut ms = MemorySet::new_bare(&mut mem);
    ms.insert_framed_area(&mut mem, VirtAddr(0x1000), VirtAddr(0x2000), MapPermission { bits: MAP_R | MAP_W | MAP_X });
    let vpn = VirtPageNum(1);
    let ppn = ms.translate(&mem, vpn).unwrap().ppn();
    ms.set_cow(&mut mem, vpn);
    assert_eq!(flags_at(&ms, &mem, 0x1000), PTE_R | PTE_W | PTE_X | PTE_V | PTE_COW);
    ms.reset_cow(&mut mem, vpn);
    assert_eq!(flags_at(&ms, &mem, 0x1000), PTE_R | PTE_W | PTE_X | PTE_V);
    ms.set_flags(&mut mem, vpn, PTEFlags { bits: PTE_R });
    assert_eq!(flags_at(&ms, &mem, 0x1000), PTE_R | PTE_V);
    assert_eq!(ms.translate(&mem, vpn).unwrap().ppn(), ppn);
    assert_eq!(MAP_X as u16, PTE_X);
}

#[test]
fn loadable_segments() {
    let h = |virtual_addr: u64, mem_size: u64, offset: u64, file_size: u64| ProgramHeader {
        is_load: true,
        virtual_addr,
        mem_size,
        offset,
        file_size,
        flags: 5,
    };
    assert!(h(0x10000, 0x2000, 0x78, 4).is_loadable(0x7c));
    // the bytes end behind the image
    assert!(!h(0x10000, 0x2000, 0x79, 4).is_loadable(0x7c));
    assert!(!h(0x10000, 0x2000, u64::MAX, 4).is_loadable(0x7c));
    // no page
    assert!(!h(0x10000, 0, 0, 0).is_loadable(0x7c));
    assert!(h(0x10001, 0, 0, 0).is_loadable(0x7c));
    // outside the address space
    assert!(!h(0x7f_ffff_f000, 0x1000, 0, 0).is_loadable(0x7c));
    assert!(h(0x7f_ffff_e000, 0xfff, 0, 0).is_loadable(0x7c));
    assert!(!h(u64::MAX, 2, 0, 0).is_loadable(0x7c));
    // more bytes than the pages hold
    assert!(h(0x10000, 1, 0, 4096).is_loadable(0x2000));
    assert!(!h(0x10000, 1, 0, 4097).is_loadable(0x2000));
}

#[test]
fn regions_share_no_frame() {
    let mut mem = PhysMemory::new(PhysPageNum(0x80209), 64);
    let (ms, _, _, _) = program(&mut mem);
    let areas = ms.clone_areas();
    let mut seen: Vec<PhysPageNum> = vec![];
    for a in areas.iter() {
        assert_eq!(a.get_type(), MapType::Framed);
        for v in a.get_start().0..a.get_end().0 {
            let ppn = a.frame_of(VirtPageNum(v)).unwrap();
            assert_eq!(ms.translate(&mem, VirtPageNum(v)).unwrap().ppn(), ppn);
            assert!(!seen.contains(&ppn));
            seen.push(ppn);
        }
    }
    assert_eq!(seen.len(), 13);
    for (i, a) in areas.iter().enumerate() {
        for b in areas.iter().skip(i + 1) {
            assert!(a.get_end().0 <= b.get_start().0 || b.get_end().0 <= a.get_start().0);
        }
    }
}

#[test]
fn full_copy_copies_every_page() {
    let mut mem = PhysMemory::new(PhysPageNum(0x80209), 128);
    let (parent, user_sp, heap_bottom, _) = program(&mut mem);
    for (i, va) in [0x10fffu64, 0x11000, heap_bottom, heap_bottom + 0x7fff, user_sp - 1, user_sp - 0x2000]
        .iter()
        .enumerate()
    {
        write(&parent, &mut mem, *va, 0x40 + i as u8);
    }
    write(&parent, &mut mem, VirtAddr::new(TRAP_CONTEXT).0 + 5, 0x99);
    let child = MemorySet::from_existed_user(&mut mem, PhysAddr(STRAMPOLINE), &parent);
    for (i, va) in [0x10fffu64, 0x11000, heap_bottom, heap_bottom + 0x7fff, user_sp - 1, user_sp - 0x2000]
        .iter()
        .enumerate()
    {
        assert_eq!(read(&child, &mem, *va), 0x40 + i as u8);
    }
    assert_eq!(read(&child, &mem, VirtAddr::new(TRAP_CONTEXT).0 + 5), 0x99);
    assert_eq!(read(&child, &mem, 0x10000), 0xde);
    assert_eq!(read(&child, &mem, 0x10ffe), 0);
}
