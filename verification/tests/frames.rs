use kernel_mm::address::PhysPageNum;
use kernel_mm::frame::{FrameTracker, PhysMemory};

#[test]
fn new_memory_has_every_frame_free_and_zero() {
    let mem = PhysMemory::new(PhysPageNum(0x100), 4);
    assert_eq!(mem.base_ppn(), PhysPageNum(0x100));
    assert_eq!(mem.frame_count(), 4);
    assert_eq!(mem.free_frames(), 4);
    assert!(mem.is_managed(PhysPageNum(0x100)));
    assert!(mem.is_managed(PhysPageNum(0x103)));
    assert!(!mem.is_managed(PhysPageNum(0x104)));
    assert!(!mem.is_managed(PhysPageNum(0xff)));
    for i in 0..512 {
        assert_eq!(mem.read_word(PhysPageNum(0x102), i), 0);
    }
}

#[test]
fn frames_come_in_rising_order_and_run_out() {
    let mut mem = PhysMemory::new(PhysPageNum(0x100), 3);
    assert_eq!(mem.frame_alloc(), Some(FrameTracker { ppn: PhysPageNum(0x100) }));
    assert_eq!(mem.frame_alloc(), Some(FrameTracker { ppn: PhysPageNum(0x101) }));
    assert_eq!(mem.free_frames(), 1);
    assert_eq!(mem.frame_alloc(), Some(FrameTracker { ppn: PhysPageNum(0x102) }));
    assert_eq!(mem.free_frames(), 0);
    assert_eq!(mem.frame_alloc(), None);
    assert_eq!(mem.free_frames(), 0);
}

#[test]
fn a_frame_given_back_is_handed_out_again_zeroed() {
    let mut mem = PhysMemory::new(PhysPageNum(0x100), 3);
    let a = mem.frame_alloc().unwrap();
    let b = mem.frame_alloc().unwrap();
    mem.write_word(a.ppn, 7, 0xdead_beef);
    mem.write_byte(b.ppn, 9, 0x5a);
    mem.frame_dealloc(a);
    assert_eq!(mem.free_frames(), 2);
    // what is in the frame stays until it is handed out again
    assert_eq!(mem.read_word(a.ppn, 7), 0xdead_beef);
    let c = mem.frame_alloc().unwrap();
    assert_eq!(c.ppn, a.ppn);
    assert_eq!(mem.read_word(c.ppn, 7), 0);
    assert_eq!(mem.read_byte(b.ppn, 9), 0x5a);
    assert_eq!(mem.free_frames(), 1);
}

#[test]
fn bytes_are_the_little_endian_bytes_of_the_words() {
    let mut mem = PhysMemory::new(PhysPageNum(0), 2);
    let p = PhysPageNum(1);
    mem.write_word(p, 0, 0x0807_0605_0403_0201);
    for k in 0..8 {
        assert_eq!(mem.read_byte(p, k), (k + 1) as u8);
    }
    mem.write_byte(p, 3, 0xaa);
    assert_eq!(mem.read_word(p, 0), 0x0807_0605_aa03_0201);
    mem.write_byte(p, 4095, 0xff);
    assert_eq!(mem.read_word(p, 511), 0xff00_0000_0000_0000);
    assert_eq!(mem.read_byte(p, 4095), 0xff);
    assert_eq!(mem.read_byte(p, 4094), 0);
    // the other frame is untouched
    assert_eq!(mem.read_word(PhysPageNum(0), 0), 0);
}

#[test]
fn copy_frame_copies_every_word() {
    let mut mem = PhysMemory::new(PhysPageNum(0x10), 3);
    let src = PhysPageNum(0x10);
    let dst = PhysPageNum(0x12);
    for i in 0..512 {
        mem.write_word(src, i, 0x1000 + i as u64);
    }
    mem.write_word(dst, 5, 99);
    mem.copy_frame(dst, src);
    for i in 0..512 {
        assert_eq!(mem.read_word(dst, i), 0x1000 + i as u64);
        assert_eq!(mem.read_word(src, i), 0x1000 + i as u64);
    }
    assert_eq!(mem.read_word(PhysPageNum(0x11), 5), 0);
    mem.copy_frame(src, src);
    assert_eq!(mem.read_word(src, 511), 0x1000 + 511);
}
