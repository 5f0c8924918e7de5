use kernel_mm::syscall::{
    chdir_base, sys_chdir, sys_close, sys_dup, sys_ls, sys_open, sys_pipe, sys_read, sys_write,
    OpenFile, TaskFiles, Transfer,
};

fn file(handle: usize, readable: bool, writable: bool) -> OpenFile {
    OpenFile { handle, readable, writable }
}

fn task() -> TaskFiles {
    TaskFiles {
        fd_table: vec![
            Some(file(10, true, false)),
            Some(file(11, false, true)),
            None,
            Some(file(13, true, true)),
        ],
        current_inode: 7,
    }
}

#[test]
fn write_needs_an_open_writable_file() {
    let t = task();
    assert_eq!(sys_write(&t, 0, 0x1000, 5), Transfer::Done(-1));
    assert_eq!(sys_write(&t, 1, 0x1000, 5), Transfer::Pending { file: file(11, false, true), buf: 0x1000, len: 5 });
    assert_eq!(sys_write(&t, 2, 0x1000, 5), Transfer::Done(-1));
    assert_eq!(sys_write(&t, 3, 0, 0), Transfer::Pending { file: file(13, true, true), buf: 0, len: 0 });
    assert_eq!(sys_write(&t, 4, 0x1000, 5), Transfer::Done(-1));
    assert_eq!(sys_write(&t, usize::MAX, 0x1000, 5), Transfer::Done(-1));
}

#[test]
fn read_needs_an_open_readable_file() {
    let t = task();
    assert_eq!(sys_read(&t, 0, 0x2000, 9), Transfer::Pending { file: file(10, true, false), buf: 0x2000, len: 9 });
    assert_eq!(sys_read(&t, 1, 0x2000, 9), Transfer::Done(-1));
    assert_eq!(sys_read(&t, 2, 0x2000, 9), Transfer::Done(-1));
    assert_eq!(sys_read(&t, 3, 0x2000, 9), Transfer::Pending { file: file(13, true, true), buf: 0x2000, len: 9 });
    assert_eq!(sys_read(&t, 4, 0x2000, 9), Transfer::Done(-1));
}

#[test]
fn close_frees_the_slot() {
    let mut t = task();
    assert_eq!(sys_close(&mut t, 4), -1);
    assert_eq!(sys_close(&mut t, 2), -1);
    assert_eq!(t.fd_table.len(), 4);
    assert_eq!(sys_close(&mut t, 1), 0);
    assert_eq!(t.fd_table[1], None);
    assert_eq!(t.fd_table[0], Some(file(10, true, false)));
    assert_eq!(sys_close(&mut t, 1), -1);
    assert_eq!(t.current_inode, 7);
}

#[test]
fn open_and_dup_take_the_lowest_free_descriptor() {
    let mut t = task();
    assert_eq!(sys_dup(&mut t, 2), -1);
    assert_eq!(sys_dup(&mut t, 9), -1);
    assert_eq!(sys_dup(&mut t, 3), 2);
    assert_eq!(t.fd_table[2], Some(file(13, true, true)));
    assert_eq!(sys_dup(&mut t, 0), 4);
    assert_eq!(t.fd_table.len(), 5);
    assert_eq!(t.fd_table[4], Some(file(10, true, false)));
    assert_eq!(sys_open(&mut t, None), -1);
    assert_eq!(t.fd_table.len(), 5);
    assert_eq!(sys_close(&mut t, 0), 0);
    assert_eq!(sys_open(&mut t, Some(file(20, true, true))), 0);
    assert_eq!(t.fd_table[0], Some(file(20, true, true)));
    assert_eq!(sys_open(&mut t, Some(file(21, true, false))), 5);
    let mut e = TaskFiles::new(3);
    assert_eq!(e.fd_table.len(), 0);
    assert_eq!(e.current_inode, 3);
    assert_eq!(e.alloc_fd(), 0);
    assert_eq!(e.fd_table, vec![None]);
    assert_eq!(e.alloc_fd(), 0);
    assert_eq!(e.fd_table, vec![None]);
}

#[test]
fn pipe_takes_two_descriptors() {
    let mut t = task();
    let r = file(30, true, false);
    let w = file(31, false, true);
    assert_eq!(sys_pipe(&mut t, r, w), (2, 4));
    assert_eq!(t.fd_table[2], Some(r));
    assert_eq!(t.fd_table[4], Some(w));
    assert_eq!(t.fd_table.len(), 5);
    let mut e = TaskFiles::new(0);
    assert_eq!(sys_pipe(&mut e, r, w), (0, 1));
    assert_eq!(e.fd_table, vec![Some(r), Some(w)]);
}

#[test]
fn chdir_starts_at_the_root_for_an_absolute_path() {
    let mut t = task();
    assert_eq!(chdir_base(&t, b"/bin"), 0);
    assert_eq!(chdir_base(&t, b"bin"), 7);
    assert_eq!(chdir_base(&t, b"./x/"), 7);
    assert_eq!(chdir_base(&t, b"/"), 0);
    assert_eq!(sys_chdir(&mut t, -1), -1);
    assert_eq!(t.current_inode, 7);
    assert_eq!(sys_chdir(&mut t, 12), 12);
    assert_eq!(t.current_inode, 12);
    assert_eq!(sys_chdir(&mut t, 0), 0);
    assert_eq!(t.current_inode, 0);
    assert_eq!(sys_chdir(&mut t, 0x1_0000_0005), 0x1_0000_0005);
    assert_eq!(t.current_inode, 5);
    assert_eq!(t.fd_table.len(), 4);
}

#[test]
fn ls_lists_the_working_directory() {
    let t = task();
    assert_eq!(sys_ls(&t), (7, 0));
}
