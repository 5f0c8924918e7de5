//! The decisions of the file system calls: which descriptor is valid, which
//! slot a new descriptor takes, which directory a path starts from. The
//! transfers and lookups themselves are the caller's to perform.

use vstd::prelude::*;

verus! {

/// What a system call has to know of an open file: the caller's handle for
/// it, and whether it may be read and written.
#[derive(Copy, Clone, Debug, PartialEq, Eq, Structural)]
pub struct OpenFile {
    pub handle: usize,
    pub readable: bool,
    pub writable: bool,
}

/// The part of a task that the file system calls work on: the descriptor
/// table and the inode of the working directory.
pub struct TaskFiles {
    pub fd_table: Vec<Option<OpenFile>>,
    pub current_inode: u32,
}

/// What a read or write call comes to before any byte moves.
#[derive(Copy, Clone, Debug, PartialEq, Eq, Structural)]
pub enum Transfer {
    /// The call is over, with this result.
    Done(isize),
    /// The caller is to move `len` bytes between `file` and the user buffer
    /// at address `buf`; the number of bytes moved is the call's result.
    Pending { file: OpenFile, buf: usize, len: usize },
}

/// Whether `fd` names an open file of `table`.
pub open spec fn is_open(table: Seq<Option<OpenFile>>, fd: int) -> bool {
    0 <= fd < table.len() && table[fd] is Some
}

/// Whether `fd` is the descriptor that the next open file gets: the lowest
/// free slot, or the slot behind the table where none is free.
pub open spec fn next_fd(table: Seq<Option<OpenFile>>, fd: int) -> bool {
    &&& 0 <= fd <= table.len()
    &&& forall|j: int| 0 <= j < fd ==> (#[trigger] table[j]) is Some
    &&& fd < table.len() ==> table[fd] is None
}

/// The table with `file` in slot `fd`, which is a slot of the table or the
/// slot behind it.
pub open spec fn with_file(table: Seq<Option<OpenFile>>, fd: int, file: OpenFile) -> Seq<
    Option<OpenFile>,
> {
    if fd < table.len() {
        table.update(fd, Some(file))
    } else {
        table.push(Some(file))
    }
}

impl TaskFiles {
    /// A task with no open file, in the directory of inode `current_inode`.
    pub fn new(current_inode: u32) -> (r: Self)
        ensures
            r.fd_table@ == Seq::<Option<OpenFile>>::empty(),
            r.current_inode == current_inode,
    {
        TaskFiles { fd_table: Vec::new(), current_inode }
    }

    /// The lowest free descriptor. The table grows by one free slot where
    /// it has none.
    pub fn alloc_fd(&mut self) -> (fd: usize)
        ensures
            next_fd(old(self).fd_table@, fd as int),
            final(self).current_inode == old(self).current_inode,
            final(self).fd_table@ == if fd < old(self).fd_table.len() {
                old(self).fd_table@
            } else {
                old(self).fd_table@.push(None)
            },
            fd < final(self).fd_table.len(),
            final(self).fd_table[fd as int] is None,
    {
        let n = self.fd_table.len();
        let mut fd: usize = 0;
        while fd < n
            invariant_except_break
                forall|j: int| 0 <= j < fd ==> (#[trigger] self.fd_table[j]) is Some,
            invariant
                fd <= n,
                n == self.fd_table.len(),
                *self == *old(self),
            ensures
                fd <= n,
                forall|j: int| 0 <= j < fd ==> (#[trigger] self.fd_table[j]) is Some,
                fd < n ==> self.fd_table[fd as int] is None,
            decreases n - fd,
        {
            if self.fd_table[fd].is_none() {
                break ;
            }
            fd += 1;
        }
        if fd == n {
            self.fd_table.push(None);
        }
        fd
    }
}

/// Decides a write call on descriptor `fd`: -1 where `fd` names no open
/// file or the file may not be written, else the transfer to perform.
pub fn sys_write(task: &TaskFiles, fd: usize, buf: usize, len: usize) -> (r: Transfer)
    ensures
        r == if is_open(task.fd_table@, fd as int) && task.fd_table[fd as int]->0.writable {
            Transfer::Pending { file: task.fd_table[fd as int]->0, buf, len }
        } else {
            Transfer::Done(-1isize)
        },
{
    if fd >= task.fd_table.len() {
        return Transfer::Done(-1);
    }
    match task.fd_table[fd] {
        Some(file) => {
            if !file.writable {
                return Transfer::Done(-1);
            }
            Transfer::Pending { file, buf, len }
        },
        None => Transfer::Done(-1),
    }
}

/// Decides a read call on descriptor `fd`: -1 where `fd` names no open file
/// or the file may not be read, else the transfer to perform.
pub fn sys_read(task: &TaskFiles, fd: usize, buf: usize, len: usize) -> (r: Transfer)
    ensures
        r == if is_open(task.fd_table@, fd as int) && task.fd_table[fd as int]->0.readable {
            Transfer::Pending { file: task.fd_table[fd as int]->0, buf, len }
        } else {
            Transfer::Done(-1isize)
        },
{
    if fd >= task.fd_table.len() {
        return Transfer::Done(-1);
    }
    match task.fd_table[fd] {
        Some(file) => {
            if !file.readable {
                return Transfer::Done(-1);
            }
            Transfer::Pending { file, buf, len }
        },
        None => Transfer::Done(-1),
    }
}

/// Ends an open call: the file that was opened, if one was, takes the
/// lowest free descriptor, which is the result; -1 where none was opened.
pub fn sys_open(task: &mut TaskFiles, opened: Option<OpenFile>) -> (r: isize)
    requires
        old(task).fd_table.len() < isize::MAX,
    ensures
        final(task).current_inode == old(task).current_inode,
        match opened {
            Some(file) => next_fd(old(task).fd_table@, r as int) && final(task).fd_table@
                == with_file(old(task).fd_table@, r as int, file),
            None => r == -1 && final(task).fd_table@ == old(task).fd_table@,
        },
{
    match opened {
        Some(file) => {
            let fd = task.alloc_fd();
            task.fd_table.set(fd, Some(file));
            proof {
                assert(task.fd_table@ =~= with_file(old(task).fd_table@, fd as int, file));
            }
            fd as isize
        },
        None => -1,
    }
}

/// Closes descriptor `fd`: 0 and the slot is free, or -1 and nothing
/// changes where `fd` names no open file.
pub fn sys_close(task: &mut TaskFiles, fd: usize) -> (r: isize)
    ensures
        final(task).current_inode == old(task).current_inode,
        is_open(old(task).fd_table@, fd as int) ==> r == 0 && final(task).fd_table@ == old(
            task,
        ).fd_table@.update(fd as int, None),
        !is_open(old(task).fd_table@, fd as int) ==> r == -1 && final(task).fd_table@ == old(
            task,
        ).fd_table@,
{
    if fd >= task.fd_table.len() {
        return -1;
    }
    if task.fd_table[fd].is_none() {
        return -1;
    }
    task.fd_table.set(fd, None);
    0
}

/// Gives the two ends of a new pipe the two lowest free descriptors, the
/// read end first, and returns them in this order.
pub fn sys_pipe(task: &mut TaskFiles, pipe_read: OpenFile, pipe_write: OpenFile) -> (r: (
    usize,
    usize,
))
    ensures
        final(task).current_inode == old(task).current_inode,
        next_fd(old(task).fd_table@, r.0 as int),
        next_fd(with_file(old(task).fd_table@, r.0 as int, pipe_read), r.1 as int),
        final(task).fd_table@ == with_file(
            with_file(old(task).fd_table@, r.0 as int, pipe_read),
            r.1 as int,
            pipe_write,
        ),
{
    let read_fd = task.alloc_fd();
    task.fd_table.set(read_fd, Some(pipe_read));
    proof {
        assert(task.fd_table@ =~= with_file(old(task).fd_table@, read_fd as int, pipe_read));
    }
    let ghost mid = task.fd_table@;
    let write_fd = task.alloc_fd();
    task.fd_table.set(write_fd, Some(pipe_write));
    proof {
        assert(task.fd_table@ =~= with_file(mid, write_fd as int, pipe_write));
    }
    (read_fd, write_fd)
}

/// Duplicates descriptor `fd`: the same file takes the lowest free
/// descriptor, which is the result; -1 and nothing changes where `fd`
/// names no open file.
pub fn sys_dup(task: &mut TaskFiles, fd: usize) -> (r: isize)
    requires
        old(task).fd_table.len() < isize::MAX,
    ensures
        final(task).current_inode == old(task).current_inode,
        is_open(old(task).fd_table@, fd as int) ==> next_fd(old(task).fd_table@, r as int)
            && final(task).fd_table@ == with_file(
            old(task).fd_table@,
            r as int,
            old(task).fd_table[fd as int]->0,
        ),
        !is_open(old(task).fd_table@, fd as int) ==> r == -1 && final(task).fd_table@ == old(
            task,
        ).fd_table@,
{
    if fd >= task.fd_table.len() {
        return -1;
    }
    let file = match task.fd_table[fd] {
        Some(file) => file,
        None => {
            return -1;
        },
    };
    let new_fd = task.alloc_fd();
    task.fd_table.set(new_fd, Some(file));
    proof {
        assert(task.fd_table@ =~= with_file(old(task).fd_table@, new_fd as int, file));
    }
    new_fd as isize
}

/// The inode from which the lookup of `path` starts: the root, inode 0,
/// for a path that begins with a slash, else the working directory.
pub fn chdir_base(task: &TaskFiles, path: &[u8]) -> (r: u32)
    requires
        path.len() > 0,
    ensures
        r == if path[0] == 0x2f {
            0
        } else {
            task.current_inode
        },
{
    if path[0] == 0x2f {
        0
    } else {
        task.current_inode
    }
}

/// Ends a change of directory with the lookup's result `new_ino_id`: an
/// inode number, which becomes the working directory, or a negative error
/// code, which changes nothing. The result is `new_ino_id` either way.
pub fn sys_chdir(task: &mut TaskFiles, new_ino_id: isize) -> (r: isize)
    ensures
        r == new_ino_id,
        final(task).fd_table@ == old(task).fd_table@,
        final(task).current_inode == if new_ino_id >= 0 {
            (new_ino_id as int % 0x1_0000_0000) as u32
        } else {
            old(task).current_inode
        },
{
    if new_ino_id >= 0 {
        task.current_inode = (new_ino_id as u64 % 0x1_0000_0000) as u32;
    }
    new_ino_id
}

/// Decides a listing call: the inode to list, which is the working
/// directory, and the call's result, which is 0.
pub fn sys_ls(task: &TaskFiles) -> (r: (u32, isize))
    ensures
        r.0 == task.current_inode,
        r.1 == 0,
{
    (task.current_inode, 0)
}

} // verus!
