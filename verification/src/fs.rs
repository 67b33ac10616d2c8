//! The decisions of the file-system system calls over a task's file-descriptor table.
use vstd::prelude::*;
use crate::process::SYSCALL_FAILED;

verus! {

/// The mode bits of a regular file.
pub const STAT_MODE_FILE: u32 = 0o100000;

/// What `sys_fstat` reports of a file: device, inode number, mode, number of hard links, and
/// padding.
#[derive(Debug)]
pub struct Stat {
    pub dev: u64,
    pub ino: u64,
    pub mode: u32,
    pub nlink: u32,
    pub pad: [u64; 7],
}

/// `st` is the record of the regular file whose inode is in block `block_id` and has
/// `link_count` links: device 0, the block as inode number, the regular-file mode, the link
/// count, and zero padding.
pub open spec fn describes(st: Stat, block_id: usize, link_count: usize) -> bool {
    &&& st.dev == 0
    &&& st.ino == block_id as u64
    &&& st.mode == STAT_MODE_FILE
    &&& st.nlink == link_count as u32
    &&& st.pad@ == seq![0u64, 0u64, 0u64, 0u64, 0u64, 0u64, 0u64]
}

/// The record `sys_fstat` writes for the regular file whose inode is in block `block_id` and
/// has `link_count` links.
pub fn stat_of(block_id: usize, link_count: usize) -> (st: Stat)
    ensures
        describes(st, block_id, link_count),
{
    Stat {
        dev: 0,
        ino: block_id as u64,
        mode: STAT_MODE_FILE,
        nlink: link_count as u32,
        pad: [0, 0, 0, 0, 0, 0, 0],
    }
}

/// An open file as a descriptor holds it: the file, and whether it may be read or written.
pub struct FdEntry<F> {
    pub file: F,
    pub readable: bool,
    pub writable: bool,
}

/// A task's file descriptors: slot `fd` holds the file open under `fd`, if any.
pub struct FdTable<F> {
    pub fd_table: Vec<Option<FdEntry<F>>>,
}

/// The lowest descriptor with no file in `slots`, or the first one past the end.
pub open spec fn first_free<F>(slots: Seq<Option<FdEntry<F>>>) -> int {
    if exists|fd: int| 0 <= fd < slots.len() && #[trigger] slots[fd] is None {
        choose|fd: int|
            0 <= fd < slots.len() && #[trigger] slots[fd] is None && forall|k: int|
                0 <= k < fd ==> #[trigger] slots[k] is Some
    } else {
        slots.len() as int
    }
}

/// The file open under `fd` in `slots`, if one is.
pub open spec fn open_file_at<F>(slots: Seq<Option<FdEntry<F>>>, fd: usize) -> Option<FdEntry<F>> {
    if fd < slots.len() {
        slots[fd as int]
    } else {
        None
    }
}

/// There is a least free descriptor when there is a free one.
proof fn lemma_first_free<F>(slots: Seq<Option<FdEntry<F>>>, fd: int)
    requires
        0 <= fd < slots.len(),
        slots[fd] is None,
        forall|k: int| 0 <= k < fd ==> #[trigger] slots[k] is Some,
    ensures
        first_free(slots) == fd,
{
    let c = choose|c: int|
        0 <= c < slots.len() && #[trigger] slots[c] is None && forall|k: int|
            0 <= k < c ==> #[trigger] slots[k] is Some;
    assert(slots[fd] is None);
    if c < fd {
        assert(slots[c] is Some);
    }
    if c > fd {
        assert(slots[fd] is Some);
    }
}

impl<F> FdTable<F> {
    /// The lowest free descriptor; the table grows by one empty slot when all are taken.
    pub fn alloc_fd(&mut self) -> (fd: usize)
        ensures
            fd == first_free(old(self).fd_table@),
            fd < final(self).fd_table.len(),
            final(self).fd_table@ == if fd < old(self).fd_table.len() {
                old(self).fd_table@
            } else {
                old(self).fd_table@.push(None)
            },
    {
        let n = self.fd_table.len();
        let mut i: usize = 0;
        while i < n
            invariant
                n == self.fd_table.len(),
                i <= n,
                *self == *old(self),
                forall|k: int| 0 <= k < i ==> #[trigger] self.fd_table@[k] is Some,
            decreases n - i,
        {
            if self.fd_table[i].is_none() {
                proof {
                    lemma_first_free(self.fd_table@, i as int);
                }
                return i;
            }
            i = i + 1;
        }
        self.fd_table.push(None);
        n
    }
}

/// The file to write to for `sys_write` on `fd`: none (the call fails) if `fd` is out of range,
/// holds no file, or holds one that may not be written.
pub fn sys_write<F>(table: &FdTable<F>, fd: usize) -> (r: Option<&F>)
    ensures
        r == match open_file_at(table.fd_table@, fd) {
            Some(e) => if e.writable {
                Some(&e.file)
            } else {
                None
            },
            None => None,
        },
{
    if fd >= table.fd_table.len() {
        return None;
    }
    match &table.fd_table[fd] {
        Some(entry) => if entry.writable {
            Some(&entry.file)
        } else {
            None
        },
        None => None,
    }
}

/// The file to read from for `sys_read` on `fd`: none (the call fails) if `fd` is out of range,
/// holds no file, or holds one that may not be read.
pub fn sys_read<F>(table: &FdTable<F>, fd: usize) -> (r: Option<&F>)
    ensures
        r == match open_file_at(table.fd_table@, fd) {
            Some(e) => if e.readable {
                Some(&e.file)
            } else {
                None
            },
            None => None,
        },
{
    if fd >= table.fd_table.len() {
        return None;
    }
    match &table.fd_table[fd] {
        Some(entry) => if entry.readable {
            Some(&entry.file)
        } else {
            None
        },
        None => None,
    }
}

/// The file to describe for `sys_fstat` on `fd`: none (the call fails) if `fd` is out of range
/// or holds no file.
pub fn sys_fstat<F>(table: &FdTable<F>, fd: usize) -> (r: Option<&F>)
    ensures
        r == match open_file_at(table.fd_table@, fd) {
            Some(e) => Some(&e.file),
            None => None,
        },
{
    if fd >= table.fd_table.len() {
        return None;
    }
    match &table.fd_table[fd] {
        Some(entry) => Some(&entry.file),
        None => None,
    }
}

/// What `sys_fstat` on `fd` returns and writes, given the block id and link count of the file's
/// inode (`None` when the file is no inode): -1 and no record if `fd` is out of range or holds
/// no file; otherwise 0, with the file's record when it is an inode.
pub fn fstat_reply<F>(table: &FdTable<F>, fd: usize, inode: Option<(usize, usize)>) -> (r: (
    isize,
    Option<Stat>,
))
    ensures
        open_file_at(table.fd_table@, fd) is None ==> r.0 == SYSCALL_FAILED && r.1 is None,
        open_file_at(table.fd_table@, fd) is Some ==> r.0 == 0 && match inode {
            Some((block_id, link_count)) => r.1 is Some && describes(r.1->0, block_id, link_count),
            None => r.1 is None,
        },
{
    match sys_fstat(table, fd) {
        None => (SYSCALL_FAILED, None),
        Some(_) => match inode {
            Some((block_id, link_count)) => (0, Some(stat_of(block_id, link_count))),
            None => (0, None),
        },
    }
}

/// Installs the file that `sys_open` opened (`None`: opening failed) under the lowest free
/// descriptor and returns that descriptor, or -1 if there is no file.
pub fn sys_open<F>(table: &mut FdTable<F>, opened: Option<FdEntry<F>>) -> (r: isize)
    requires
        old(table).fd_table.len() < isize::MAX,
    ensures
        match opened {
            Some(e) => {
                let fd = first_free(old(table).fd_table@);
                &&& r == fd
                &&& final(table).fd_table@ == if fd < old(table).fd_table.len() {
                    old(table).fd_table@
                } else {
                    old(table).fd_table@.push(None)
                }.update(fd, Some(e))
            },
            None => r == SYSCALL_FAILED && final(table).fd_table@ == old(table).fd_table@,
        },
{
    match opened {
        Some(entry) => {
            let fd = table.alloc_fd();
            table.fd_table.set(fd, Some(entry));
            fd as isize
        },
        None => SYSCALL_FAILED,
    }
}

/// Closes `fd`: -1 if it is out of range or holds no file, otherwise its slot is emptied and
/// the call returns 0.
pub fn sys_close<F>(table: &mut FdTable<F>, fd: usize) -> (r: isize)
    ensures
        open_file_at(old(table).fd_table@, fd) is None ==> r == SYSCALL_FAILED
            && final(table).fd_table@ == old(table).fd_table@,
        open_file_at(old(table).fd_table@, fd) is Some ==> r == 0 && final(table).fd_table@
            == old(table).fd_table@.update(fd as int, None),
{
    if fd >= table.fd_table.len() {
        return SYSCALL_FAILED;
    }
    if table.fd_table[fd].is_none() {
        return SYSCALL_FAILED;
    }
    table.fd_table.set(fd, None);
    0
}

/// Whether `sys_linkat` may go on to create the link: a name cannot be linked to itself
/// (the call then fails).
pub fn sys_linkat(old_name: &String, new_name: &String) -> (may_link: bool)
    ensures
        may_link == (old_name@ != new_name@),
{
    !old_name.eq(new_name)
}

/// A file just opened under the descriptor `sys_open` returned is closed again by `sys_close`
/// on that descriptor, which leaves the slot empty.
pub proof fn law_close_after_open<F>(slots: Seq<Option<FdEntry<F>>>, e: FdEntry<F>)
    ensures
        ({
            let fd = first_free(slots);
            let opened = if fd < slots.len() {
                slots
            } else {
                slots.push(None)
            }.update(fd, Some(e));
            &&& 0 <= fd
            &&& open_file_at(opened, fd as usize) is Some
            &&& opened.update(fd, None)[fd] is None
        }),
{
    let fd = first_free(slots);
    if exists|k: int| 0 <= k < slots.len() && #[trigger] slots[k] is None {
        let w = choose|k: int| 0 <= k < slots.len() && #[trigger] slots[k] is None;
        lemma_least_free_exists(slots, w);
    }
}

/// Where some descriptor is free, the lowest free one exists.
proof fn lemma_least_free_exists<F>(slots: Seq<Option<FdEntry<F>>>, w: int)
    requires
        0 <= w < slots.len(),
        slots[w] is None,
    ensures
        exists|fd: int|
            0 <= fd < slots.len() && #[trigger] slots[fd] is None && forall|k: int|
                0 <= k < fd ==> #[trigger] slots[k] is Some,
    decreases w,
{
    if forall|k: int| 0 <= k < w ==> #[trigger] slots[k] is Some {
        assert(slots[w] is None);
    } else {
        let v = choose|k: int| 0 <= k < w && !(#[trigger] slots[k] is Some);
        lemma_least_free_exists(slots, v);
    }
}

} // verus!
