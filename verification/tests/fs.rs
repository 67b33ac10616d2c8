use lib::fs::{fstat_reply, stat_of, STAT_MODE_FILE, sys_close, sys_fstat, sys_linkat, sys_open, sys_read, sys_write, FdEntry, FdTable};

fn entry(file: &'static str, readable: bool, writable: bool) -> Option<FdEntry<&'static str>> {
    Some(FdEntry { file, readable, writable })
}

fn table() -> FdTable<&'static str> {
    FdTable { fd_table: vec![entry("stdin", true, false), entry("stdout", false, true), None, entry("log", true, true)] }
}

#[test]
fn write_needs_writable_open_fd() {
    let t = table();
    assert_eq!(sys_write(&t, 1), Some(&"stdout"));
    assert_eq!(sys_write(&t, 3), Some(&"log"));
    assert_eq!(sys_write(&t, 0), None);
    assert_eq!(sys_write(&t, 2), None);
    assert_eq!(sys_write(&t, 4), None);
}

#[test]
fn read_needs_readable_open_fd() {
    let t = table();
    assert_eq!(sys_read(&t, 0), Some(&"stdin"));
    assert_eq!(sys_read(&t, 3), Some(&"log"));
    assert_eq!(sys_read(&t, 1), None);
    assert_eq!(sys_read(&t, 2), None);
    assert_eq!(sys_read(&t, 9), None);
}

#[test]
fn fstat_needs_open_fd() {
    let t = table();
    assert_eq!(sys_fstat(&t, 1), Some(&"stdout"));
    assert_eq!(sys_fstat(&t, 2), None);
    assert_eq!(sys_fstat(&t, 4), None);
}

#[test]
fn open_takes_lowest_free_fd() {
    let mut t = table();
    assert_eq!(sys_open(&mut t, entry("a", true, false)), 2);
    assert_eq!(sys_open(&mut t, entry("b", true, false)), 4);
    assert_eq!(t.fd_table.len(), 5);
    assert_eq!(sys_read(&t, 2), Some(&"a"));
    assert_eq!(sys_read(&t, 4), Some(&"b"));
}

#[test]
fn failed_open_returns_minus_one() {
    let mut t = table();
    assert_eq!(sys_open(&mut t, None), -1);
    assert_eq!(t.fd_table.len(), 4);
    assert!(t.fd_table[2].is_none());
}

#[test]
fn close_empties_slot() {
    let mut t = table();
    assert_eq!(sys_close(&mut t, 3), 0);
    assert!(t.fd_table[3].is_none());
    assert_eq!(sys_close(&mut t, 3), -1);
    assert_eq!(sys_close(&mut t, 2), -1);
    assert_eq!(sys_close(&mut t, 10), -1);
}

#[test]
fn close_after_open() {
    let mut t = table();
    let fd = sys_open(&mut t, entry("tmp", true, true));
    assert_eq!(sys_close(&mut t, fd as usize), 0);
    assert!(t.fd_table[fd as usize].is_none());
    assert_eq!(sys_fstat(&t, fd as usize), None);
}

#[test]
fn alloc_fd_grows_full_table() {
    let mut t = FdTable { fd_table: vec![entry("x", true, true)] };
    assert_eq!(t.alloc_fd(), 1);
    assert_eq!(t.fd_table.len(), 2);
    assert_eq!(t.alloc_fd(), 1);
    assert_eq!(t.fd_table.len(), 2);
}

#[test]
fn link_to_same_name_refused() {
    assert!(!sys_linkat(&"a".to_string(), &"a".to_string()));
    assert!(sys_linkat(&"a".to_string(), &"b".to_string()));
}

#[test]
fn stat_record_fields() {
    let st = stat_of(77, 2);
    assert_eq!(st.dev, 0);
    assert_eq!(st.ino, 77);
    assert_eq!(st.mode, STAT_MODE_FILE);
    assert_eq!(st.mode, 0o100000);
    assert_eq!(st.nlink, 2);
    assert_eq!(st.pad, [0; 7]);
}

#[test]
fn fstat_reply_status_and_record() {
    let t = table();
    let (status, record) = fstat_reply(&t, 3, Some((12, 3)));
    assert_eq!(status, 0);
    let st = record.unwrap();
    assert_eq!((st.dev, st.ino, st.mode, st.nlink, st.pad), (0, 12, STAT_MODE_FILE, 3, [0; 7]));
    let (status, record) = fstat_reply(&t, 1, None);
    assert_eq!(status, 0);
    assert!(record.is_none());
    let (status, record) = fstat_reply(&t, 2, Some((1, 1)));
    assert_eq!(status, -1);
    assert!(record.is_none());
    let (status, record) = fstat_reply(&t, 8, Some((1, 1)));
    assert_eq!(status, -1);
    assert!(record.is_none());
}
