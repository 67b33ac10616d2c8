use lib::process::{
    copy_plan, status_reply, value_reply, sys_mmap, sys_munmap, sys_sbrk, sys_trace, trace_count_reply, trace_read_reply,
    vpn_range, MapPermission, TimeVal, TraceAction, VpnRange, PAGE_SIZE,
};

#[test]
fn time_splits_microseconds() {
    let t = TimeVal::from_us(3_500_042);
    assert_eq!(t.sec, 3);
    assert_eq!(t.usec, 500_042);
    let t = TimeVal::from_us(999_999);
    assert_eq!((t.sec, t.usec), (0, 999_999));
}

#[test]
fn trace_requests_decode() {
    assert_eq!(sys_trace(0, 0x1000, 9), TraceAction::ReadByte { addr: 0x1000 });
    assert_eq!(sys_trace(1, 0x2000, 0xab), TraceAction::WriteByte { addr: 0x2000, data: 0xab });
    assert_eq!(sys_trace(2, 64, 0), TraceAction::CountSyscall { syscall_id: 64 });
    assert_eq!(sys_trace(3, 64, 0), TraceAction::Reject);
}

#[test]
fn trace_replies() {
    assert_eq!(trace_read_reply(Some(200)), 200);
    assert_eq!(trace_read_reply(None), -1);
    assert_eq!(trace_count_reply(17), 17);
}

#[test]
fn sbrk_reply() {
    assert_eq!(sys_sbrk(Some(0x8000)), 0x8000);
    assert_eq!(sys_sbrk(None), -1);
}

#[test]
fn page_range_of_bytes() {
    assert_eq!(vpn_range(0x1000, 0x1000), VpnRange { start: 1, end: 2 });
    assert_eq!(vpn_range(0x1000, 0x1001), VpnRange { start: 1, end: 3 });
    assert_eq!(vpn_range(0x1000, 0), VpnRange { start: 1, end: 1 });
    assert_eq!(vpn_range(0, 0), VpnRange { start: 0, end: 0 });
    assert_eq!(PAGE_SIZE, 4096);
}

#[test]
fn mmap_maps_free_aligned_range() {
    let area = sys_mmap(0x10000, 0x2000, 3, &vec![false, false]).unwrap();
    assert_eq!(area.range, VpnRange { start: 0x10, end: 0x12 });
    assert_eq!(
        area.permission,
        MapPermission { readable: true, writable: true, executable: false, user: true }
    );
    let area = sys_mmap(0x10000, 1, 4, &vec![false]).unwrap();
    assert_eq!(
        area.permission,
        MapPermission { readable: false, writable: false, executable: true, user: true }
    );
}

#[test]
fn mmap_refusals() {
    // unaligned start
    assert_eq!(sys_mmap(0x10001, 0x1000, 1, &vec![false, false]), None);
    // no right asked for
    assert_eq!(sys_mmap(0x10000, 0x1000, 0, &vec![false]), None);
    // a bit above the three rights
    assert_eq!(sys_mmap(0x10000, 0x1000, 9, &vec![false]), None);
    // a page already mapped
    assert_eq!(sys_mmap(0x10000, 0x2000, 1, &vec![false, true]), None);
}

#[test]
fn munmap_needs_every_page_mapped() {
    assert_eq!(sys_munmap(0x10000, 0x2000, &vec![true, true]), Some(VpnRange { start: 0x10, end: 0x12 }));
    assert_eq!(sys_munmap(0x10000, 0x2000, &vec![true, false]), None);
    assert_eq!(sys_munmap(0x10800, 0x800, &vec![true]), None);
}

#[test]
fn munmap_undoes_mmap() {
    let area = sys_mmap(0x40000, 0x3000, 7, &vec![false, false, false]).unwrap();
    let unmapped = sys_munmap(0x40000, 0x3000, &vec![true, true, true]).unwrap();
    assert_eq!(unmapped, area.range);
    assert_eq!(sys_munmap(0x40000, 0x3000, &vec![false, false, false]), None);
}

#[test]
fn mmap_and_munmap_exclude_each_other() {
    for mapped in [vec![false, false], vec![true, true], vec![true, false], vec![false, true]] {
        let m = sys_mmap(0x5000, 0x2000, 1, &mapped).is_some();
        let u = sys_munmap(0x5000, 0x2000, &mapped).is_some();
        assert!(!(m && u));
    }
}

#[test]
fn copy_plan_spreads_over_buffers() {
    assert_eq!(copy_plan(16, &vec![10, 100]), vec![10, 6]);
    assert_eq!(copy_plan(16, &vec![100, 100]), vec![16]);
    assert_eq!(copy_plan(16, &vec![4, 0, 100]), vec![4]);
    assert_eq!(copy_plan(16, &vec![]), Vec::<usize>::new());
    assert_eq!(copy_plan(16, &vec![8, 8, 8]), vec![8, 8]);
}

#[test]
fn replies_of_system_calls() {
    assert_eq!(status_reply(true), 0);
    assert_eq!(status_reply(false), -1);
    assert_eq!(value_reply(Some(42)), 42);
    assert_eq!(value_reply(None), -1);
}
