use lib::trace::TraceContext;

#[test]
fn fresh_context_counts_nothing() {
    let t = TraceContext::new();
    assert_eq!(t.get_count(0), 0);
    assert_eq!(t.get_count(64), 0);
}

#[test]
fn tracing_counts_each_call_once() {
    let mut t = TraceContext::new();
    t.trace_syscall(64);
    t.trace_syscall(169);
    t.trace_syscall(64);
    assert_eq!(t.get_count(64), 2);
    assert_eq!(t.get_count(169), 1);
    assert_eq!(t.get_count(93), 0);
}

#[test]
fn tracing_one_call_leaves_others() {
    let mut t = TraceContext::new();
    for _ in 0..5 {
        t.trace_syscall(7);
    }
    let before = t.get_count(8);
    t.trace_syscall(7);
    assert_eq!(t.get_count(7), 6);
    assert_eq!(t.get_count(8), before);
}

#[test]
fn count_does_not_depend_on_order() {
    let calls = [5usize, 9, 5, 1, 9, 5];
    let mut forward = TraceContext::new();
    for &c in calls.iter() {
        forward.trace_syscall(c);
    }
    let mut backward = TraceContext::new();
    for &c in calls.iter().rev() {
        backward.trace_syscall(c);
    }
    for id in [1usize, 5, 9, 2] {
        let expected = calls.iter().filter(|&&c| c == id).count();
        assert_eq!(forward.get_count(id), expected);
        assert_eq!(backward.get_count(id), expected);
    }
}

#[test]
fn traced_calls_count_at_least_once() {
    let mut t = TraceContext::new();
    t.trace_syscall(3);
    assert!(t.get_count(3) >= 1);
}
