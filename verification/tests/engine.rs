use lprofile_hook::entry::{FunctionKey, ProfileEntry, ProfilingResult};
use lprofile_hook::frame::{since, CallFrame};
use lprofile_hook::name::FunctionName;
use lprofile_hook::profiler::{Profiler, SessionError};

const MS: u64 = 1_000_000;

fn named(name: &str) -> FunctionName {
    FunctionName {
        name: Some(name.to_string()),
        function_type: Some("global".to_string()),
        source: "script.lua".to_string(),
        line: Some(3),
        domain: "Lua".to_string(),
    }
}

fn started(now: u64) -> Profiler {
    let mut p = Profiler::new();
    assert_eq!(p.begin_session(now), Ok(()));
    p
}

#[test]
fn new_entry_counts_one_open_call() {
    let e = ProfileEntry::new(None);
    assert_eq!(e.calls, 1);
    assert_eq!(e.recursion_depth, 1);
    assert_eq!(e.total_time, 0);
    assert_eq!(e.total_self_time, 0);
    assert_eq!(e.name, None);
    let e = ProfileEntry::new(Some(named("f")));
    assert_eq!(e.name, Some(named("f")));
}

#[test]
fn new_frame_starts_both_clocks() {
    let f = CallFrame::new(4, FunctionKey(9), 77);
    assert_eq!(
        f,
        CallFrame { entry: 77, inner_start: 77, level: 4, key: FunctionKey(9), suspended: false }
    );
}

#[test]
fn new_result_is_empty() {
    let r = ProfilingResult::new();
    assert!(r.data.is_empty());
    assert_eq!(r.total_time, None);
    assert!(r.get(FunctionKey(1)).is_none());
}

#[test]
fn since_is_zero_when_time_goes_back() {
    assert_eq!(since(10, 25), 15);
    assert_eq!(since(25, 10), 0);
    assert_eq!(since(7, 7), 0);
}

#[test]
fn enter_counts_and_keeps_first_name() {
    let mut r = ProfilingResult::new();
    r.enter(FunctionKey(1), Some(named("f")));
    assert_eq!(r.get(FunctionKey(1)).unwrap().calls, 1);
    assert_eq!(r.get(FunctionKey(1)).unwrap().name, Some(named("f")));
    r.enter(FunctionKey(1), Some(named("g")));
    assert_eq!(r.get(FunctionKey(1)).unwrap().calls, 2);
    assert_eq!(r.get(FunctionKey(1)).unwrap().recursion_depth, 2);
    assert_eq!(r.get(FunctionKey(1)).unwrap().name, Some(named("f")));
    r.enter(FunctionKey(1), None);
    assert_eq!(r.get(FunctionKey(1)).unwrap().calls, 3);
    assert_eq!(r.get(FunctionKey(1)).unwrap().name, Some(named("f")));
}

#[test]
fn enter_does_not_name_a_function_seen_without_a_name() {
    let mut r = ProfilingResult::new();
    r.enter(FunctionKey(1), None);
    assert_eq!(r.get(FunctionKey(1)).unwrap().name, None);
    r.enter(FunctionKey(1), Some(named("f")));
    assert_eq!(r.get(FunctionKey(1)).unwrap().calls, 2);
    assert_eq!(r.get(FunctionKey(1)).unwrap().name, None);
}

#[test]
fn set_stack_to_without_a_session_does_nothing() {
    let mut p = Profiler::new();
    let before = p.clone();
    p.set_stack_to(3, 77);
    assert_eq!(p, before);
    assert!(!p.is_active());
    assert_eq!(p.depth(), 0);
    assert_eq!(p.clock(), before.clock());
}

#[test]
fn set_stack_to_leaves_a_top_frame_that_is_not_deeper() {
    let mut p = started(0);
    p.set_stack_to(0, 1);
    assert_eq!(p.depth(), 0);
    p.call_event(FunctionKey(1), 1, 2, None);
    p.call_event(FunctionKey(2), 2, 5, None);
    let top = p.top();
    p.set_stack_to(2, 9);
    assert_eq!(p.depth(), 2);
    assert_eq!(p.top(), top);
    assert_eq!(p.entry(FunctionKey(2)).unwrap().total_self_time, 0);
    assert_eq!(p.entry(FunctionKey(2)).unwrap().recursion_depth, 1);
    assert_eq!(p.entry(FunctionKey(1)).unwrap().total_self_time, 3);
}

#[test]
fn suspend_flushes_self_time() {
    let mut r = ProfilingResult::new();
    r.enter(FunctionKey(1), None);
    let mut f = CallFrame::new(1, FunctionKey(1), 100);
    f.suspend(&mut r, 130);
    assert!(f.suspended);
    assert_eq!(f.inner_start, 100);
    let e = r.get(FunctionKey(1)).unwrap();
    assert_eq!(e.total_self_time, 30);
    assert_eq!(e.total_time, 0);
    assert_eq!(e.recursion_depth, 1);
}

#[test]
fn resume_restarts_only_a_suspended_frame() {
    let mut f = CallFrame::new(1, FunctionKey(1), 100);
    f.resume(150);
    assert_eq!(f.inner_start, 100);
    assert!(!f.suspended);
    f.suspended = true;
    f.resume(170);
    assert_eq!(f.inner_start, 170);
    assert_eq!(f.entry, 100);
    assert!(!f.suspended);
}

#[test]
fn close_finalises_total_only_at_depth_zero() {
    let mut r = ProfilingResult::new();
    r.enter(FunctionKey(1), None);
    r.enter(FunctionKey(1), None);
    let outer = CallFrame::new(1, FunctionKey(1), 100);
    let inner = CallFrame::new(2, FunctionKey(1), 110);
    inner.close(&mut r, 140);
    {
        let e = r.get(FunctionKey(1)).unwrap();
        assert_eq!(e.recursion_depth, 1);
        assert_eq!(e.total_self_time, 30);
        assert_eq!(e.total_time, 0);
    }
    let outer = CallFrame { inner_start: 140, ..outer };
    outer.close(&mut r, 160);
    let e = r.get(FunctionKey(1)).unwrap();
    assert_eq!(e.recursion_depth, 0);
    assert_eq!(e.total_self_time, 50);
    assert_eq!(e.total_time, 60);
    assert_eq!(e.calls, 2);
}

#[test]
fn caller_and_callee_split_their_time() {
    let f = FunctionKey(1);
    let g = FunctionKey(2);
    let mut p = started(0);
    p.call_event(f, 1, 0, Some(named("f")));
    p.call_event(g, 2, MS, Some(named("g")));
    p.return_event(2, 11 * MS);
    p.return_event(1, 12 * MS);
    assert_eq!(p.depth(), 0);
    let r = p.end_session(12 * MS);
    let ef = r.get(f).unwrap();
    let eg = r.get(g).unwrap();
    assert_eq!(ef.calls, 1);
    assert_eq!(eg.calls, 1);
    assert_eq!(ef.total_time, 12 * MS);
    assert_eq!(ef.total_self_time, 2 * MS);
    assert_eq!(eg.total_time, 10 * MS);
    assert_eq!(eg.total_self_time, 10 * MS);
    assert_eq!(r.total_time, Some(12 * MS));
    assert_eq!(r.data.len(), 2);
}

#[test]
fn recursion_counts_total_time_once() {
    let f = FunctionKey(5);
    let mut p = started(1000);
    p.call_event(f, 1, 1000, None);
    p.call_event(f, 2, 1010, None);
    p.call_event(f, 3, 1020, None);
    assert_eq!(p.entry(f).unwrap().recursion_depth, 3);
    assert_eq!(p.entry(f).unwrap().total_time, 0);
    p.return_event(3, 1030);
    p.return_event(2, 1040);
    assert_eq!(p.entry(f).unwrap().recursion_depth, 1);
    assert_eq!(p.entry(f).unwrap().total_time, 0);
    p.return_event(1, 1050);
    let e = p.entry(f).unwrap();
    assert_eq!(e.calls, 3);
    assert_eq!(e.recursion_depth, 0);
    assert_eq!(e.total_time, 50);
    assert_eq!(e.total_self_time, 50);
    assert_eq!(p.depth(), 0);
}

#[test]
fn self_time_is_never_counted_twice() {
    let a = FunctionKey(1);
    let b = FunctionKey(2);
    let c = FunctionKey(3);
    let mut p = started(0);
    p.call_event(a, 1, 0, None);
    p.call_event(b, 2, 5, None);
    p.call_event(c, 3, 9, None);
    p.return_event(3, 20);
    p.call_event(c, 3, 22, None);
    p.return_event(3, 30);
    p.return_event(2, 31);
    p.return_event(1, 40);
    let r = p.end_session(40);
    let sum: u64 = r.data.values().map(|e| e.total_self_time).sum();
    assert_eq!(sum, 40);
    assert_eq!(r.get(a).unwrap().total_self_time, 5 + 9);
    assert_eq!(r.get(b).unwrap().total_self_time, 4 + 2 + 1);
    assert_eq!(r.get(c).unwrap().total_self_time, 11 + 8);
    assert_eq!(r.get(c).unwrap().total_time, 19);
    assert_eq!(r.get(c).unwrap().calls, 2);
    assert_eq!(r.get(b).unwrap().total_time, 26);
    assert_eq!(r.get(a).unwrap().total_time, 40);
    for e in r.data.values() {
        assert!(e.total_self_time <= e.total_time);
    }
}

#[test]
fn call_suspends_the_caller() {
    let mut p = started(0);
    p.call_event(FunctionKey(1), 1, 3, None);
    assert_eq!(
        p.top(),
        Some(CallFrame { entry: 3, inner_start: 3, level: 1, key: FunctionKey(1), suspended: false })
    );
    p.call_event(FunctionKey(2), 2, 8, None);
    assert_eq!(p.entry(FunctionKey(1)).unwrap().total_self_time, 5);
    assert_eq!(p.depth(), 2);
    assert_eq!(p.clock(), 8);
    p.return_event(2, 10);
    assert_eq!(
        p.top(),
        Some(CallFrame {
            entry: 3,
            inner_start: 10,
            level: 1,
            key: FunctionKey(1),
            suspended: false
        })
    );
}

#[test]
fn return_closes_orphans_before_its_own_level() {
    let a = FunctionKey(1);
    let b = FunctionKey(2);
    let c = FunctionKey(3);
    let mut p = started(0);
    p.call_event(a, 1, 0, None);
    p.call_event(b, 2, 10, None);
    p.call_event(c, 3, 20, None);
    // the error unwinds c and b at once: only the return at depth 1 is seen
    p.return_event(1, 50);
    assert_eq!(p.depth(), 0);
    let ec = p.entry(c).unwrap();
    assert_eq!((ec.recursion_depth, ec.total_self_time, ec.total_time), (0, 30, 30));
    let eb = p.entry(b).unwrap();
    assert_eq!((eb.recursion_depth, eb.total_self_time, eb.total_time), (0, 10, 40));
    let ea = p.entry(a).unwrap();
    assert_eq!((ea.recursion_depth, ea.total_self_time, ea.total_time), (0, 10, 50));
}

#[test]
fn set_stack_to_leaves_shallower_frames() {
    let mut p = started(0);
    p.call_event(FunctionKey(1), 1, 0, None);
    p.call_event(FunctionKey(2), 2, 10, None);
    p.call_event(FunctionKey(3), 3, 20, None);
    p.call_event(FunctionKey(4), 4, 30, None);
    p.set_stack_to(2, 45);
    assert_eq!(p.depth(), 2);
    assert_eq!(p.top().unwrap().key, FunctionKey(2));
    assert!(p.top().unwrap().suspended);
    assert_eq!(p.entry(FunctionKey(4)).unwrap().total_self_time, 15);
    assert_eq!(p.entry(FunctionKey(4)).unwrap().total_time, 15);
    assert_eq!(p.entry(FunctionKey(3)).unwrap().total_self_time, 10);
    assert_eq!(p.entry(FunctionKey(3)).unwrap().total_time, 25);
    assert_eq!(p.entry(FunctionKey(2)).unwrap().recursion_depth, 1);
    p.set_stack_to(7, 46);
    assert_eq!(p.depth(), 2);
}

#[test]
fn return_at_a_deeper_level_closes_nothing() {
    let mut p = started(0);
    p.call_event(FunctionKey(1), 1, 0, None);
    p.return_event(2, 10);
    assert_eq!(p.depth(), 1);
    assert_eq!(p.top().unwrap().inner_start, 0);
    assert_eq!(p.entry(FunctionKey(1)).unwrap().total_self_time, 0);
    p.return_event(1, 25);
    assert_eq!(p.entry(FunctionKey(1)).unwrap().total_self_time, 25);
    assert_eq!(p.entry(FunctionKey(1)).unwrap().total_time, 25);
}

#[test]
fn second_session_is_refused_and_changes_nothing() {
    let mut p = started(5);
    p.call_event(FunctionKey(1), 1, 6, Some(named("f")));
    assert_eq!(p.begin_session(9), Err(SessionError::AlreadyActive));
    assert!(p.is_active());
    assert_eq!(p.depth(), 1);
    assert_eq!(p.clock(), 6);
    assert_eq!(p.entry(FunctionKey(1)).unwrap().calls, 1);
    let r = p.end_session(20);
    assert_eq!(r.total_time, Some(15));
    assert!(!p.is_active());
    assert_eq!(p.begin_session(30), Ok(()));
    assert!(p.entry(FunctionKey(1)).is_none());
}

#[test]
fn ending_a_session_closes_open_frames() {
    let a = FunctionKey(1);
    let b = FunctionKey(2);
    let mut p = started(100);
    p.call_event(a, 1, 100, None);
    p.call_event(b, 2, 110, None);
    p.call_event(a, 3, 130, None);
    let r = p.end_session(200);
    assert_eq!(p.depth(), 0);
    assert!(!p.is_active());
    assert_eq!(r.total_time, Some(100));
    let ea = r.get(a).unwrap();
    assert_eq!((ea.calls, ea.recursion_depth), (2, 0));
    assert_eq!(ea.total_self_time, 10 + 70);
    assert_eq!(ea.total_time, 100);
    let eb = r.get(b).unwrap();
    assert_eq!((eb.calls, eb.recursion_depth), (1, 0));
    assert_eq!(eb.total_self_time, 20);
    assert_eq!(eb.total_time, 90);
}

#[test]
fn abort_drops_the_session() {
    let mut p = started(0);
    p.call_event(FunctionKey(1), 1, 0, None);
    p.abort_session();
    assert!(!p.is_active());
    assert_eq!(p.depth(), 0);
    assert_eq!(p.begin_session(3), Ok(()));
}

#[test]
fn name_is_asked_for_on_first_sighting_only() {
    let f = FunctionKey(1);
    let g = FunctionKey(2);
    let mut p = started(0);
    assert!(p.needs_name(f));
    p.call_event(f, 1, 0, None);
    p.return_event(1, 1);
    // the resolution missed: the name stays absent and is not asked for again
    assert!(!p.needs_name(f));
    p.call_event(f, 1, 2, Some(named("late")));
    p.return_event(1, 3);
    assert!(!p.needs_name(f));
    assert_eq!(p.entry(f).unwrap().name, None);
    assert_eq!(p.entry(f).unwrap().calls, 2);
    assert!(p.needs_name(g));
    p.call_event(g, 1, 4, Some(named("first")));
    p.return_event(1, 5);
    assert!(!p.needs_name(g));
    p.call_event(g, 1, 6, Some(named("second")));
    p.return_event(1, 7);
    assert!(!p.needs_name(g));
    assert_eq!(p.entry(g).unwrap().name, Some(named("first")));
    assert_eq!(p.entry(g).unwrap().calls, 2);
}

#[test]
fn unwinding_through_recursion_counts_each_function_once() {
    let f = FunctionKey(1);
    let g = FunctionKey(2);
    let mut p = started(0);
    p.call_event(f, 1, 0, None);
    p.call_event(g, 2, 10, None);
    p.call_event(f, 3, 30, None);
    p.call_event(g, 4, 60, None);
    assert_eq!(p.entry(f).unwrap().recursion_depth, 2);
    assert_eq!(p.entry(g).unwrap().recursion_depth, 2);
    // an error thrown in the innermost call is caught at depth 1
    p.return_event(1, 100);
    assert_eq!(p.depth(), 0);
    let ef = p.entry(f).unwrap();
    assert_eq!((ef.calls, ef.recursion_depth), (2, 0));
    assert_eq!(ef.total_self_time, 10 + 30);
    assert_eq!(ef.total_time, 100);
    let eg = p.entry(g).unwrap();
    assert_eq!((eg.calls, eg.recursion_depth), (2, 0));
    assert_eq!(eg.total_self_time, 20 + 40);
    assert_eq!(eg.total_time, 90);
    let r = p.end_session(100);
    assert_eq!(r.total_time, Some(100));
    let sum: u64 = r.data.values().map(|e| e.total_self_time).sum();
    assert_eq!(sum, 100);
}

#[test]
fn partial_unwind_resumes_the_frame_left_on_top() {
    let f = FunctionKey(1);
    let g = FunctionKey(2);
    let h = FunctionKey(3);
    let mut p = started(0);
    p.call_event(f, 1, 0, None);
    p.call_event(g, 2, 10, None);
    p.call_event(h, 3, 20, None);
    p.call_event(h, 4, 25, None);
    // the return at depth 2 is the first one seen after h failed twice
    p.return_event(2, 40);
    assert_eq!(p.depth(), 1);
    assert_eq!(
        p.top(),
        Some(CallFrame { entry: 0, inner_start: 40, level: 1, key: f, suspended: false })
    );
    let eh = p.entry(h).unwrap();
    assert_eq!((eh.calls, eh.recursion_depth, eh.total_self_time, eh.total_time), (2, 0, 20, 20));
    let eg = p.entry(g).unwrap();
    assert_eq!((eg.calls, eg.recursion_depth, eg.total_self_time, eg.total_time), (1, 0, 10, 30));
    p.return_event(1, 45);
    let ef = p.entry(f).unwrap();
    assert_eq!((ef.calls, ef.recursion_depth, ef.total_self_time, ef.total_time), (1, 0, 15, 45));
}

#[test]
fn return_on_an_empty_stack_changes_nothing() {
    let mut p = started(3);
    p.return_event(1, 8);
    assert_eq!(p.depth(), 0);
    assert_eq!(p.clock(), 8);
    assert_eq!(p.top(), None);
    let r = p.end_session(10);
    assert!(r.data.is_empty());
    assert_eq!(r.total_time, Some(7));
}

#[test]
fn sibling_calls_at_one_level_add_up() {
    let f = FunctionKey(1);
    let g = FunctionKey(2);
    let mut p = started(0);
    p.call_event(f, 1, 0, None);
    for i in 0..3u64 {
        p.call_event(g, 2, 10 * i + 1, None);
        p.return_event(2, 10 * i + 5);
    }
    p.return_event(1, 30);
    let eg = p.entry(g).unwrap();
    assert_eq!((eg.calls, eg.total_time, eg.total_self_time), (3, 12, 12));
    let ef = p.entry(f).unwrap();
    assert_eq!((ef.calls, ef.total_time, ef.total_self_time), (1, 30, 18));
}
