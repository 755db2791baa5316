use std::cell::Cell;

use lprofile_hook::clock::{next_reading, Stopwatch};
use lprofile_hook::entry::FunctionKey;
use lprofile_hook::host::{
    after_probe, depth_below, event_kind, get_stack_level, EventKind, Probe, HOOK_CALL,
    HOOK_RETURN, HOOK_TAIL_CALL,
};
use lprofile_hook::name::FunctionName;
use lprofile_hook::profiler::{Profiler, SessionError};
use lprofile_hook::recorder::Recorder;

fn wait_millis(millis: u64) {
    let began = std::time::Instant::now();
    while began.elapsed() < std::time::Duration::from_millis(millis) {
        std::hint::spin_loop();
    }
}

fn plain(name: &str) -> FunctionName {
    FunctionName {
        name: Some(name.to_string()),
        function_type: None,
        source: "a.lua".to_string(),
        line: Some(1),
        domain: "Lua".to_string(),
    }
}

#[test]
fn fill_from_drops_what_the_record_lacks() {
    let n = FunctionName::fill_from(
        None,
        String::new(),
        "[C]".to_string(),
        -1,
        "C".to_string(),
    );
    assert_eq!(
        n,
        FunctionName {
            name: None,
            function_type: None,
            source: "[C]".to_string(),
            line: None,
            domain: "C".to_string(),
        }
    );
    assert_eq!(n.render(), "anonymous C function ([C])");
}

#[test]
fn fill_from_keeps_what_the_record_holds() {
    let n = FunctionName::fill_from(
        Some("fib".to_string()),
        "local".to_string(),
        "a.lua".to_string(),
        17,
        "Lua".to_string(),
    );
    assert_eq!(n.name, Some("fib".to_string()));
    assert_eq!(n.function_type, Some("local".to_string()));
    assert_eq!(n.line, Some(17));
    assert_eq!(n.render(), "local Lua function fib (a.lua:17)");
    let n = FunctionName::fill_from(None, String::new(), "a.lua".to_string(), 0, "main".to_string());
    assert_eq!(n.line, Some(0));
    assert_eq!(n.render(), "main chunk of a.lua (a.lua:0)");
}

#[test]
fn resolver_runs_once_per_function() {
    let asked = Cell::new(0u32);
    let f = FunctionKey(7);
    let mut p = Profiler::new();
    assert_eq!(p.begin_session(0), Ok(()));
    for i in 0..5u64 {
        p.call_event_with(f, 1, 2 * i, || {
            asked.set(asked.get() + 1);
            Some(plain("f"))
        });
        p.return_event(1, 2 * i + 1);
    }
    assert_eq!(asked.get(), 1);
    assert_eq!(p.entry(f).unwrap().calls, 5);
    assert_eq!(p.entry(f).unwrap().name, Some(plain("f")));
    assert_eq!(p.entry(f).unwrap().total_time, 5);
}

#[test]
fn resolver_is_not_asked_again_after_a_miss() {
    let asked = Cell::new(0u32);
    let f = FunctionKey(7);
    let mut p = Profiler::new();
    assert_eq!(p.begin_session(0), Ok(()));
    p.call_event_with(f, 1, 0, || {
        asked.set(asked.get() + 1);
        None
    });
    p.call_event_with(f, 2, 1, || {
        asked.set(asked.get() + 1);
        Some(plain("late"))
    });
    p.call_event_with(f, 3, 2, || {
        asked.set(asked.get() + 1);
        Some(plain("later"))
    });
    assert_eq!(asked.get(), 1);
    assert_eq!(p.entry(f).unwrap().name, None);
    assert_eq!(p.entry(f).unwrap().calls, 3);
}

#[test]
fn recorder_asks_the_resolver_once_per_function() {
    let asked = Cell::new(0u32);
    let mut r = Recorder::new();
    assert_eq!(r.begin(), Ok(()));
    for key in [1usize, 2, 1, 1, 2, 3] {
        r.on_call(FunctionKey(key), 1, || {
            asked.set(asked.get() + 1);
            None
        });
        r.on_return(1);
    }
    assert_eq!(asked.get(), 3);
    let result = r.finish();
    assert_eq!(r.profiler().depth(), 0);
    assert_eq!(result.get(FunctionKey(1)).unwrap().calls, 3);
    assert_eq!(result.get(FunctionKey(1)).unwrap().name, None);
}

#[test]
fn hook_codes_are_the_interpreters() {
    assert_eq!(HOOK_CALL, lua::ffi::LUA_HOOKCALL);
    assert_eq!(HOOK_RETURN, lua::ffi::LUA_HOOKRET);
    assert_eq!(HOOK_TAIL_CALL, lua::ffi::LUA_HOOKTAILCALL);
}

#[test]
fn event_kind_tells_calls_from_returns() {
    assert_eq!(event_kind(lua::ffi::LUA_HOOKCALL), Some(EventKind::Call));
    assert_eq!(event_kind(lua::ffi::LUA_HOOKTAILCALL), Some(EventKind::Call));
    assert_eq!(event_kind(lua::ffi::LUA_HOOKRET), Some(EventKind::Return));
    assert_eq!(event_kind(lua::ffi::LUA_HOOKLINE), None);
    assert_eq!(event_kind(lua::ffi::LUA_HOOKCOUNT), None);
    assert_eq!(event_kind(0), Some(EventKind::Call));
    assert_eq!(event_kind(1), Some(EventKind::Return));
    assert_eq!(event_kind(2), None);
    assert_eq!(event_kind(3), None);
    assert_eq!(event_kind(4), Some(EventKind::Call));
    assert_eq!(event_kind(5), None);
    assert_eq!(event_kind(-1), None);
}

#[test]
fn next_reading_never_goes_back() {
    assert_eq!(next_reading(10, 25), 25);
    assert_eq!(next_reading(10, 10), 10);
    assert_eq!(next_reading(10, 3), 10);
    assert_eq!(next_reading(10, u64::MAX as u128), u64::MAX);
    assert_eq!(next_reading(10, u64::MAX as u128 + 1), u64::MAX);
    assert_eq!(next_reading(0, 0), 0);
}

#[test]
fn stopwatch_readings_do_not_decrease() {
    let mut w = Stopwatch::start();
    assert_eq!(w.last(), 0);
    let mut last = 0;
    for _ in 0..1000 {
        let now = w.read();
        assert!(now >= last);
        assert_eq!(w.last(), now);
        last = now;
    }
    wait_millis(2);
    let now = w.read();
    assert!(now >= last + 2_000_000);
    assert!(now < 10_000_000_000);
}

#[test]
fn recorder_times_a_session() {
    let f = FunctionKey(1);
    let g = FunctionKey(2);
    let mut r = Recorder::new();
    assert!(!r.profiler().is_active());
    assert_eq!(r.begin(), Ok(()));
    assert_eq!(r.begin(), Err(SessionError::AlreadyActive));
    r.on_call(f, 1, || Some(plain("f")));
    r.on_call(g, 2, || Some(plain("g")));
    wait_millis(3);
    r.on_return(2);
    r.on_call(g, 2, || Some(plain("other")));
    assert_eq!(r.profiler().depth(), 2);
    let result = r.finish();
    assert!(!r.profiler().is_active());
    assert_eq!(r.profiler().depth(), 0);
    let ef = result.get(f).unwrap();
    let eg = result.get(g).unwrap();
    assert_eq!((ef.calls, ef.recursion_depth), (1, 0));
    assert_eq!((eg.calls, eg.recursion_depth), (2, 0));
    assert_eq!(eg.name, Some(plain("g")));
    assert!(eg.total_self_time >= 3_000_000);
    assert_eq!(eg.total_self_time, eg.total_time);
    assert!(ef.total_self_time <= ef.total_time);
    assert!(ef.total_time >= eg.total_time);
    let session = result.total_time.unwrap();
    assert!(session >= ef.total_time);
    assert_eq!(ef.total_self_time + eg.total_self_time, ef.total_time);
    assert_eq!(r.begin(), Ok(()));
    r.abort();
    assert!(!r.profiler().is_active());
}

#[test]
fn depth_below_is_one_less() {
    assert_eq!(depth_below(2), 1);
    assert_eq!(depth_below(1), 0);
    assert_eq!(depth_below(i32::MAX), 2_147_483_646);
}

#[test]
fn idle_interpreter_is_at_depth_one() {
    let mut state = lua::State::new();
    assert_eq!(get_stack_level(&mut state), 1);
}

#[test]
fn failed_run_leaves_no_result_and_no_session() {
    let mut r = Recorder::new();
    assert_eq!(r.begin(), Ok(()));
    r.on_call(FunctionKey(1), 1, || None);
    r.on_call(FunctionKey(2), 2, || None);
    assert!(r.conclude(false).is_none());
    assert!(!r.profiler().is_active());
    assert_eq!(r.profiler().depth(), 0);
    assert_eq!(r.begin(), Ok(()));
    assert!(r.profiler().entry(FunctionKey(1)).is_none());
}

#[test]
fn successful_run_hands_over_a_closed_result() {
    let mut r = Recorder::new();
    assert_eq!(r.begin(), Ok(()));
    r.on_call(FunctionKey(1), 1, || None);
    r.on_call(FunctionKey(2), 2, || None);
    wait_millis(1);
    let result = r.conclude(true).unwrap();
    assert!(!r.profiler().is_active());
    assert_eq!(result.data.len(), 2);
    for e in result.data.values() {
        assert_eq!(e.recursion_depth, 0);
        assert_eq!(e.calls, 1);
        assert!(e.total_self_time <= e.total_time);
    }
    let session = result.total_time.unwrap();
    assert!(session >= 1_000_000);
    let sum: u64 = result.data.values().map(|e| e.total_self_time).sum();
    assert!(sum <= session);
    assert_eq!(result.get(FunctionKey(1)).unwrap().total_time, sum);
}

#[test]
fn a_level_that_exists_sends_the_search_up() {
    assert_eq!(after_probe(2, true), Probe::Next(3));
    assert_eq!(after_probe(41, true), Probe::Next(42));
    assert_eq!(after_probe(i32::MAX - 2, true), Probe::Next(i32::MAX - 1));
}

#[test]
fn the_first_missing_level_gives_the_depth() {
    assert_eq!(after_probe(2, false), Probe::Depth(1));
    assert_eq!(after_probe(7, false), Probe::Depth(6));
    assert_eq!(after_probe(i32::MAX - 1, true), Probe::Depth(2_147_483_645));
    assert_eq!(after_probe(i32::MAX, false), Probe::Depth(2_147_483_646));
}
