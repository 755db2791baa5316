use lprofile_hook::entry::{FunctionKey, ProfilingResult};
use lprofile_hook::name::FunctionName;
use lprofile_hook::profiler::Profiler;
use lprofile_hook::report::ReportRow;

fn global(name: &str, line: usize) -> FunctionName {
    FunctionName {
        name: Some(name.to_string()),
        function_type: Some("global".to_string()),
        source: "run.lua".to_string(),
        line: Some(line),
        domain: "Lua".to_string(),
    }
}

#[test]
fn empty_result_has_no_rows() {
    let r = ProfilingResult::new();
    assert!(r.keys().is_empty());
    assert!(r.rows().is_empty());
}

#[test]
fn keys_list_each_function_once() {
    let mut r = ProfilingResult::new();
    for k in [5usize, 9, 5, 1, 9, 9] {
        r.enter(FunctionKey(k), None);
    }
    let mut keys = r.keys();
    keys.sort_by_key(|k| k.0);
    assert_eq!(keys, vec![FunctionKey(1), FunctionKey(5), FunctionKey(9)]);
}

#[test]
fn rows_show_each_entry_with_its_label() {
    let f = FunctionKey(10);
    let g = FunctionKey(20);
    let mut p = Profiler::new();
    assert_eq!(p.begin_session(0), Ok(()));
    p.call_event(f, 1, 0, Some(global("f", 3)));
    p.call_event(g, 2, 2_000, None);
    p.return_event(2, 9_000);
    p.call_event(g, 2, 9_500, None);
    p.return_event(2, 10_000);
    p.return_event(1, 12_000);
    let result = p.end_session(13_000);
    let mut rows = result.rows();
    rows.sort_by_key(|row| row.key.0);
    assert_eq!(
        rows,
        vec![
            ReportRow {
                key: f,
                name: "global Lua function f (run.lua:3)".to_string(),
                calls: 1,
                total_time: 12_000,
                total_self_time: 4_500,
            },
            ReportRow {
                key: g,
                name: String::new(),
                calls: 2,
                total_time: 7_500,
                total_self_time: 7_500,
            },
        ]
    );
    assert_eq!(result.total_time, Some(13_000));
}
