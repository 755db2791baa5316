use lprofile_hook::name::{label, FunctionName};

fn base() -> FunctionName {
    FunctionName {
        name: None,
        function_type: None,
        source: "test.lua".to_string(),
        line: None,
        domain: "Lua".to_string(),
    }
}

#[test]
fn main_chunk_names_its_source_twice() {
    let n = FunctionName { domain: "main".to_string(), line: Some(0), ..base() };
    assert_eq!(n.render(), "main chunk of test.lua (test.lua:0)");
    let n = FunctionName { domain: "main".to_string(), ..base() };
    assert_eq!(n.render(), "main chunk of test.lua (test.lua)");
}

#[test]
fn main_chunk_ignores_name_and_kind() {
    let n = FunctionName {
        domain: "main".to_string(),
        name: Some("f".to_string()),
        function_type: Some("global".to_string()),
        ..base()
    };
    assert_eq!(n.render(), "main chunk of test.lua (test.lua)");
}

#[test]
fn anonymous_function_has_no_placeholders() {
    assert_eq!(base().render(), "anonymous Lua function (test.lua)");
    let n = FunctionName { line: Some(12), ..base() };
    assert_eq!(n.render(), "anonymous Lua function (test.lua:12)");
}

#[test]
fn named_function_with_kind_and_line() {
    let n = FunctionName {
        name: Some("fib".to_string()),
        function_type: Some("global".to_string()),
        line: Some(1207),
        ..base()
    };
    assert_eq!(n.render(), "global Lua function fib (test.lua:1207)");
}

#[test]
fn named_function_without_kind() {
    let n = FunctionName { name: Some("fib".to_string()), ..base() };
    assert_eq!(n.render(), "Lua function fib (test.lua)");
}

#[test]
fn native_function_with_kind_only() {
    let n = FunctionName {
        function_type: Some("method".to_string()),
        source: "[C]".to_string(),
        domain: "C".to_string(),
        ..base()
    };
    assert_eq!(n.render(), "anonymous method C function ([C])");
}

#[test]
fn line_is_written_in_decimal() {
    let n = FunctionName { line: Some(9), ..base() };
    assert_eq!(n.render(), "anonymous Lua function (test.lua:9)");
    let n = FunctionName { line: Some(10), ..base() };
    assert_eq!(n.render(), "anonymous Lua function (test.lua:10)");
    let n = FunctionName { line: Some(4_294_967_295), ..base() };
    assert_eq!(n.render(), "anonymous Lua function (test.lua:4294967295)");
}

#[test]
fn unresolved_name_has_an_empty_label() {
    assert_eq!(label(&None), "");
    assert_eq!(label(&Some(base())), "anonymous Lua function (test.lua)");
}

#[test]
fn push_decimal_appends_the_numeral() {
    let mut s = String::from("n=");
    lprofile_hook::name::push_decimal(&mut s, 0);
    assert_eq!(s, "n=0");
    lprofile_hook::name::push_decimal(&mut s, 1207);
    assert_eq!(s, "n=01207");
    let mut s = String::new();
    lprofile_hook::name::push_decimal(&mut s, usize::MAX);
    assert_eq!(s, usize::MAX.to_string());
    let mut s = String::new();
    lprofile_hook::name::push_decimal(&mut s, 1000);
    assert_eq!(s, "1000");
}
