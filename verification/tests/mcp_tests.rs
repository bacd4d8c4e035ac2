use twec::ast::{Expr, Program, Stmt};
use twec::mcp::{tool_format, FrontEndError};
use twec::mcp::{
    apply_edits, dispatch_tool, line_col_to_byte, param_kind, Edit, McpHandler, McpMessage,
    McpReply, Tool, INVALID_PARAMS, METHOD_NOT_FOUND, PARSE_ERROR,
};

fn call(method: &str, is_notification: bool) -> McpMessage {
    McpMessage::Call { method: method.to_string(), is_notification }
}

#[test]
fn handler_answers_lifecycle_messages() {
    let mut h = McpHandler::new();
    assert!(matches!(h.handle(call("initialize", false)), McpReply::ServerInfo));
    assert!(h.initialised);
    assert!(matches!(h.handle(call("notifications/initialized", true)), McpReply::Silent));
    assert!(matches!(h.handle(call("tools/list", false)), McpReply::ToolList));
    assert!(matches!(h.handle(call("tools/call", false)), McpReply::CallTool));
    assert!(matches!(h.handle(call("shutdown", false)), McpReply::Null));
    assert!(h.shutdown_received);
    assert!(!h.should_exit());
    assert!(h.serve_stops());
}

#[test]
fn handler_stops_on_exit_without_shutdown() {
    let mut h = McpHandler::new();
    assert!(!h.should_exit());
    assert!(matches!(h.handle(call("tools/list", false)), McpReply::ToolList));
    assert!(!h.should_exit());
    assert!(matches!(h.handle(call("exit", true)), McpReply::Silent));
    assert!(h.should_exit());
    assert!(h.serve_stops());
}

#[test]
fn handler_rejects_unknown_requests_and_bad_lines() {
    let mut h = McpHandler::new();
    match h.handle(call("totally/unknown", false)) {
        McpReply::Error { code, message } => {
            assert_eq!(code, METHOD_NOT_FOUND);
            assert_eq!(message, "method not found: totally/unknown");
        }
        _ => panic!("expected an error"),
    }
    assert!(matches!(h.handle(call("totally/unknown", true)), McpReply::Silent));
    match h.handle(McpMessage::Malformed("expected value".to_string())) {
        McpReply::Error { code, message } => {
            assert_eq!(code, PARSE_ERROR);
            assert_eq!(message, "parse error: expected value");
        }
        _ => panic!("expected a parse error"),
    }
}

#[test]
fn tools_are_dispatched_by_name() {
    assert_eq!(dispatch_tool("apply_patch"), Ok(Tool::ApplyPatch));
    assert_eq!(dispatch_tool("stdlib_lookup"), Ok(Tool::StdlibLookup));
    assert_eq!(dispatch_tool("grammar"), Ok(Tool::Grammar));
    assert_eq!(
        dispatch_tool("nope"),
        Err((INVALID_PARAMS, "unknown tool: nope".to_string()))
    );
}

#[test]
fn parameter_kinds_follow_descriptions() {
    assert_eq!(param_kind("Boolean — emit deprecation warnings"), "boolean");
    assert_eq!(param_kind("Array of {line, col, len, replace}"), "array");
    assert_eq!(param_kind("Twe source code"), "string");
}

#[test]
fn line_col_positions_are_byte_offsets() {
    assert_eq!(line_col_to_byte("ab\ncd", 1, 1), 0);
    assert_eq!(line_col_to_byte("ab\ncd", 2, 2), 4);
    assert_eq!(line_col_to_byte("ab\ncd", 3, 1), 5);
    assert_eq!(line_col_to_byte("ab\n", 2, 3), 5);
    assert_eq!(line_col_to_byte("é\nx", 2, 1), 3);
}

fn edit(line: u32, col: u32, len: u32, replace: &str) -> Edit {
    Edit { line, col, len, replace: replace.to_string() }
}

#[test]
fn apply_patch_replaces_text() {
    let patched = apply_edits("let y = aple\n", &vec![edit(1, 9, 4, "apple")]);
    assert_eq!(patched, "let y = apple\n");
}

#[test]
fn apply_edits_goes_right_to_left_and_keeps_ties_in_order() {
    assert_eq!(
        apply_edits("0123456789", &vec![edit(1, 1, 1, "A"), edit(1, 5, 2, "BB")]),
        "A123BB6789"
    );
    assert_eq!(
        apply_edits("0123456789", &vec![edit(1, 1, 0, "x"), edit(1, 1, 0, "y")]),
        "yx0123456789"
    );
    assert_eq!(apply_edits("abc", &vec![edit(1, 3, 10, "Z")]), "abZ");
    assert_eq!(apply_edits("abc", &vec![edit(9, 1, 1, "!")]), "abc!");
}

#[test]
fn apply_edits_land_at_their_anchors_in_either_order() {
    let src = "let a = 1\nlet b = 2\n";
    let first = edit(1, 5, 1, "alpha");
    let second = edit(2, 9, 1, "22");
    let want = "let alpha = 1\nlet b = 22\n";
    assert_eq!(apply_edits(src, &vec![first, second]), want);
    let first = edit(1, 5, 1, "alpha");
    let second = edit(2, 9, 1, "22");
    assert_eq!(apply_edits(src, &vec![second, first]), want);
}

#[test]
fn tools_list_includes_canonical_tools() {
    let table = twec::mcp::tool_table();
    let names: Vec<&str> = table.iter().map(|t| t.name.as_str()).collect();
    for name in &["parse", "verify", "format", "grammar", "stdlib_list", "stdlib_lookup", "apply_patch"] {
        assert!(names.contains(name), "tools/list missing {name}");
    }
    assert_eq!(names, vec!["parse", "verify", "format", "grammar", "stdlib_list", "stdlib_lookup", "apply_patch"]);
    let patch = &table[6];
    assert_eq!(patch.params.len(), 2);
    assert_eq!(param_kind(&patch.params[1].description), "array");
    assert!(patch.params.iter().all(|p| p.required));
    let verify = &table[1];
    assert_eq!(param_kind(&verify.params[2].description), "boolean");
    assert!(!verify.params[2].required);
}

fn args(line: Option<i64>, col: Option<i64>, len: Option<i64>, replace: Option<&str>) -> twec::mcp::EditArgs {
    twec::mcp::EditArgs {
        line,
        col,
        len,
        replace: replace.map(|s| s.to_string()),
        shown: format!("{{line:{line:?},col:{col:?}}}"),
    }
}

#[test]
fn tools_call_apply_patch_replaces_text() {
    let edits = twec::mcp::decode_edits(Some(&vec![args(Some(1), Some(9), Some(4), Some("apple"))])).unwrap();
    assert_eq!(apply_edits("let y = aple\n", &edits), "let y = apple\n");
    let via_tool = twec::mcp::tool_apply_patch(
        "let y = aple\n",
        Some(&vec![args(Some(1), Some(9), Some(4), Some("apple"))]),
    );
    assert_eq!(via_tool, Ok("let y = apple\n".to_string()));
}

#[test]
fn apply_patch_tool_refuses_what_it_cannot_apply() {
    // A cut inside the two bytes of `é` is refused, not applied.
    let r = twec::mcp::tool_apply_patch("caf\u{e9}!", Some(&vec![args(Some(1), Some(5), Some(1), Some("x"))]));
    assert_eq!(r, Err((INVALID_PARAMS, "edit does not fall on a character boundary".to_string())));
    // A cut on the boundary after it is applied.
    let ok = twec::mcp::tool_apply_patch("caf\u{e9}!", Some(&vec![args(Some(1), Some(6), Some(1), Some("?"))]));
    assert_eq!(ok, Ok("caf\u{e9}?".to_string()));
    // The decoder's errors come through unchanged.
    let missing = twec::mcp::tool_apply_patch("x", None);
    assert_eq!(missing, Err((INVALID_PARAMS, "missing `edits` array".to_string())));
    let zero = vec![args(Some(0), Some(1), None, None)];
    let bad = twec::mcp::tool_apply_patch("x", Some(&zero));
    assert_eq!(bad, Err((INVALID_PARAMS, format!("edit anchor must be 1-based: {}", zero[0].shown))));
}

#[test]
fn decode_edits_refuses_zero_anchors_and_a_missing_array() {
    use_decode_errors();
}

fn use_decode_errors() {
    match twec::mcp::decode_edits(None) {
        Err((code, m)) => {
            assert_eq!(code, INVALID_PARAMS);
            assert_eq!(m, "missing `edits` array");
        }
        Ok(_) => panic!("expected an error"),
    }
    let bad = vec![args(Some(1), Some(1), None, None), args(Some(0), Some(3), Some(1), Some("x"))];
    match twec::mcp::decode_edits(Some(&bad)) {
        Err((code, m)) => {
            assert_eq!(code, INVALID_PARAMS);
            assert_eq!(m, format!("edit anchor must be 1-based: {}", bad[1].shown));
        }
        Ok(_) => panic!("expected an error"),
    }
    let ok = twec::mcp::decode_edits(Some(&vec![args(Some(2), Some(1), None, None)])).unwrap();
    assert_eq!((ok[0].line, ok[0].col, ok[0].len, ok[0].replace.as_str()), (2, 1, 0, ""));
    assert!(twec::mcp::decode_edits(Some(&vec![args(None, Some(1), None, None)])).is_err());
}

#[test]
fn format_tool_keeps_comments_and_names_the_failing_stage() {
    let src = "# note\nlet  x=1\n";
    let p = Program { stmts: vec![Stmt::Let { name: "x".to_string(), value: Expr::Int(1), line: 2, col: 1 }] };
    assert_eq!(tool_format(src, Ok(&p)), Ok("# note\nlet x = 1\n".to_string()));
    assert_eq!(
        tool_format(src, Err(FrontEndError::Lex("bad char".to_string()))),
        Err((INVALID_PARAMS, "lex: bad char".to_string()))
    );
    assert_eq!(
        tool_format(src, Err(FrontEndError::Parse("expected `:`".to_string()))),
        Err((INVALID_PARAMS, "parse: expected `:`".to_string()))
    );
}
