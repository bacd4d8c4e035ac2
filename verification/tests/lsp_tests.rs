use twec::lsp::{LspAction, LspEvent, LspServer};
use twec::lsp::{
    diagnostic_position, hover_markdown, identifier_at, name_position_in_source, symbol_kind_to_completion_kind, symbol_range, Symbol, SymbolKind,
};

#[test]
fn identifier_at_finds_word_under_cursor() {
    let text = "let foo = 5\nprint(foo)\n";
    assert_eq!(identifier_at(text, 0, 4).as_deref(), Some("foo"));
    assert_eq!(identifier_at(text, 0, 5).as_deref(), Some("foo"));
    assert_eq!(identifier_at(text, 0, 6).as_deref(), Some("foo"));
    assert_eq!(identifier_at(text, 0, 7).as_deref(), Some("foo"));
    assert_eq!(identifier_at(text, 1, 7).as_deref(), Some("foo"));
    assert_eq!(identifier_at(text, 1, 0).as_deref(), Some("print"));
    assert_eq!(identifier_at(text, 0, 8).as_deref(), None);
}

#[test]
fn identifier_at_handles_underscore_and_digits() {
    let text = "let _hello_2 = 1\n";
    assert_eq!(identifier_at(text, 0, 4).as_deref(), Some("_hello_2"));
    assert_eq!(identifier_at(text, 0, 11).as_deref(), Some("_hello_2"));
}

#[test]
fn identifier_at_returns_none_off_line() {
    let text = "let x = 5\n";
    assert_eq!(identifier_at(text, 99, 0), None);
}

#[test]
fn identifier_at_rejects_words_starting_with_a_digit() {
    let text = "x = 12abc\n";
    assert_eq!(identifier_at(text, 0, 6), None);
    assert_eq!(identifier_at(text, 0, 20), None);
}

#[test]
fn identifier_at_handles_crlf_lines() {
    let text = "let a = 1\r\nlet bee = 2\r\n";
    assert_eq!(identifier_at(text, 1, 7).as_deref(), Some("bee"));
}

fn sym(name: &str, kind: SymbolKind, line: u32, col: u32) -> Symbol {
    Symbol { name: name.to_string(), kind, line, col }
}

#[test]
fn name_position_skips_partial_words() {
    let text = "let name = 1\nlet n = name\n";
    // `n` on line 2 must not match the `n` inside `let` or `name`.
    assert_eq!(name_position_in_source(text, &sym("n", SymbolKind::Let, 2, 1)), (1, 4));
    assert_eq!(name_position_in_source(text, &sym("name", SymbolKind::Let, 1, 1)), (0, 4));
}

#[test]
fn name_position_falls_back_to_recorded_position() {
    let text = "let a = 1\n";
    assert_eq!(name_position_in_source(text, &sym("zzz", SymbolKind::Let, 1, 3)), (0, 2));
    assert_eq!(name_position_in_source(text, &sym("a", SymbolKind::Let, 7, 0)), (6, 0));
    assert_eq!(name_position_in_source(text, &sym("a", SymbolKind::Let, 0, 0)), (0, 4));
}

#[test]
fn name_position_counts_bytes() {
    let text = "let é = 1; let bob = 2\n";
    assert_eq!(name_position_in_source(text, &sym("bob", SymbolKind::Let, 1, 1)), (0, 16));
}

#[test]
fn symbol_kind_labels() {
    assert_eq!(SymbolKind::Let.label(), "let");
    assert_eq!(SymbolKind::InitialState.label(), "initial state");
    assert_eq!(SymbolKind::Particles.label(), "particles");
    assert_eq!(SymbolKind::Field.label(), "field");
}

#[test]
fn completion_kinds() {
    assert_eq!(symbol_kind_to_completion_kind(SymbolKind::Let), 21);
    assert_eq!(symbol_kind_to_completion_kind(SymbolKind::Var), 6);
    assert_eq!(symbol_kind_to_completion_kind(SymbolKind::Function), 3);
    assert_eq!(symbol_kind_to_completion_kind(SymbolKind::Method), 2);
    assert_eq!(symbol_kind_to_completion_kind(SymbolKind::Field), 5);
    assert_eq!(symbol_kind_to_completion_kind(SymbolKind::Scene), 7);
    assert_eq!(symbol_kind_to_completion_kind(SymbolKind::State), 13);
    assert_eq!(symbol_kind_to_completion_kind(SymbolKind::InitialState), 13);
}


fn open(uri: &str, text: &str) -> LspEvent {
    LspEvent::DidOpen(Some((uri.to_string(), text.to_string())))
}

#[test]
fn server_stores_documents_and_publishes() {
    let mut s = LspServer::new();
    match s.handle(open("file:///a.twe", "let foo = 1\n")) {
        LspAction::PublishDiagnostics { uri, text } => {
            assert_eq!(uri, "file:///a.twe");
            assert_eq!(text, "let foo = 1\n");
        }
        _ => panic!("expected diagnostics"),
    }
    assert_eq!(s.document("file:///a.twe").map(|t| t.as_str()), Some("let foo = 1\n"));
    s.handle(LspEvent::DidChange(Some(("file:///a.twe".to_string(), "let bar = 2\n".to_string()))));
    assert_eq!(s.document("file:///a.twe").map(|t| t.as_str()), Some("let bar = 2\n"));
    match s.handle(LspEvent::DidClose(Some("file:///a.twe".to_string()))) {
        LspAction::ClearDiagnostics { uri } => assert_eq!(uri, "file:///a.twe"),
        _ => panic!("expected cleared diagnostics"),
    }
    assert!(s.document("file:///a.twe").is_none());
}

#[test]
fn server_resolves_identifier_under_cursor() {
    let mut s = LspServer::new();
    s.handle(open("u", "let foo = 5\nprint(foo)\n"));
    match s.handle(LspEvent::Definition(Some(("u".to_string(), 1, 7)))) {
        LspAction::ResolveSymbol { hover, uri, name, .. } => {
            assert!(!hover);
            assert_eq!(uri, "u");
            assert_eq!(name, "foo");
        }
        _ => panic!("expected a symbol to resolve"),
    }
    assert!(matches!(
        s.handle(LspEvent::Hover(Some(("u".to_string(), 0, 8)))),
        LspAction::ReplyNull
    ));
    assert!(matches!(
        s.handle(LspEvent::Hover(Some(("missing".to_string(), 0, 0)))),
        LspAction::ReplyNull
    ));
}

#[test]
fn server_completion_needs_an_open_document() {
    let mut s = LspServer::new();
    assert!(matches!(
        s.handle(LspEvent::Completion(Some("u".to_string()))),
        LspAction::ReplyNull
    ));
    s.handle(open("u", "x"));
    match s.handle(LspEvent::Completion(Some("u".to_string()))) {
        LspAction::Complete { text } => assert_eq!(text, "x"),
        _ => panic!("expected completion"),
    }
}

#[test]
fn server_lifecycle_and_unknown_methods() {
    let mut s = LspServer::new();
    assert!(matches!(s.handle(LspEvent::Initialize), LspAction::ReplyCapabilities));
    assert!(matches!(s.handle(LspEvent::Initialized), LspAction::Nothing));
    match s.handle(LspEvent::Other { method: "foo/bar".to_string(), is_request: true }) {
        LspAction::MethodNotFound { message } => assert_eq!(message, "method 'foo/bar' not implemented"),
        _ => panic!("expected method-not-found"),
    }
    assert!(matches!(
        s.handle(LspEvent::Other { method: "$/note".to_string(), is_request: false }),
        LspAction::Nothing
    ));
    assert!(matches!(s.handle(LspEvent::Shutdown), LspAction::ReplyNull));
    assert!(matches!(s.handle(LspEvent::Exit), LspAction::Stop));
}

#[test]
fn server_refuses_requests_and_drops_notifications_after_shutdown() {
    let mut s = LspServer::new();
    s.handle(LspEvent::DidOpen(Some(("file:///a.twe".to_string(), "let x = 1\n".to_string()))));
    assert!(matches!(s.handle(LspEvent::Shutdown), LspAction::ReplyNull));
    match s.handle(LspEvent::Completion(Some("file:///a.twe".to_string()))) {
        LspAction::InvalidRequest { message } => assert_eq!(message, "server has shut down"),
        _ => panic!("expected invalid-request"),
    }
    match s.handle(LspEvent::Shutdown) {
        LspAction::InvalidRequest { .. } => {}
        _ => panic!("expected invalid-request"),
    }
    match s.handle(LspEvent::Other { method: "foo/bar".to_string(), is_request: true }) {
        LspAction::InvalidRequest { .. } => {}
        _ => panic!("expected invalid-request"),
    }
    assert!(matches!(
        s.handle(LspEvent::DidChange(Some(("file:///a.twe".to_string(), "let y = 2\n".to_string())))),
        LspAction::Nothing
    ));
    assert!(matches!(s.handle(LspEvent::DidClose(Some("file:///a.twe".to_string()))), LspAction::Nothing));
    assert_eq!(s.document("file:///a.twe").map(|t| t.as_str()), Some("let x = 1\n"));
    assert!(matches!(s.handle(LspEvent::Exit), LspAction::Stop));
}

#[test]
fn hover_shows_kind_name_and_inferred_type() {
    assert_eq!(hover_markdown(&sym("speed", SymbolKind::Let, 1, 5), Some("float")), "```twe\nlet speed : float\n```");
    assert_eq!(hover_markdown(&sym("speed", SymbolKind::Let, 1, 5), None), "```twe\nlet speed\n```");
    assert_eq!(
        hover_markdown(&sym("add", SymbolKind::Function, 2, 10), Some("function(int, int) -> int")),
        "```twe\nfunction add : function(int, int) -> int\n```"
    );
    assert_eq!(hover_markdown(&sym("bump", SymbolKind::Method, 4, 5), Some("()")), "```twe\nmethod bump : ()\n```");
    assert_eq!(hover_markdown(&sym("a", SymbolKind::InitialState, 3, 5), None), "```twe\ninitial state a\n```");
}

#[test]
fn definition_range_covers_the_name() {
    let text = "let x = 5\nfunction add(a, b):\n    return a + b\n";
    assert_eq!(symbol_range(text, &sym("add", SymbolKind::Function, 2, 1)), (1, 9, 12));
    assert_eq!(symbol_range(text, &sym("x", SymbolKind::Let, 1, 1)), (0, 4, 5));
}

#[test]
fn diagnostics_are_zero_indexed() {
    assert_eq!(diagnostic_position(3, 7), (2, 6));
    assert_eq!(diagnostic_position(0, 0), (0, 0));
    assert_eq!(diagnostic_position(1, 1), (0, 0));
}

#[test]
fn error_actions_carry_json_rpc_codes() {
    use_error_codes();
}

fn use_error_codes() {
    let mut s = LspServer::new();
    let a = s.handle(LspEvent::Other { method: "x/y".to_string(), is_request: true });
    assert_eq!(twec::lsp::error_code(&a), Some(-32601));
    s.handle(LspEvent::Shutdown);
    let a = s.handle(LspEvent::Hover(None));
    assert_eq!(twec::lsp::error_code(&a), Some(-32600));
    assert_eq!(twec::lsp::error_code(&LspAction::ReplyNull), None);
}
