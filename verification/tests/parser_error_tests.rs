use twec::ast::{AssignTarget, DeclKind, Expr, Program, Stmt};
use twec::module::parse_load_error;
use twec::parser::{expr_to_target, make_persistent_state_stmt, make_save_call, stmt_kind_label, ParseError};
use twec::printer::print_program;

fn err(help: Option<&str>) -> ParseError {
    ParseError { line: 3, col: 14, message: "expected `:`".to_string(), help: help.map(|h| h.to_string()) }
}

#[test]
fn parse_error_text_without_help() {
    assert_eq!(err(None).to_text(), "3:14: expected `:`");
}

#[test]
fn parse_error_text_with_help_on_its_own_line() {
    assert_eq!(err(Some("add a colon")).to_text(), "3:14: expected `:`\n  help: add a colon");
}

#[test]
fn parse_failure_becomes_a_load_error_of_the_file() {
    let e = parse_load_error(&err(Some("add a colon")), "lib/util.twe");
    assert_eq!(e.message, "parse error in lib/util.twe: expected `:`");
    assert_eq!(e.help.as_deref(), Some("add a colon"));
    assert_eq!(e.source, "lib/util.twe");
    assert_eq!((e.line, e.col), (3, 14));
    let e = parse_load_error(&err(None), "m.twe");
    assert!(e.help.is_none());
}

#[test]
fn assignment_targets_are_names_and_fields() {
    assert!(matches!(expr_to_target(Expr::Ident("x".to_string())), Some(AssignTarget::Name(n)) if n == "x"));
    let field = Expr::Field { object: Box::new(Expr::SelfRef), name: "hp".to_string() };
    assert!(matches!(
        expr_to_target(field),
        Some(AssignTarget::Field { object: Expr::SelfRef, name }) if name == "hp"
    ));
    assert!(expr_to_target(Expr::Int(3)).is_none());
}

#[test]
fn statement_kinds_are_named() {
    assert_eq!(stmt_kind_label(&Stmt::Break { line: 1 }), "break");
    assert_eq!(stmt_kind_label(&Stmt::Expr(Expr::Int(1), 1)), "expression");
    let d = Stmt::Decl {
        kind: DeclKind::Particles,
        name: "P".to_string(),
        parent: None,
        members: vec![],
        deprecation: None,
        line: 1,
        col: 1,
    };
    assert_eq!(stmt_kind_label(&d), "particles");
}

#[test]
fn desugared_calls_are_built() {
    let s = make_persistent_state_stmt("idle", 4);
    assert_eq!(print_program(&Program { stmts: vec![s] }), "persistent_state(\"idle\")\n");
    let call = make_save_call("set_schema_version", vec![Expr::Int(2)]);
    let p = Program { stmts: vec![Stmt::Expr(call, 1)] };
    assert_eq!(print_program(&p), "save.set_schema_version(2)\n");
}
