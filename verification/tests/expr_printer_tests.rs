use twec::ast::{BinOp, Expr, UnOp};
use twec::expr_printer::print_expr;

fn p(e: &Expr) -> String {
    let mut out = String::new();
    print_expr(&mut out, e, 0);
    out
}

fn num(v: i64) -> Expr {
    Expr::Int(v)
}

fn id(n: &str) -> Expr {
    Expr::Ident(n.to_string())
}

fn bin(op: BinOp, l: Expr, r: Expr) -> Expr {
    Expr::Binary { op, left: Box::new(l), right: Box::new(r) }
}

#[test]
fn arithmetic_keeps_only_needed_parentheses() {
    assert_eq!(p(&bin(BinOp::Add, num(1), bin(BinOp::Mul, num(2), num(3)))), "1 + 2 * 3");
    assert_eq!(p(&bin(BinOp::Mul, bin(BinOp::Add, num(1), num(2)), num(3))), "(1 + 2) * 3");
    // Left-associative: a right-hand child at the same level is parenthesised.
    assert_eq!(p(&bin(BinOp::Sub, num(1), bin(BinOp::Sub, num(2), num(3)))), "1 - (2 - 3)");
    assert_eq!(p(&bin(BinOp::Sub, bin(BinOp::Sub, num(1), num(2)), num(3))), "1 - 2 - 3");
    assert_eq!(p(&num(-42)), "-42");
    assert_eq!(p(&num(i64::MIN)), "-9223372036854775808");
}

#[test]
fn short_circuit_operators() {
    assert_eq!(p(&bin(BinOp::Or, bin(BinOp::And, id("a"), id("b")), id("c"))), "a and b or c");
    assert_eq!(p(&bin(BinOp::And, bin(BinOp::Or, id("a"), id("b")), id("c"))), "(a or b) and c");
    let not = Expr::Unary { op: UnOp::Not, operand: Box::new(bin(BinOp::Lt, id("x"), num(3))) };
    assert_eq!(p(&not), "not x < 3");
    let neg = Expr::Unary { op: UnOp::Neg, operand: Box::new(bin(BinOp::Add, id("x"), num(1))) };
    assert_eq!(p(&neg), "-(x + 1)");
}

#[test]
fn tuples_lists_and_calls() {
    assert_eq!(p(&Expr::Tuple(vec![num(3), num(4)])), "(3, 4)");
    assert_eq!(p(&Expr::Tuple(vec![num(1)])), "(1,)");
    assert_eq!(p(&Expr::List(vec![num(1), num(2), num(3)])), "[1, 2, 3]");
    let call = Expr::Call {
        callee: Box::new(id("rect")),
        args: vec![],
        kwargs: vec![
            ("at".to_string(), Expr::Tuple(vec![num(10), num(20)])),
            ("size".to_string(), Expr::Tuple(vec![num(3), num(4)])),
        ],
    };
    assert_eq!(p(&call), "rect(at: (10, 20), size: (3, 4))");
    let call2 = Expr::Call {
        callee: Box::new(Expr::Field { object: Box::new(id("math")), name: "max".to_string() }),
        args: vec![num(1), num(2)],
        kwargs: vec![("by".to_string(), id("k"))],
    };
    assert_eq!(p(&call2), "math.max(1, 2, by: k)");
    let idx = Expr::Index { object: Box::new(id("xs")), index: Box::new(bin(BinOp::Add, id("i"), num(1))) };
    assert_eq!(p(&idx), "xs[i + 1]");
}

#[test]
fn literals_strings_and_ranges() {
    assert_eq!(p(&Expr::Str("hi \"you\"\n".to_string())), "\"hi \\\"you\\\"\\n\"");
    let interp = Expr::Interp { parts: vec!["n = ".to_string(), "".to_string()], exprs: vec![id("n")] };
    assert_eq!(p(&interp), "\"n = {n}\"");
    assert_eq!(p(&Expr::Float("1.5".to_string())), "1.5");
    assert_eq!(p(&Expr::Percent("20".to_string())), "20%");
    assert_eq!(p(&Expr::Quantity { value: "100".to_string(), unit: "ms".to_string() }), "100ms");
    assert_eq!(p(&Expr::Bool(true)), "true");
    assert_eq!(p(&Expr::Hole), "???");
    assert_eq!(p(&Expr::SelfRef), "self");
    let r = Expr::Range { start: Box::new(num(0)), end: Box::new(id("n")), exclusive: true };
    assert_eq!(p(&r), "0..<n");
    let f = Expr::Field { object: Box::new(r), name: "len".to_string() };
    assert_eq!(p(&f), "(0..<n).len");
}

#[test]
fn conditional_expression_is_parenthesised_inside_operators() {
    let c = Expr::IfExpr {
        cond: Box::new(id("a")),
        then_expr: Box::new(num(1)),
        elifs: vec![(id("b"), num(2))],
        else_expr: Box::new(num(3)),
    };
    let mut out = String::new();
    print_expr(&mut out, &c, 0);
    assert_eq!(out, "if a: 1 elif b: 2 else: 3");
    assert_eq!(p(&bin(BinOp::Add, c, num(1))), "(if a: 1 elif b: 2 else: 3) + 1");
}
