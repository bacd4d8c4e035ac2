use twec::ast::{
    AssignOp, AssignTarget, BinOp, DeclKind, DeclMember, Deprecation, Expr, Param, Program, StateMember, Stmt,
};
use twec::printer::{print_program, print_program_with_trivia};

fn num(v: i64) -> Expr {
    Expr::Int(v)
}

fn id(n: &str) -> Expr {
    Expr::Ident(n.to_string())
}

fn s(v: &str) -> String {
    v.to_string()
}

fn bin(op: BinOp, l: Expr, r: Expr) -> Expr {
    Expr::Binary { op, left: Box::new(l), right: Box::new(r) }
}

fn call(f: &str, args: Vec<Expr>) -> Expr {
    Expr::Call { callee: Box::new(id(f)), args, kwargs: vec![] }
}

fn let_(name: &str, value: Expr, line: u32) -> Stmt {
    Stmt::Let { name: s(name), value, line, col: 1 }
}

fn expr(e: Expr, line: u32) -> Stmt {
    Stmt::Expr(e, line)
}

fn param(n: &str) -> Param {
    Param { name: s(n), ty: None }
}

fn fmt(stmts: Vec<Stmt>) -> String {
    print_program(&Program { stmts })
}

#[test]
fn formats_let() {
    assert_eq!(fmt(vec![let_("x", num(5), 1)]), "let x = 5\n");
}

#[test]
fn formats_arithmetic_with_precedence() {
    let a = bin(BinOp::Add, num(1), bin(BinOp::Mul, num(2), num(3)));
    assert_eq!(fmt(vec![let_("x", a, 1)]), "let x = 1 + 2 * 3\n");
    let b = bin(BinOp::Mul, bin(BinOp::Add, num(1), num(2)), num(3));
    assert_eq!(fmt(vec![let_("x", b, 1)]), "let x = (1 + 2) * 3\n");
}

#[test]
fn formats_string_and_interpolation() {
    assert_eq!(fmt(vec![expr(call("print", vec![Expr::Str(s("hi"))]), 1)]), "print(\"hi\")\n");
    let interp = Expr::Interp { parts: vec![s("n = "), s("")], exprs: vec![id("n")] };
    assert_eq!(
        fmt(vec![let_("n", num(5), 1), expr(call("print", vec![interp]), 2)]),
        "let n = 5\nprint(\"n = {n}\")\n"
    );
}

#[test]
fn formats_if_elif_else() {
    let st = Stmt::If {
        cond: bin(BinOp::Lt, id("x"), num(3)),
        then_body: vec![expr(call("print", vec![num(1)]), 2)],
        elifs: vec![(bin(BinOp::Lt, id("x"), num(6)), vec![expr(call("print", vec![num(2)]), 4)])],
        else_body: Some(vec![expr(call("print", vec![num(3)]), 6)]),
        line: 1,
    };
    assert_eq!(fmt(vec![st]), "if x < 3:\n    print(1)\nelif x < 6:\n    print(2)\nelse:\n    print(3)\n");
}

#[test]
fn formats_for_over_range() {
    let st = Stmt::For {
        var: s("i"),
        iter: Expr::Range { start: Box::new(num(0)), end: Box::new(num(5)), exclusive: true },
        body: vec![expr(call("print", vec![id("i")]), 2)],
        line: 1,
    };
    assert_eq!(fmt(vec![st]), "for i in 0..<5:\n    print(i)\n");
}

#[test]
fn formats_function_decl() {
    let st = Stmt::FunctionDecl {
        name: s("add"),
        params: vec![param("a"), param("b")],
        ret: None,
        body: vec![Stmt::Return { value: Some(bin(BinOp::Add, id("a"), id("b"))), line: 2 }],
        deprecation: None,
        line: 1,
        col: 1,
    };
    assert_eq!(fmt(vec![st]), "function add(a, b):\n    return a + b\n");
}

fn self_field(n: &str) -> Expr {
    Expr::Field { object: Box::new(Expr::SelfRef), name: s(n) }
}

fn counter(field: &str) -> Stmt {
    Stmt::Decl {
        kind: DeclKind::Item,
        name: s("Counter"),
        parent: None,
        members: vec![
            DeclMember::Field { name: s(field), value: num(0), ty: None, line: 2, col: 5 },
            DeclMember::Method {
                name: s("bump"),
                params: vec![param("amount")],
                ret: None,
                body: vec![Stmt::Assign {
                    target: AssignTarget::Field { object: Expr::SelfRef, name: s(field) },
                    op: AssignOp::Plain,
                    value: bin(BinOp::Add, self_field(field), id("amount")),
                    line: 5,
                }],
                line: 4,
                col: 5,
            },
        ],
        deprecation: None,
        line: 1,
        col: 1,
    }
}

#[test]
fn formats_method_with_self_field() {
    let want = "item Counter:\n    n: 0\n\n    bump(amount):\n        self.n = self.n + amount\n";
    assert_eq!(fmt(vec![counter("n")]), want);
}

#[test]
fn formats_scene_with_state_and_every() {
    let every = StateMember::Every {
        interval: Expr::Quantity { value: s("100"), unit: s("ms") },
        body: vec![Stmt::Assign {
            target: AssignTarget::Name(s("n")),
            op: AssignOp::AddAssign,
            value: num(1),
            line: 8,
        }],
        line: 7,
    };
    let scene = Stmt::Decl {
        kind: DeclKind::Scene,
        name: s("S"),
        parent: None,
        members: vec![
            DeclMember::Field { name: s("n"), value: num(0), ty: Some(s("int")), line: 2, col: 5 },
            DeclMember::InitialState { name: s("a"), line: 4, col: 5 },
            DeclMember::State { name: s("a"), members: vec![every], line: 6, col: 5 },
        ],
        deprecation: None,
        line: 1,
        col: 1,
    };
    let got = fmt(vec![scene]);
    assert!(got.contains("scene S:\n"), "got: {got}");
    assert!(got.contains("    n: int = 0\n"), "got: {got}");
    assert!(got.contains("    initial: a\n"), "got: {got}");
    assert!(got.contains("    state a:\n"), "got: {got}");
    assert!(got.contains("        every 100ms:\n"), "got: {got}");
    assert!(got.contains("            n += 1\n"), "got: {got}");
}

#[test]
fn formats_tuple_and_list_literals() {
    assert_eq!(fmt(vec![let_("p", Expr::Tuple(vec![num(3), num(4)]), 1)]), "let p = (3, 4)\n");
    assert_eq!(fmt(vec![let_("xs", Expr::List(vec![num(1), num(2), num(3)]), 1)]), "let xs = [1, 2, 3]\n");
    assert_eq!(fmt(vec![let_("t", Expr::Tuple(vec![num(1)]), 1)]), "let t = (1,)\n");
}

#[test]
fn formats_keyword_args() {
    let e = Expr::Call {
        callee: Box::new(id("rect")),
        args: vec![],
        kwargs: vec![
            (s("at"), Expr::Tuple(vec![num(10), num(20)])),
            (s("size"), Expr::Tuple(vec![num(3), num(4)])),
        ],
    };
    assert_eq!(fmt(vec![expr(e, 1)]), "rect(at: (10, 20), size: (3, 4))\n");
}

#[test]
fn formats_short_circuit_and_or_with_parens_when_needed() {
    let a = bin(BinOp::Or, bin(BinOp::And, id("a"), id("b")), id("c"));
    assert_eq!(fmt(vec![let_("x", a, 1)]), "let x = a and b or c\n");
    let b = bin(BinOp::And, bin(BinOp::Or, id("a"), id("b")), id("c"));
    assert_eq!(fmt(vec![let_("x", b, 1)]), "let x = (a or b) and c\n");
}

#[test]
fn idempotent_on_method_program() {
    // The program the canonical source below parses to prints back as
    // that same source, so formatting it again changes nothing.
    let src = "item Counter:\n    value: 0\n\n    bump(amount):\n        self.value = self.value + amount\n\nlet c = Counter()\nprint(c.value)\nc.bump(5)\nprint(c.value)\n";
    let c_value = Expr::Field { object: Box::new(id("c")), name: s("value") };
    let bump = Expr::Call {
        callee: Box::new(Expr::Field { object: Box::new(id("c")), name: s("bump") }),
        args: vec![num(5)],
        kwargs: vec![],
    };
    let once = fmt(vec![
        counter("value"),
        let_("c", call("Counter", vec![]), 7),
        expr(call("print", vec![c_value]), 8),
        expr(bump, 9),
        expr(call("print", vec![Expr::Field { object: Box::new(id("c")), name: s("value") }]), 10),
    ]);
    assert_eq!(once, src, "fmt should be idempotent");
}

#[test]
fn empty_program_prints_nothing() {
    assert_eq!(fmt(vec![]), "");
}

#[test]
fn blank_lines_only_around_declarations() {
    let f = Stmt::FunctionDecl {
        name: s("f"),
        params: vec![],
        ret: Some(s("int")),
        body: vec![Stmt::Return { value: Some(num(1)), line: 3 }],
        deprecation: Some(Deprecation { since: Some(s("v1.2")) }),
        line: 2,
        col: 1,
    };
    let got = fmt(vec![let_("a", num(1), 1), let_("b", num(2), 1), f, let_("c", num(3), 5)]);
    assert_eq!(
        got,
        "let a = 1\nlet b = 2\n\n@deprecated(\"v1.2\")\nfunction f() -> int:\n    return 1\n\nlet c = 3\n"
    );
}

#[test]
fn empty_bodies_print_a_no_op() {
    let w = Stmt::While { cond: Expr::Bool(true), body: vec![], line: 1 };
    assert_eq!(fmt(vec![w]), "while true:\n    0\n");
    let st = Stmt::Decl {
        kind: DeclKind::Entity,
        name: s("E"),
        parent: Some(s("Base")),
        members: vec![DeclMember::State { name: s("done"), members: vec![], line: 2, col: 5 }],
        deprecation: None,
        line: 1,
        col: 1,
    };
    assert_eq!(fmt(vec![st]), "entity E extends Base:\n    state done:\n");
}

#[test]
fn statements_without_bodies() {
    let stmts = vec![
        Stmt::Transition { target: s("Menu"), line: 1 },
        Stmt::Spawn { class: s("Coin"), at: Some(Expr::Tuple(vec![num(1), num(2)])), line: 2 },
        Stmt::Despawn { target: Expr::SelfRef, line: 3 },
        Stmt::Wait { duration: Expr::Quantity { value: s("2"), unit: s("s") }, line: 4 },
        Stmt::Say { actor: Some(id("bob")), text: Expr::Str(s("hi")), line: 5 },
        Stmt::Import { path: s("lib/a\"b"), alias: Some(s("a")), line: 6, col: 1 },
        Stmt::Break { line: 7 },
        Stmt::Continue { line: 8 },
        Stmt::Return { value: None, line: 9 },
    ];
    assert_eq!(
        fmt(stmts),
        "-> Menu\nspawn Coin at (1, 2)\ndespawn self\nwait 2s\nsay bob: \"hi\"\nimport \"lib/a\\\"b\" as a\nbreak\ncontinue\nreturn\n"
    );
}

#[test]
fn choice_and_handlers() {
    let choice = Stmt::Choice {
        branches: vec![(Expr::Str(s("yes")), vec![let_("a", num(1), 3)])],
        line: 2,
    };
    let dialogue = Stmt::DialogueDecl { name: s("intro"), body: vec![choice], line: 1 };
    assert_eq!(fmt(vec![dialogue]), "dialogue intro:\n    choice:\n        \"yes\":\n            let a = 1\n");
    let on = Stmt::OnClassEvent {
        class: s("Player"),
        event: s("hit"),
        param: s("e"),
        body: vec![expr(call("print", vec![id("e")]), 2)],
        line: 1,
    };
    let upd = Stmt::OnUpdate { param: s("dt"), body: vec![let_("x", num(1), 4)], line: 4 };
    assert_eq!(
        fmt(vec![on, upd]),
        "on Player.hit(e):\n    print(e)\n\non update(dt):\n    let x = 1\n"
    );
}

#[test]
fn trivia_is_kept_before_its_line() {
    let src = "# header\nlet a = 1\n\n# about b\nlet b = 2\n";
    let p = Program { stmts: vec![let_("a", num(1), 2), let_("b", num(2), 5)] };
    assert_eq!(print_program_with_trivia(&p, src), "# header\nlet a = 1\n\n# about b\nlet b = 2\n");
    // Without trivia, the same program prints compactly.
    assert_eq!(print_program(&p), "let a = 1\nlet b = 2\n");
}

#[test]
fn trailing_comments_and_block_comments_are_kept() {
    let src = "let a = 1\n#- two\nlines -#\nif a:\n    # inside\n    let b = 2\n# tail\n\n\n";
    let body = vec![let_("b", num(2), 6)];
    let p = Program {
        stmts: vec![
            let_("a", num(1), 1),
            Stmt::If { cond: id("a"), then_body: body, elifs: vec![], else_body: None, line: 4 },
        ],
    };
    // The line a block comment closes on holds no code, so it also
    // counts as a blank line.
    assert_eq!(
        print_program_with_trivia(&p, src),
        "let a = 1\n#- two\nlines -#\n\nif a:\n    # inside\n    let b = 2\n# tail\n"
    );
}
