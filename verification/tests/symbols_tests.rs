use twec::ast::{AssignOp, AssignTarget, BinOp, DeclKind, DeclMember, Expr, Param, Program, StateMember, Stmt};
use twec::lsp::{collect_symbols, compute_completions, Builtin, CompletionItem, SymbolKind};

fn s(v: &str) -> String {
    v.to_string()
}

fn names(p: &Program) -> Vec<(String, SymbolKind)> {
    collect_symbols(p).into_iter().map(|x| (x.name, x.kind)).collect()
}

fn own(v: Vec<(&str, SymbolKind)>) -> Vec<(String, SymbolKind)> {
    v.into_iter().map(|(n, k)| (n.to_string(), k)).collect()
}

fn add(a: &str, b: &str) -> Expr {
    Expr::Binary {
        op: BinOp::Add,
        left: Box::new(Expr::Ident(s(a))),
        right: Box::new(Expr::Ident(s(b))),
    }
}

#[test]
fn collect_symbols_picks_up_top_level_decls() {
    // let x = 5 / function add(a, b): return a + b
    let p = Program {
        stmts: vec![
            Stmt::Let { name: s("x"), value: Expr::Int(5), line: 1, col: 1 },
            Stmt::FunctionDecl {
                name: s("add"),
                params: vec![Param { name: s("a"), ty: None }, Param { name: s("b"), ty: None }],
                ret: None,
                body: vec![Stmt::Return { value: Some(add("a", "b")), line: 3 }],
                deprecation: None,
                line: 2,
                col: 1,
            },
        ],
    };
    assert_eq!(names(&p), own(vec![("x", SymbolKind::Let), ("add", SymbolKind::Function)]));
    let syms = collect_symbols(&p);
    assert_eq!((syms[1].line, syms[1].col), (2, 1));
}

#[test]
fn collect_symbols_walks_into_classes() {
    let self_value = Expr::Field { object: Box::new(Expr::SelfRef), name: s("value") };
    let p = Program {
        stmts: vec![Stmt::Decl {
            kind: DeclKind::Item,
            name: s("Counter"),
            parent: None,
            members: vec![
                DeclMember::Field { name: s("value"), value: Expr::Int(0), ty: None, line: 2, col: 5 },
                DeclMember::Method {
                    name: s("bump"),
                    params: vec![Param { name: s("amount"), ty: None }],
                    ret: None,
                    body: vec![Stmt::Assign {
                        target: AssignTarget::Field { object: Expr::SelfRef, name: s("value") },
                        op: AssignOp::Plain,
                        value: Expr::Binary {
                            op: BinOp::Add,
                            left: Box::new(self_value),
                            right: Box::new(Expr::Ident(s("amount"))),
                        },
                        line: 5,
                    }],
                    line: 4,
                    col: 5,
                },
            ],
            deprecation: None,
            line: 1,
            col: 1,
        }],
    };
    assert_eq!(
        names(&p),
        own(vec![("Counter", SymbolKind::Item), ("value", SymbolKind::Field), ("bump", SymbolKind::Method)])
    );
}

#[test]
fn collect_symbols_walks_into_scenes_and_states() {
    let every = StateMember::Every {
        interval: Expr::Quantity { value: s("100"), unit: s("ms") },
        body: vec![Stmt::Assign {
            target: AssignTarget::Name(s("n")),
            op: AssignOp::AddAssign,
            value: Expr::Int(1),
            line: 6,
        }],
        line: 5,
    };
    let p = Program {
        stmts: vec![Stmt::Decl {
            kind: DeclKind::Scene,
            name: s("S"),
            parent: None,
            members: vec![
                DeclMember::Field { name: s("n"), value: Expr::Int(0), ty: None, line: 2, col: 5 },
                DeclMember::InitialState { name: s("a"), line: 3, col: 5 },
                DeclMember::State { name: s("a"), members: vec![every], line: 4, col: 5 },
                DeclMember::State { name: s("done"), members: vec![], line: 7, col: 5 },
            ],
            deprecation: None,
            line: 1,
            col: 1,
        }],
    };
    let kinds = names(&p);
    assert!(kinds.contains(&(s("S"), SymbolKind::Scene)));
    assert!(kinds.contains(&(s("n"), SymbolKind::Field)));
    assert!(kinds.contains(&(s("a"), SymbolKind::InitialState)));
    assert!(kinds.contains(&(s("a"), SymbolKind::State)));
    assert!(kinds.contains(&(s("done"), SymbolKind::State)));
}

#[test]
fn nested_blocks_are_walked_but_function_bodies_are_not() {
    let inner_let = Stmt::Let { name: s("inside"), value: Expr::Int(1), line: 3, col: 5 };
    let hidden = Stmt::Let { name: s("hidden"), value: Expr::Int(1), line: 8, col: 5 };
    let p = Program {
        stmts: vec![
            Stmt::If {
                cond: Expr::Bool(true),
                then_body: vec![inner_let],
                elifs: vec![(Expr::Bool(false), vec![Stmt::Let { name: s("e"), value: Expr::Int(2), line: 5, col: 5 }])],
                else_body: Some(vec![Stmt::While {
                    cond: Expr::Bool(true),
                    body: vec![Stmt::Let { name: s("w"), value: Expr::Int(3), line: 7, col: 9 }],
                    line: 6,
                }]),
                line: 1,
            },
            Stmt::FunctionDecl {
                name: s("f"),
                params: vec![],
                ret: None,
                body: vec![hidden],
                deprecation: None,
                line: 8,
                col: 1,
            },
            Stmt::Expr(Expr::Ident(s("f")), 9),
        ],
    };
    assert_eq!(
        names(&p),
        own(vec![
            ("inside", SymbolKind::Let),
            ("e", SymbolKind::Let),
            ("w", SymbolKind::Let),
            ("f", SymbolKind::Function)
        ])
    );
}


fn labels(items: &[CompletionItem]) -> Vec<String> {
    items.iter().map(|c| c.label.clone()).collect()
}

fn builtins() -> Vec<Builtin> {
    vec![
        Builtin::Function(s("print")),
        Builtin::Namespace(s("math"), vec![s("abs"), s("sqrt")]),
        Builtin::Function(s("load")),
    ]
}

#[test]
fn completion_includes_user_let_with_inferred_type() {
    let p = Program { stmts: vec![Stmt::Let { name: s("n"), value: Expr::Int(42), line: 1, col: 1 }] };
    let items = compute_completions(Some(&p), &vec![(s("n"), s("int"))], &builtins());
    let n = &items[0];
    assert_eq!(n.label, "n");
    assert_eq!(n.kind, 21);
    assert_eq!(n.detail.as_deref(), Some("int"));
}

#[test]
fn completion_includes_keywords_and_stdlib() {
    let p = Program { stmts: vec![Stmt::Let { name: s("x"), value: Expr::Int(1), line: 1, col: 1 }] };
    let items = compute_completions(Some(&p), &vec![], &builtins());
    let l = labels(&items);
    assert!(l.contains(&s("for")), "no `for` keyword");
    assert!(l.contains(&s("print")), "no `print` builtin");
    assert!(l.contains(&s("load")), "no `load` builtin");
    assert!(l.contains(&s("math")) && l.contains(&s("math.abs")) && l.contains(&s("math.sqrt")));
    // The user's `x`, then 34 keywords, then the globals in order.
    assert_eq!(items.len(), 1 + 34 + 5);
    assert_eq!(items[0].detail, None);
    assert_eq!(items[1].label, "and");
    assert_eq!(items[1].kind, 14);
    assert_eq!(items[35].label, "print");
    assert_eq!(items[35].kind, 3);
    assert_eq!((items[36].label.as_str(), items[36].kind), ("math", 6));
    assert_eq!((items[37].label.as_str(), items[37].kind), ("math.abs", 3));
}

#[test]
fn completion_survives_unparseable_file() {
    let items = compute_completions(None, &vec![], &builtins());
    let l = labels(&items);
    assert!(l.contains(&s("function")));
    assert!(l.contains(&s("print")));
    assert_eq!(items.len(), 34 + 5);
}

#[test]
fn completion_marks_user_function_with_function_kind() {
    let p = Program {
        stmts: vec![Stmt::FunctionDecl {
            name: s("greet"),
            params: vec![],
            ret: None,
            body: vec![Stmt::Return { value: Some(Expr::Int(0)), line: 2 }],
            deprecation: None,
            line: 1,
            col: 1,
        }],
    };
    let items = compute_completions(Some(&p), &vec![], &vec![]);
    assert_eq!((items[0].label.as_str(), items[0].kind), ("greet", 3));
}
