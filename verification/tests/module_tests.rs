use twec::module::{check_import_path, import_binding_name, import_cycle_error, topo_order, LoadedModule, ModuleGraph};

#[test]
fn import_binding_name_uses_basename() {
    assert_eq!(import_binding_name("math", None), "math");
    assert_eq!(import_binding_name("math/vec2", None), "vec2");
    assert_eq!(
        import_binding_name("physics/forces", Some("Forces")),
        "Forces"
    );
}

#[test]
fn import_binding_name_of_trailing_slash_is_empty() {
    assert_eq!(import_binding_name("a/", None), "");
    assert_eq!(import_binding_name("", None), "");
}

#[test]
fn check_import_path_splits_pieces() {
    assert_eq!(
        check_import_path("math/vec2"),
        Ok(vec!["math".to_string(), "vec2".to_string()])
    );
    assert_eq!(check_import_path("helper"), Ok(vec!["helper".to_string()]));
}

#[test]
fn check_import_path_rejects_empty() {
    assert_eq!(check_import_path(""), Err("import path is empty".to_string()));
}

#[test]
fn check_import_path_rejects_dotdot_and_leading_slash() {
    let want = "import path `../escape` must be a relative module name without `..` or leading `/`";
    assert_eq!(check_import_path("../escape"), Err(want.to_string()));
    let want = "import path `/abs` must be a relative module name without `..` or leading `/`";
    assert_eq!(check_import_path("/abs"), Err(want.to_string()));
    assert!(check_import_path("a..b").unwrap_err().contains(".."));
}

#[test]
fn check_import_path_rejects_empty_segment() {
    assert_eq!(
        check_import_path("a//b"),
        Err("import path `a//b` has an empty segment (consecutive `/`)".to_string())
    );
    assert!(check_import_path("a/").is_err());
}

fn module(logical: &str, key: &str, imports: &[&str]) -> LoadedModule {
    LoadedModule {
        logical_path: logical.to_string(),
        canonical_path: key.to_string(),
        imports: imports.iter().map(|s| s.to_string()).collect(),
    }
}

#[test]
fn topo_order_puts_leaves_first() {
    let g = ModuleGraph {
        entry: module("", "/d/main.twe", &["/d/a.twe", "/d/b.twe"]),
        deps: vec![
            module("a", "/d/a.twe", &["/d/shared.twe"]),
            module("b", "/d/b.twe", &["/d/shared.twe"]),
            module("shared", "/d/shared.twe", &[]),
        ],
    };
    let order = topo_order(&g);
    let shared_idx = order.iter().position(|k| k.ends_with("shared.twe")).expect("shared in order");
    let a_idx = order.iter().position(|k| k.ends_with("a.twe")).expect("a in order");
    let b_idx = order.iter().position(|k| k.ends_with("b.twe")).expect("b in order");
    assert!(shared_idx < a_idx, "shared before a: {order:?}");
    assert!(shared_idx < b_idx, "shared before b: {order:?}");
    assert!(!order.iter().any(|k| k.ends_with("main.twe")));
    assert_eq!(order, vec!["/d/shared.twe", "/d/a.twe", "/d/b.twe"]);
}

#[test]
fn topo_order_follows_import_statement_order() {
    let g = ModuleGraph {
        entry: module("", "m", &["c", "x", "a"]),
        deps: vec![
            module("a", "a", &[]),
            module("b", "b", &["a"]),
            module("c", "c", &["b"]),
        ],
    };
    assert_eq!(topo_order(&g), vec!["a", "b", "c"]);
}

#[test]
fn topo_order_skips_unreachable_modules_and_unknown_imports() {
    let g = ModuleGraph {
        entry: module("", "m", &["a", "nowhere"]),
        deps: vec![module("a", "a", &[]), module("z", "z", &[])],
    };
    assert_eq!(topo_order(&g), vec!["a"]);
}

#[test]
fn topo_order_terminates_on_a_cycle() {
    let g = ModuleGraph {
        entry: module("", "m", &["a"]),
        deps: vec![module("a", "a", &["b"]), module("b", "b", &["a"])],
    };
    assert_eq!(topo_order(&g), vec!["b", "a"]);
}

#[test]
fn cycle_error_echoes_the_chain() {
    let chain = vec!["/d/main.twe".to_string(), "/d/a.twe".to_string(), "/d/b.twe".to_string()];
    let e = import_cycle_error(&chain, "/d/a.twe", "/d/b.twe", 1, 1).unwrap();
    assert!(e.message.contains("cycle"));
    assert_eq!(
        e.message,
        "import cycle detected: /d/main.twe -> /d/a.twe -> /d/b.twe -> /d/a.twe"
    );
    assert_eq!(e.source, "/d/b.twe");
    assert_eq!((e.line, e.col), (1, 1));
    assert!(e.help.unwrap().contains("DAG"));
    assert!(import_cycle_error(&chain, "/d/c.twe", "/d/b.twe", 1, 1).is_none());
}

#[test]
fn canonical_key_is_the_path_text() {
    assert_eq!(twec::module::canonical_key("/d/lib/util.twe"), "/d/lib/util.twe");
}

#[test]
fn module_file_joins_pieces_and_sets_the_extension() {
    assert_eq!(twec::module::module_file("/d", "math/vec2"), Ok("/d/math/vec2.twe".to_string()));
    assert_eq!(twec::module::module_file("/d/", "helper"), Ok("/d/helper.twe".to_string()));
    assert_eq!(twec::module::module_file("", "helper"), Ok("helper.twe".to_string()));
    assert_eq!(twec::module::module_file(".", "a.v2"), Ok("./a.v2.twe".to_string()));
    assert_eq!(twec::module::module_file("d", "lib.v2"), Ok("d/lib.v2.twe".to_string()));
    assert_eq!(twec::module::module_file(".", "lib/.hidden"), Ok("./lib/.hidden.twe".to_string()));
    assert_eq!(twec::module::module_file("/d", ""), Err("import path is empty".to_string()));
    assert!(twec::module::module_file("/d", "../x").unwrap_err().contains(".."));
    assert!(twec::module::module_file("/d", "a//b").unwrap_err().contains("empty segment"));
}

fn names(v: &[&str]) -> Vec<String> {
    v.iter().map(|s| s.to_string()).collect()
}

#[test]
fn import_step_detects_cycles_and_diamonds() {
    use_import_step();
}

fn use_import_step() {
    let chain = names(&["/d/main.twe", "/d/a.twe"]);
    let loaded = names(&["/d/shared.twe"]);
    match twec::module::import_step(&chain, &loaded, "/d/main.twe", "/d/a.twe", 2, 1) {
        twec::module::ImportStep::Cycle(e) => {
            assert_eq!(e.message, "import cycle detected: /d/main.twe -> /d/a.twe -> /d/main.twe");
            assert_eq!(e.source, "/d/a.twe");
            assert_eq!((e.line, e.col), (2, 1));
        }
        _ => panic!("expected a cycle"),
    }
    assert!(matches!(
        twec::module::import_step(&chain, &loaded, "/d/shared.twe", "/d/a.twe", 1, 1),
        twec::module::ImportStep::AlreadyLoaded
    ));
    assert!(matches!(
        twec::module::import_step(&chain, &loaded, "/d/b.twe", "/d/a.twe", 1, 1),
        twec::module::ImportStep::Load
    ));
}

#[test]
fn loader_error_texts() {
    let e = twec::module::resolve_load_error("module file not found at /d/x.twe".to_string(), "x", "/d/m.twe", 3, 5);
    assert_eq!(e.message, "module file not found at /d/x.twe");
    assert_eq!(
        e.help.as_deref(),
        Some("Phase 13 session 2 resolves `import \"x\"` against the importing file's directory")
    );
    let e = twec::module::read_load_error("x", "/d/x.twe", "permission denied", "/d/m.twe", 3, 5);
    assert_eq!(e.message, "failed to read module `x` (/d/x.twe): permission denied");
    assert_eq!(e.help.as_deref(), Some("expected the module at /d/x.twe"));
    assert_eq!(e.source, "/d/m.twe");
}
