use twec::ast::{Expr, Program, Stmt};
use twec::loader::{program_imports, ImportSite, LoadAction, LoadEvent, Loader};
use twec::module::{module_file, LoadError, ModuleGraph};

/// A file tree in memory: each path with the modules its imports name.
struct Files(Vec<(&'static str, Vec<&'static str>)>);

impl Files {
    fn imports(&self, path: &str) -> Option<Vec<ImportSite>> {
        self.0.iter().find(|(p, _)| *p == path).map(|(_, im)| {
            im.iter()
                .enumerate()
                .map(|(k, l)| ImportSite { path: l.to_string(), line: k as u32 + 1, col: 1 })
                .collect()
        })
    }
}

fn dir_of(path: &str) -> &str {
    match path.rfind('/') {
        Some(i) => &path[..i],
        None => ".",
    }
}

/// Runs the loader on `entry`, answering its actions from `files`.
fn load(files: &Files, entry: &str) -> Result<ModuleGraph, LoadError> {
    let (mut loader, mut action) = Loader::start(entry, files.imports(entry).unwrap());
    loop {
        let event = match action {
            LoadAction::Resolve { importer, logical } => match module_file(dir_of(&importer), &logical) {
                Ok(p) if files.imports(&p).is_some() => LoadEvent::Resolved(Ok(p)),
                Ok(p) => LoadEvent::Resolved(Err(format!("module file not found at {p}"))),
                Err(m) => LoadEvent::Resolved(Err(m)),
            },
            LoadAction::Read { target, .. } => LoadEvent::Read(Ok(files.imports(&target).unwrap())),
            LoadAction::Done(g) => return Ok(g),
            LoadAction::Failed(e) => return Err(e),
        };
        action = loader.step(event);
    }
}

#[test]
fn loads_entry_with_one_dep() {
    let files = Files(vec![("d/main.twe", vec!["helper"]), ("d/helper.twe", vec![])]);
    let g = load(&files, "d/main.twe").unwrap();
    assert!(g.entry.canonical_path.ends_with("main.twe"));
    assert_eq!(g.deps.len(), 1);
    assert_eq!(g.deps[0].logical_path, "helper");
    assert!(g.deps[0].canonical_path.ends_with("helper.twe"));
    assert_eq!(g.entry.imports, vec!["d/helper.twe".to_string()]);
}

#[test]
fn deduplicates_diamond_imports() {
    let files = Files(vec![
        ("d/main.twe", vec!["b", "c"]),
        ("d/b.twe", vec!["shared"]),
        ("d/c.twe", vec!["shared"]),
        ("d/shared.twe", vec![]),
    ]);
    let g = load(&files, "d/main.twe").unwrap();
    assert_eq!(g.deps.len(), 3);
    // Each module is recorded after its imports.
    let keys: Vec<&str> = g.deps.iter().map(|m| m.canonical_path.as_str()).collect();
    assert_eq!(keys, vec!["d/shared.twe", "d/b.twe", "d/c.twe"]);
    assert_eq!(g.deps[2].imports, vec!["d/shared.twe".to_string()]);
}

#[test]
fn rejects_cycle() {
    let files = Files(vec![("d/main.twe", vec!["a"]), ("d/a.twe", vec!["b"]), ("d/b.twe", vec!["a"])]);
    let err = load(&files, "d/main.twe").unwrap_err();
    assert!(err.message.contains("cycle"), "expected cycle in error: {}", err.message);
    assert_eq!(err.message, "import cycle detected: d/main.twe -> d/a.twe -> d/b.twe -> d/a.twe");
    assert_eq!((err.source.as_str(), err.line, err.col), ("d/b.twe", 1, 1));
}

#[test]
fn rejects_dotdot_path() {
    let files = Files(vec![("d/main.twe", vec!["../escape"])]);
    let err = load(&files, "d/main.twe").unwrap_err();
    assert!(err.message.contains(".."), "expected `..` rejection: {}", err.message);
}

#[test]
fn rejects_missing_module() {
    let files = Files(vec![("d/main.twe", vec!["ghost"])]);
    let err = load(&files, "d/main.twe").unwrap_err();
    assert!(err.message.contains("module file not found"), "expected missing-file message: {}", err.message);
    assert!(err.help.unwrap().contains("import \"ghost\""));
}

#[test]
fn entry_with_no_imports_loads_clean() {
    let files = Files(vec![("d/main.twe", vec![])]);
    let g = load(&files, "d/main.twe").unwrap();
    assert!(g.deps.is_empty());
    assert_eq!(g.entry.logical_path, "");
}

#[test]
fn a_read_error_stops_the_walk() {
    let files = Files(vec![("d/main.twe", vec!["a"]), ("d/a.twe", vec![])]);
    let (mut loader, action) = Loader::start("d/main.twe", files.imports("d/main.twe").unwrap());
    assert!(matches!(action, LoadAction::Resolve { .. }));
    let action = loader.step(LoadEvent::Resolved(Ok("d/a.twe".to_string())));
    match action {
        LoadAction::Read { target, logical, importer, line, col } => {
            assert_eq!((target.as_str(), logical.as_str(), importer.as_str(), line, col), ("d/a.twe", "a", "d/main.twe", 1, 1));
        }
        _ => panic!("expected a read"),
    }
    let e = LoadError { message: "boom".to_string(), help: None, source: "d/main.twe".to_string(), line: 1, col: 1 };
    match loader.step(LoadEvent::Read(Err(e))) {
        LoadAction::Failed(e) => assert_eq!(e.message, "boom"),
        _ => panic!("expected the error"),
    }
}

#[test]
fn only_top_level_imports_are_walked() {
    let nested = Stmt::If {
        cond: Expr::Bool(true),
        then_body: vec![Stmt::Import { path: "inner".to_string(), alias: None, line: 3, col: 5 }],
        elifs: vec![],
        else_body: None,
        line: 2,
    };
    let p = Program {
        stmts: vec![Stmt::Import { path: "a".to_string(), alias: Some("x".to_string()), line: 1, col: 1 }, nested],
    };
    let sites = program_imports(&p);
    assert_eq!(sites.len(), 1);
    assert_eq!((sites[0].path.as_str(), sites[0].line, sites[0].col), ("a", 1, 1));
}
