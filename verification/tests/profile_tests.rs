use twec::profile::{disable, enable, is_enabled, render_chrome_trace, scope, Profiler, Scope};

fn close(p: &mut Profiler, s: Option<Scope>) {
    if let Some(s) = s {
        s.finish(p);
    }
}

#[test]
fn disabled_scope_emits_no_events() {
    let mut p = Profiler::new();
    disable(&mut p);
    {
        let s = scope(&p, "noop");
        close(&mut p, s);
    }
    assert!(p.events().is_empty());
}

#[test]
fn enabled_scope_records_event() {
    let mut p = Profiler::new();
    enable(&mut p);
    {
        let s = scope(&p, "hot");
        close(&mut p, s);
    }
    let n = p.events().len();
    assert_eq!(n, 1);
    disable(&mut p);
}

#[test]
fn dump_renders_chrome_trace_json_envelope() {
    let mut p = Profiler::new();
    enable(&mut p);
    {
        let s = scope(&p, "alpha");
        close(&mut p, s);
    }
    let body = render_chrome_trace(&mut p);
    disable(&mut p);
    assert!(body.starts_with("{\"traceEvents\":["));
    assert!(body.ends_with("]}"));
    assert!(body.contains("\"name\":\"alpha\""));
    assert!(body.contains("\"ph\":\"X\""));
}

#[test]
fn name_quotes_get_escaped() {
    let mut p = Profiler::new();
    enable(&mut p);
    {
        let s = scope(&p, "a\"b");
        close(&mut p, s);
    }
    let body = render_chrome_trace(&mut p);
    disable(&mut p);
    assert!(body.contains(r#""name":"a\"b""#), "got {body}");
}

#[test]
fn render_drains_and_formats_exactly() {
    let mut p = Profiler::new();
    enable(&mut p);
    p.record("x\\y".to_string(), 5, 7);
    p.record("z".to_string(), 10, 0);
    let body = render_chrome_trace(&mut p);
    assert_eq!(
        body,
        "{\"traceEvents\":[{\"name\":\"x\\\\y\",\"cat\":\"twe\",\"ph\":\"X\",\"pid\":1,\"tid\":1,\"ts\":5,\"dur\":7},{\"name\":\"z\",\"cat\":\"twe\",\"ph\":\"X\",\"pid\":1,\"tid\":1,\"ts\":10,\"dur\":0}]}"
    );
    assert!(p.events().is_empty());
    assert_eq!(render_chrome_trace(&mut p), "{\"traceEvents\":[]}");
}

#[test]
fn record_is_ignored_while_disabled_and_enable_clears() {
    let mut p = Profiler::new();
    assert!(!is_enabled(&p));
    p.record("a".to_string(), 1, 1);
    assert!(p.events().is_empty());
    enable(&mut p);
    assert!(is_enabled(&p));
    p.record("a".to_string(), 1, 1);
    disable(&mut p);
    assert_eq!(p.events().len(), 1);
    enable(&mut p);
    assert!(p.events().is_empty());
}

#[test]
fn scope_is_none_while_disabled() {
    let p = Profiler::new();
    assert!(scope(&p, "x").is_none());
}
