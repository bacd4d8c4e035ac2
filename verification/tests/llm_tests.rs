use twec::llm_loop::{build_followup_prompt, trace_line, LoopDriver, LoopOptions, LoopRound, LoopStep};
use twec::llm_eval::{config_settings, frames_value, head, match_value, output_matches, scorecard_json, ConfigKey, MatchMode, Score, Stage};
use twec::llm_loop::{extract_twe_source, FixtureProvider, LlmProvider};

#[test]
fn scorecard_json_is_balanced_and_versioned() {
    let scores = vec![
        Score {
            suite: "a".into(),
            passed: true,
            stage: Stage::Match,
            actual_output: "hi".into(),
            message: None,
            source_lines: 1,
            source_bytes: 4,
        },
        Score {
            suite: "b".into(),
            passed: false,
            stage: Stage::Run,
            actual_output: String::new(),
            message: Some("boom".into()),
            source_lines: 5,
            source_bytes: 80,
        },
    ];
    let s = scorecard_json(&scores);
    assert!(s.contains("\"tool\":\"twec-eval\""));
    assert!(s.contains("\"version\":1"));
    assert!(s.contains("\"total\":2"));
    assert!(s.contains("\"passed\":1"));
    assert!(s.contains("\"failed\":1"));
    assert_eq!(s.matches('{').count(), s.matches('}').count());
    assert_eq!(s.matches('[').count(), s.matches(']').count());
}

#[test]
fn extract_handles_twe_fenced_block() {
    let reply = "Sure, here's the program:\n\n```twe\nlet x = 1\nlet y = 2\n```\n\nHope that helps!";
    assert_eq!(extract_twe_source(reply), "let x = 1\nlet y = 2");
}

#[test]
fn extract_handles_unlanguaged_fence() {
    let reply = "```\nlet x = 1\n```";
    assert_eq!(extract_twe_source(reply), "let x = 1");
}

#[test]
fn extract_returns_raw_when_no_fence() {
    let reply = "let x = 1\n";
    assert_eq!(extract_twe_source(reply), "let x = 1");
}

#[test]
fn fixture_provider_returns_canned_responses_in_order() {
    let mut p = FixtureProvider::new(vec!["one".into(), "two".into()]);
    assert_eq!(p.complete("a").unwrap(), "one");
    assert_eq!(p.complete("b").unwrap(), "two");
    assert_eq!(p.captured_prompts, vec!["a", "b"]);
    assert!(p.complete("c").is_err());
}

#[test]
fn extract_skips_language_tag_line() {
    let reply = "intro\n```python\nprint(1)\n```\n";
    assert_eq!(extract_twe_source(reply), "print(1)");
}

#[test]
fn extract_keeps_fence_line_when_it_holds_a_fence() {
    // The tag line itself closes the block: body is what precedes it.
    let reply = "```a```b";
    assert_eq!(extract_twe_source(reply), "a");
}

#[test]
fn extract_unterminated_fence_falls_back_to_trim() {
    let reply = "  ```twe\nlet x = 1  ";
    assert_eq!(extract_twe_source(reply), "```twe\nlet x = 1");
}

#[test]
fn match_mode_parse_recognises_every_spelling() {
    assert_eq!(MatchMode::parse("substring"), Some(MatchMode::Substring));
    assert_eq!(MatchMode::parse("contains"), Some(MatchMode::Substring));
    assert_eq!(MatchMode::parse("exact"), Some(MatchMode::Exact));
    assert_eq!(MatchMode::parse("lines"), Some(MatchMode::Lines));
    assert_eq!(MatchMode::parse("Exact"), None);
    assert_eq!(MatchMode::parse(""), None);
}

#[test]
fn output_matches_modes() {
    assert!(output_matches("hello", "print: hello world\n", MatchMode::Substring));
    assert!(!output_matches("hello\n", "hello\nextra\n", MatchMode::Exact));
    assert!(output_matches("  hello\n", "hello", MatchMode::Exact));
    assert!(output_matches("first\n\nsecond\n", "first\nsecond\n", MatchMode::Lines));
    assert!(!output_matches("second\nfirst\n", "first\nsecond\n", MatchMode::Lines));
    assert!(!output_matches("a\na\n", "a\n", MatchMode::Lines));
}

#[test]
fn scorecard_exact_document() {
    let scores = vec![Score {
        suite: "s\"1".into(),
        passed: false,
        stage: Stage::Lex,
        actual_output: "a\nb".into(),
        message: None,
        source_lines: 12,
        source_bytes: 0,
    }];
    assert_eq!(
        scorecard_json(&scores),
        "{\"tool\":\"twec-eval\",\"version\":1,\"summary\":{\"total\":1,\"passed\":0,\"failed\":1},\"scores\":[{\"suite\":\"s\\\"1\",\"passed\":false,\"stage\":\"lex\",\"source_lines\":12,\"source_bytes\":0,\"actual_output\":\"a\\nb\",\"message\":null}]}"
    );
    assert_eq!(
        scorecard_json(&[]),
        "{\"tool\":\"twec-eval\",\"version\":1,\"summary\":{\"total\":0,\"passed\":0,\"failed\":0},\"scores\":[]}"
    );
}

#[test]
fn head_takes_leading_characters() {
    assert_eq!(head("héllo", 2), "hé");
    assert_eq!(head("ab", 80), "ab");
}

#[test]
fn json_string_escapes_control_characters() {
    let mut s = String::new();
    twec::llm_eval::json_string(&mut s, "a\u{1}\t\\");
    assert_eq!(s, "\"a\\u0001\\t\\\\\"");
}

#[test]
fn followup_prompt_embeds_source_and_report() {
    let p = twec::llm_loop::build_followup_prompt("let x = 1", "{\"ok\":false}");
    assert!(p.contains("```twe\nlet x = 1\n```"));
    assert!(p.contains("(JSON v2):\n{\"ok\":false}\n\nReply"));
}

#[test]
fn trace_filename_format() {
    assert_eq!(twec::llm_loop::trace_filename("fixture", 1700000000), "llm_loop_fixture_1700000000.jsonl");
}

#[test]
fn loop_driver_stops_when_verify_passes() {
    let opts = LoopOptions::default();
    let d = LoopDriver::start("write a program", &opts, None);
    assert_eq!(d.prompt(), "write a program");
    let d = match d.record_round("```twe\nlet x = 1\n```".to_string(), "{\"ok\":false}".to_string(), false) {
        LoopStep::Continue(d) => d,
        LoopStep::Done(_) => panic!("should continue"),
    };
    assert_eq!(d.prompt(), &build_followup_prompt("let x = 1", "{\"ok\":false}"));
    assert_eq!(d.rounds().len(), 1);
    assert_eq!(d.rounds()[0].round, 1);
    assert_eq!(d.rounds()[0].prompt, "write a program");
    match d.record_round("let x = 2".to_string(), "{\"ok\":true}".to_string(), true) {
        LoopStep::Done(o) => {
            assert!(o.passed);
            assert_eq!(o.final_source, "let x = 2");
            assert_eq!(o.rounds.len(), 2);
            assert_eq!(o.rounds[1].round, 2);
        }
        LoopStep::Continue(_) => panic!("should stop"),
    }
}

#[test]
fn loop_driver_gives_up_at_round_limit() {
    let mut opts = LoopOptions::default();
    opts.max_rounds = 1;
    opts.log_prompts = false;
    let d = LoopDriver::start("p", &opts, Some("t.jsonl".to_string()));
    match d.record_round("x".to_string(), "{}".to_string(), false) {
        LoopStep::Done(o) => {
            assert!(!o.passed);
            assert_eq!(o.final_source, "x");
            assert_eq!(o.rounds.len(), 1);
            assert_eq!(o.rounds[0].prompt, "");
            assert_eq!(o.trace_path.as_deref(), Some("t.jsonl"));
        }
        LoopStep::Continue(_) => panic!("should stop at the limit"),
    }
}

#[test]
fn trace_line_is_one_json_record() {
    let rec = LoopRound {
        round: 3,
        prompt: "p\"q".to_string(),
        response: "r".to_string(),
        verify_json: "{\"ok\":true}".to_string(),
        passed: true,
    };
    assert_eq!(
        trace_line(&rec, "fixture", 0, 2),
        "{\"tool\":\"twec-llm-loop\",\"version\":1,\"provider\":\"fixture\",\"round\":3,\"passed\":true,\"errors\":0,\"warnings\":2,\"prompt\":\"p\\\"q\",\"response\":\"r\",\"verify\":{\"ok\":true}}\n"
    );
}

#[test]
fn config_settings_handle_known_keys_and_ignore_unknown() {
    let text = "frames = 30\n# comment\ndt = 0.05\nmatch_mode = \"exact\"\nfuture_key = 42\n";
    let settings = config_settings(text);
    assert_eq!(settings.len(), 3);
    assert_eq!(settings[0].key, ConfigKey::Frames);
    assert_eq!(settings[0].value, "30");
    assert_eq!(settings[1].key, ConfigKey::Dt);
    assert_eq!(settings[1].value, "0.05");
    assert_eq!(settings[2].key, ConfigKey::Match);
    assert_eq!(settings[2].value, "exact");
    assert_eq!(frames_value(&settings[0].value), Ok(30));
    assert_eq!(match_value(&settings[2].value), Ok(MatchMode::Exact));
}

#[test]
fn config_settings_strip_comments_quotes_and_blank_lines() {
    let text = "  match = \"\"lines\"\"  # trailing\n\nframes=7#x\nno equals here\n= 3\ndt\n";
    let settings = config_settings(text);
    assert_eq!(settings.len(), 2);
    assert_eq!(settings[0].key, ConfigKey::Match);
    assert_eq!(settings[0].value, "lines");
    assert_eq!(settings[1].key, ConfigKey::Frames);
    assert_eq!(settings[1].value, "7");
}

#[test]
fn config_values_report_bad_input() {
    assert_eq!(frames_value("+12"), Ok(12));
    assert_eq!(frames_value("4294967295"), Ok(u32::MAX));
    let e = frames_value("4294967296").unwrap_err();
    assert!(e.starts_with("config `frames` not an int: "));
    assert!(frames_value("-1").is_err());
    assert!(frames_value("").is_err());
    assert!(frames_value("1_000").is_err());
    assert_eq!(
        match_value("fuzzy"),
        Err("config `match_mode`: unknown value `fuzzy`".to_string())
    );
    assert_eq!(match_value("contains"), Ok(MatchMode::Substring));
}
