use twec::mutator::{
    build_triple_jsonl, detect_strict, detect_verified, make_typo, IdentifierTypoRule, LiteralTypeRule,
    MutationCandidate, MutationReport, MutationRule, RuleKind, RuleSet,
};

#[test]
fn typo_rule_renames_use_site_only() {
    let src = "let apple = 1\nlet other = apple + 2\n";
    let cands = IdentifierTypoRule.apply(src);
    assert_eq!(cands.len(), 1);
    let mutated = &cands[0].mutated;
    assert!(mutated.contains("let apple = 1"));
    assert!(mutated.contains("aple + 2"));
}

#[test]
fn typo_skips_short_names() {
    let src = "let n = 1\nlet m = n + 1\n";
    let cands = IdentifierTypoRule.apply(src);
    assert!(cands.is_empty(), "short-name typos shouldn't fire");
}

#[test]
fn typo_ignores_occurrences_in_strings() {
    let src = "let apple = 1\nprint(\"apple is great\")\n";
    let cands = IdentifierTypoRule.apply(src);
    assert!(cands.is_empty(), "string occurrences shouldn't count");
}

#[test]
fn literal_rule_only_fires_in_strict_mode() {
    let strict = "# strict\nlet x: int = 42\n";
    let lax = "let x: int = 42\n";
    assert!(LiteralTypeRule.apply(lax).is_empty());
    assert!(!LiteralTypeRule.apply(strict).is_empty());
}

#[test]
fn literal_rule_replaces_int_with_string() {
    let src = "# verified\nlet x: int = 42\n";
    let cands = LiteralTypeRule.apply(src);
    assert_eq!(cands.len(), 1);
    assert!(cands[0].mutated.contains("\"42\""));
}

#[test]
fn literal_rule_exact_output() {
    let src = "# strict\nlet x: int = 42\n";
    let cands = LiteralTypeRule.apply(src);
    assert_eq!(cands.len(), 1);
    assert_eq!(cands[0].kind, "literal_type_mismatch");
    assert_eq!(cands[0].mutated, "# strict\nlet x: int = \"42\"\n");
    assert_eq!(
        cands[0].note,
        "replaced int literal `42` with string literal `\"42\"` on line 2"
    );
}

#[test]
fn literal_rule_without_trailing_newline() {
    let src = "# strict\nlet x: int = 7";
    let cands = LiteralTypeRule.apply(src);
    assert_eq!(cands.len(), 1);
    assert_eq!(cands[0].mutated, "# strict\nlet x: int = \"7\"");
}

#[test]
fn typo_rule_exact_output() {
    let src = "let apple = 1\nlet other = apple + 2\n";
    let cands = IdentifierTypoRule.apply(src);
    assert_eq!(cands.len(), 1);
    assert_eq!(cands[0].kind, "identifier_typo");
    assert_eq!(cands[0].mutated, "# strict\nlet apple = 1\nlet other = aple + 2\n");
    assert_eq!(
        cands[0].note,
        "renamed `apple` to `aple` at one use site (and prepended `# strict` so the unknown-name diagnostic fires)"
    );
}

#[test]
fn rule_names() {
    assert_eq!(IdentifierTypoRule.name(), "identifier_typo");
    assert_eq!(LiteralTypeRule.name(), "literal_type_mismatch");
}

#[test]
fn directives_are_detected_on_their_own_line() {
    assert!(detect_strict("# strict\nlet x = 1\n"));
    assert!(detect_strict("let x = 1\n   # strict   \n"));
    assert!(!detect_strict("let x = 1 # strict\n"));
    assert!(detect_verified("# verified\n"));
    assert!(!detect_verified("# strict\n"));
}

#[test]
fn rule_set_parse_and_rules() {
    assert_eq!(RuleSet::parse("typo"), RuleSet::IdentifierTypoOnly);
    assert_eq!(RuleSet::parse("identifier-typo"), RuleSet::IdentifierTypoOnly);
    assert_eq!(RuleSet::parse("literal"), RuleSet::LiteralOnly);
    assert_eq!(RuleSet::parse("literal-type"), RuleSet::LiteralOnly);
    assert_eq!(RuleSet::parse("anything"), RuleSet::All);
    assert_eq!(
        RuleSet::All.rules(),
        vec![RuleKind::IdentifierTypo, RuleKind::LiteralType]
    );
    assert_eq!(RuleSet::LiteralOnly.rules(), vec![RuleKind::LiteralType]);
}

#[test]
fn report_summary_text() {
    let r = MutationReport {
        source_files: 3,
        triples_emitted: 2,
        rules_applied: vec!["identifier_typo".to_string(), "literal_type_mismatch".to_string()],
        output_path: "out/error_fix.jsonl".to_string(),
    };
    assert_eq!(
        r.summary(),
        "[twec mutate] scanned 3 file(s), emitted 2 triple(s) using rule(s): identifier_typo, literal_type_mismatch → out/error_fix.jsonl"
    );
}

#[test]
fn triple_line_is_one_json_object() {
    let cand = MutationCandidate {
        kind: "identifier_typo",
        mutated: "a\"b\n".to_string(),
        note: "n".to_string(),
    };
    let line = build_triple_jsonl("p.twe", "orig", &cand, "{\"ok\":false}");
    assert!(line.starts_with('{') && line.ends_with('}'));
    assert!(line.contains("\"tool\":\"twec-mutate\""));
    assert!(line.contains("\"rule\":\"identifier_typo\""));
    assert!(line.contains("\"mutated\":\"a\\\"b\\n\""));
    assert!(line.contains("\"verify\":{\"ok\":false}"));
    assert!(!line.contains('\n'));
}

#[test]
fn typo_drops_the_second_character() {
    let t = |s: &str| make_typo(&s.chars().collect()).into_iter().collect::<String>();
    assert_eq!(t("apple"), "aple");
    assert_eq!(t("abc"), "ac");
    assert_eq!(t("ab"), "ab");
    assert_eq!(t(""), "");
}

#[test]
fn literal_rule_quotes_the_literal_right_of_the_equals_sign() {
    let cands = LiteralTypeRule.apply("# strict\nlet a1: int = 1\n");
    assert_eq!(cands.len(), 1);
    assert_eq!(cands[0].mutated, "# strict\nlet a1: int = \"1\"\n");
    let cands = LiteralTypeRule.apply("# strict\n  let n5: int =   5  # five\n");
    assert_eq!(cands[0].mutated, "# strict\n  let n5: int =   \"5\"  # five\n");
    assert!(LiteralTypeRule.apply("let a1: int = 1\n").is_empty());
}
