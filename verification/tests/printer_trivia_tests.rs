use twec::printer::{extract_trivia, print_deprecation, print_string_literal, Trivia, TriviaCursor};

#[test]
fn trivia_captures_line_comments_and_blank_lines() {
    let src = "# header\nlet x = 1\n\n# section\nlet y = 2\n";
    assert_eq!(
        extract_trivia(src),
        vec![
            (1, Trivia::Comment("# header".to_string())),
            (3, Trivia::Blank),
            (4, Trivia::Comment("# section".to_string())),
        ]
    );
}

#[test]
fn trivia_anchors_block_comments_to_their_first_line() {
    let src = "#- a\nb -#\nlet x = 1\n";
    assert_eq!(
        extract_trivia(src),
        vec![
            (1, Trivia::BlockComment("#- a\nb -#".to_string())),
            (2, Trivia::Blank),
        ]
    );
}

#[test]
fn trivia_skips_comments_after_code_and_keeps_final_comment() {
    let src = "let x = 1 # tail\n# end";
    assert_eq!(
        extract_trivia(src),
        vec![(2, Trivia::Comment("# end".to_string()))]
    );
}

#[test]
fn trivia_lone_hash_is_a_comment() {
    assert_eq!(
        extract_trivia("  #\n"),
        vec![(1, Trivia::Comment("#".to_string()))]
    );
    assert_eq!(extract_trivia("#"), vec![(1, Trivia::Comment("#".to_string()))]);
}

#[test]
fn trivia_drops_unterminated_block_comment() {
    assert_eq!(extract_trivia("#- never closed\n"), vec![]);
}

#[test]
fn cursor_flushes_items_before_target_line() {
    let items = vec![
        (1, Trivia::Comment("# a".to_string())),
        (3, Trivia::Blank),
        (4, Trivia::BlockComment("#- x\ny -#".to_string())),
    ];
    let mut cursor = TriviaCursor::new(items);
    let mut out = String::new();
    cursor.flush_through(&mut out, 3, 1);
    assert_eq!(out, "    # a\n");
    cursor.flush_through(&mut out, u32::MAX, 0);
    assert_eq!(out, "    # a\n\n#- x\ny -#\n");
}

#[test]
fn cursor_blank_is_not_emitted_at_start_or_after_blank_line() {
    let mut cursor = TriviaCursor::new(vec![(1, Trivia::Blank), (2, Trivia::Blank)]);
    let mut out = String::new();
    cursor.flush_through(&mut out, u32::MAX, 0);
    assert_eq!(out, "");
    let mut cursor = TriviaCursor::new(vec![(5, Trivia::Blank)]);
    let mut out = "x\n\n".to_string();
    cursor.flush_through(&mut out, u32::MAX, 0);
    assert_eq!(out, "x\n\n");
    let mut empty = TriviaCursor::empty();
    empty.flush_through(&mut out, u32::MAX, 3);
    assert_eq!(out, "x\n\n");
}

#[test]
fn string_literal_escapes() {
    let mut out = String::new();
    print_string_literal(&mut out, "a\"b\\c\nd{e}\t\r");
    assert_eq!(out, "\"a\\\"b\\\\c\\nd\\{e\\}\\t\\r\"");
}

#[test]
fn deprecation_line_forms() {
    let mut out = String::new();
    print_deprecation(&mut out, 1, None);
    assert_eq!(out, "");
    print_deprecation(&mut out, 0, Some(None));
    assert_eq!(out, "@deprecated\n");
    out.clear();
    print_deprecation(&mut out, 2, Some(Some("since v0.7")));
    assert_eq!(out, "        @deprecated(\"since v0.7\")\n");
    out.clear();
    print_deprecation(&mut out, 0, Some(Some("a\"b\\c{d}")));
    assert_eq!(out, "@deprecated(\"a\\\"b\\\\c{d}\")\n");
}

#[test]
fn flushing_in_steps_matches_one_flush() {
    let src = "# a\nlet x = 1\n\n# b\nlet y = 2\n#- block -#\nlet z = 3\n";
    let mut stepwise = TriviaCursor::new(extract_trivia(src));
    let mut out1 = String::new();
    stepwise.flush_through(&mut out1, 2, 1);
    stepwise.flush_through(&mut out1, 5, 1);
    stepwise.flush_through(&mut out1, 100, 1);
    let mut once = TriviaCursor::new(extract_trivia(src));
    let mut out2 = String::new();
    once.flush_through(&mut out2, 100, 1);
    assert_eq!(out1, out2);
    assert!(out2.contains("# a") && out2.contains("# b") && out2.contains("#- block -#"));
}
