use twec::replay::{decode_frame_line, encode_frame_line, parse_log, FrameText, Mode, Replay, TickAction, HEADER};

#[test]
fn rejects_bad_header() {
    let err = parse_log("WRONG-HEADER\n").err().unwrap();
    assert!(err.contains("bad header"));
    assert_eq!(
        err,
        "replay.play: bad header (expected `TWE-REPLAY v1`, got `WRONG-HEADER`)"
    );
}

#[test]
fn rejects_empty_log() {
    assert_eq!(parse_log("").err().unwrap(), "replay.play: empty file");
}

#[test]
fn round_trips_a_two_frame_log() {
    let body = format!("{HEADER}\nleft,space|space|123.5|45.0|left|left\n||320|240||\n");
    let scan = parse_log(&body).ok().unwrap();
    assert!(scan.error.is_none());
    let frames = scan.frames;
    assert_eq!(frames.len(), 2);
    assert_eq!(frames[0].line_no, 2);
    assert_eq!(frames[0].keys_held, vec!["left".to_string(), "space".to_string()]);
    assert_eq!(frames[0].keys_pressed, vec!["space".to_string()]);
    assert_eq!(frames[0].mouse_x, "123.5");
    assert_eq!(frames[0].mouse_y, "45.0");
    assert_eq!(frames[0].mb_held, vec!["left".to_string()]);
    assert_eq!(frames[1].keys_held.len(), 0);
    assert_eq!(frames[1].mouse_x, "320");
    assert_eq!(frames[1].line_no, 3);
}

#[test]
fn header_is_trimmed_and_blank_lines_skipped() {
    let scan = parse_log("  TWE-REPLAY v1 \r\n\n||1|2||\n").ok().unwrap();
    assert_eq!(scan.frames.len(), 1);
    assert_eq!(scan.frames[0].line_no, 3);
}

#[test]
fn stops_at_first_malformed_line() {
    let scan = parse_log("TWE-REPLAY v1\n||1|2||\na|b|c\n||3|4||\n").ok().unwrap();
    assert_eq!(scan.frames.len(), 1);
    assert_eq!(
        scan.error.as_deref(),
        Some("replay.play: line 3 has 3 fields, expected 6")
    );
}

#[test]
fn playback_delivers_frames_then_stops() {
    let mut r = Replay::new();
    assert!(!r.is_playing() && !r.is_recording());
    r.start_playing(2);
    assert!(r.is_playing());
    assert_eq!(r.tick(), TickAction::Apply(0));
    assert_eq!(r.tick(), TickAction::Apply(1));
    assert_eq!(r.tick(), TickAction::Finished);
    assert_eq!(r.mode, Mode::Idle);
    assert_eq!(r.tick(), TickAction::Nothing);
}

#[test]
fn recording_records_until_stopped() {
    let mut r = Replay::new();
    r.start_recording();
    assert!(r.is_recording());
    assert_eq!(r.tick(), TickAction::Record);
    assert!(r.stop());
    assert!(!r.is_recording());
    assert!(!r.stop());
}

fn names(v: &[&str]) -> Vec<String> {
    v.iter().map(|s| s.to_string()).collect()
}

#[test]
fn frame_line_round_trips() {
    let f = FrameText {
        keys_held: names(&["left", "space"]),
        keys_pressed: names(&["space"]),
        mouse_x: "123.5".to_string(),
        mouse_y: "45".to_string(),
        mb_held: names(&["left"]),
        mb_press: Vec::new(),
    };
    let line = encode_frame_line(&f);
    assert_eq!(line, "left,space|space|123.5|45|left|");
    let back = decode_frame_line(&line).expect("decode");
    assert_eq!(back.keys_held, f.keys_held);
    assert_eq!(back.keys_pressed, f.keys_pressed);
    assert_eq!(back.mouse_x, f.mouse_x);
    assert_eq!(back.mouse_y, f.mouse_y);
    assert_eq!(back.mb_held, f.mb_held);
    assert!(back.mb_press.is_empty());
}

#[test]
fn decode_frame_line_needs_six_fields() {
    assert!(decode_frame_line("a|b|1|2|c").is_none());
    assert!(decode_frame_line("a|b|1|2|c|d|e").is_none());
    let f = decode_frame_line("||0|0||").expect("six empty-ish fields");
    assert!(f.keys_held.is_empty());
    assert_eq!(f.mouse_x, "0");
}

#[test]
fn a_written_log_reads_back() {
    let frames = vec![
        FrameText {
            keys_held: names(&["w"]),
            keys_pressed: Vec::new(),
            mouse_x: "1.5".to_string(),
            mouse_y: "2".to_string(),
            mb_held: Vec::new(),
            mb_press: names(&["right"]),
        },
        FrameText {
            keys_held: Vec::new(),
            keys_pressed: names(&["a", "b"]),
            mouse_x: "3".to_string(),
            mouse_y: "4".to_string(),
            mb_held: names(&["left"]),
            mb_press: Vec::new(),
        },
    ];
    let mut log = format!("{HEADER}\n");
    for f in &frames {
        log.push_str(&encode_frame_line(f));
        log.push('\n');
    }
    let scan = parse_log(&log).ok().unwrap();
    assert!(scan.error.is_none());
    assert_eq!(scan.frames.len(), 2);
    for (i, (got, want)) in scan.frames.iter().zip(frames.iter()).enumerate() {
        assert_eq!(got.line_no, i + 2);
        assert_eq!(got.keys_held, want.keys_held);
        assert_eq!(got.keys_pressed, want.keys_pressed);
        assert_eq!(got.mouse_x, want.mouse_x);
        assert_eq!(got.mouse_y, want.mouse_y);
        assert_eq!(got.mb_held, want.mb_held);
        assert_eq!(got.mb_press, want.mb_press);
    }
}
