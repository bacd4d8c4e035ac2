//! Input recording and replay: the log format's structure and the
//! recorder / player mode machine.
//!
//! Log format (v1): a header line `TWE-REPLAY v1`, then one line per
//! frame, `held|pressed|mouse_x|mouse_y|mb_held|mb_press`, where the
//! list fields are comma-separated names. The mouse fields are decimal
//! numbers; they are kept here as their text, and the caller reads them
//! as numbers.
use vstd::prelude::*;
use crate::text::{chars_of, dec, line_spans, lines, owned, push_decimal, push_str, slice_vec, split_char, split_chars, string_of, trim, trim_bounds};
use crate::net::{csv_fields, csv_safe, lemma_csv_join, split_csv};
use crate::text::{has_char, join_with, lemma_join_lacks, lemma_split_join, push_char, push_joined};

verus! {

pub const HEADER: &'static str = "TWE-REPLAY v1";

/// One frame of the log, the mouse coordinates as written.
pub struct LogFrame {
    /// 1-based line of the log the frame came from.
    pub line_no: usize,
    pub keys_held: Vec<String>,
    pub keys_pressed: Vec<String>,
    pub mouse_x: String,
    pub mouse_y: String,
    pub mb_held: Vec<String>,
    pub mb_press: Vec<String>,
}

/// The frames of a log up to its first malformed line, and that line's
/// error.
pub struct LogScan {
    pub frames: Vec<LogFrame>,
    pub error: Option<String>,
}

pub open spec fn strings(v: Seq<String>) -> Seq<Seq<char>> {
    v.map_values(|s: String| s@)
}

/// `str::split('|')`.
pub open spec fn pipe_fields(s: Seq<char>) -> Seq<Seq<char>> {
    split_char(s, '|')
}

/// (line number, held, pressed, mouse x, mouse y, mb held, mb press).
pub type FrameView = (int, Seq<Seq<char>>, Seq<Seq<char>>, Seq<char>, Seq<char>, Seq<Seq<char>>, Seq<Seq<char>>);

pub open spec fn frame_view(f: LogFrame) -> FrameView {
    (f.line_no as int, strings(f.keys_held@), strings(f.keys_pressed@), f.mouse_x@, f.mouse_y@, strings(f.mb_held@), strings(f.mb_press@))
}

pub open spec fn frame_of_line(fs: Seq<Seq<char>>, line_no: int) -> FrameView {
    (line_no, csv_fields(fs[0]), csv_fields(fs[1]), fs[2], fs[3], csv_fields(fs[4]), csv_fields(fs[5]))
}

pub open spec fn field_count_message(line_no: int, count: int) -> Seq<char> {
    "replay.play: line "@ + dec(line_no as nat) + " has "@ + dec(count as nat) + " fields, expected 6"@
}

/// Scans the frame lines `ls[k..]` (line `k` of the log is `ls[k]`,
/// 1-based number `k + 1`): the frames up to the first malformed line,
/// and its error.
pub open spec fn scan_from(ls: Seq<Seq<char>>, k: int) -> (Seq<FrameView>, Option<Seq<char>>)
    decreases ls.len() - k,
{
    if k >= ls.len() || k < 1 {
        (Seq::empty(), None)
    } else if ls[k].len() == 0 {
        scan_from(ls, k + 1)
    } else {
        let fs = pipe_fields(ls[k]);
        if fs.len() != 6 {
            (Seq::empty(), Some(field_count_message(k + 1, fs.len() as int)))
        } else {
            let rest = scan_from(ls, k + 1);
            (seq![frame_of_line(fs, k + 1)] + rest.0, rest.1)
        }
    }
}

pub open spec fn header_message(got: Seq<char>) -> Seq<char> {
    "replay.play: bad header (expected `TWE-REPLAY v1`, got `"@ + got + "`)"@
}

/// What `parse_log` gives for a log's text.
pub open spec fn log_scan(src: Seq<char>) -> Result<(Seq<FrameView>, Option<Seq<char>>), Seq<char>> {
    let ls = lines(src);
    if ls.len() == 0 {
        Err("replay.play: empty file"@)
    } else if trim(ls[0]) != HEADER@ {
        Err(header_message(trim(ls[0])))
    } else {
        Ok(scan_from(ls, 1))
    }
}

fn field_count_error(line_no: usize, count: usize) -> (r: String)
    ensures
        r@ == field_count_message(line_no as int, count as int),
{
    let mut m = owned("replay.play: line ");
    push_decimal(&mut m, line_no as u64);
    push_str(&mut m, " has ");
    push_decimal(&mut m, count as u64);
    push_str(&mut m, " fields, expected 6");
    m
}

pub open spec fn scan_view(s: LogScan) -> (Seq<FrameView>, Option<Seq<char>>) {
    (
        s.frames@.map_values(|f: LogFrame| frame_view(f)),
        match s.error {
            Some(e) => Some(e@),
            None => None,
        },
    )
}

/// Reads a replay log: checks the header, then splits each non-empty
/// line into its six fields, stopping at the first line that has another
/// number of fields.
#[verifier::rlimit(40)]
pub fn parse_log(src: &str) -> (r: Result<LogScan, String>)
    ensures
        match (r, log_scan(src@)) {
            (Ok(scan), Ok(s)) => scan_view(scan) == s,
            (Err(m), Err(e)) => m@ == e,
            _ => false,
        },
{
    let v = chars_of(src);
    let spans = line_spans(&v);
    let ghost ls = lines(src@);
    if spans.len() == 0 {
        return Err(owned("replay.play: empty file"));
    }
    let (a0, b0) = spans[0];
    proof {
        assert(spans@[0].0 <= spans@[0].1 <= v@.len());
    }
    let (h0, h1) = trim_bounds(&v, a0, b0);
    let header = slice_vec(&v, h0, h1);
    let expected = chars_of(HEADER);
    if !crate::text::chars_eq(&header, &expected) {
        let mut m = owned("replay.play: bad header (expected `TWE-REPLAY v1`, got `");
        crate::text::push_chars(&mut m, &header);
        push_str(&mut m, "`)");
        return Err(m);
    }
    assert(log_scan(src@) == Ok::<(Seq<FrameView>, Option<Seq<char>>), Seq<char>>(scan_from(ls, 1)));
    let mut frames: Vec<LogFrame> = Vec::new();
    let mut k: usize = 1;
    while k < spans.len()
        invariant
            log_scan(src@) == Ok::<(Seq<FrameView>, Option<Seq<char>>), Seq<char>>(scan_from(ls, 1)),
            1 <= k <= spans@.len(),
            spans@.len() == ls.len(),
            ls == lines(v@),
            v@ == src@,
            forall|i: int|
                0 <= i < spans@.len() ==> (#[trigger] spans@[i]).0 <= spans@[i].1 <= v@.len() && lines(v@)[i]
                    == v@.subrange(spans@[i].0 as int, spans@[i].1 as int),
            scan_from(ls, 1) == ({
                let rest = scan_from(ls, k as int);
                (frames@.map_values(|f: LogFrame| frame_view(f)) + rest.0, rest.1)
            }),
        decreases spans.len() - k,
    {
        let (a, b) = spans[k];
        let line = slice_vec(&v, a, b);
        assert(line@ == ls[k as int]);
        if line.len() == 0 {
            k += 1;
            continue;
        }
        let fields = split_chars(&line, '|');
        if fields.len() != 6 {
            let e = field_count_error(k + 1, fields.len());
            proof {
                assert(scan_from(ls, k as int) == (Seq::<FrameView>::empty(), Some(e@)));
                assert(frames@.map_values(|f: LogFrame| frame_view(f)) + Seq::<FrameView>::empty()
                    =~= frames@.map_values(|f: LogFrame| frame_view(f)));
            }
            return Ok(LogScan { frames, error: Some(e) });
        }
        let f0 = string_of(&fields[0]);
        let f1 = string_of(&fields[1]);
        let f4 = string_of(&fields[4]);
        let f5 = string_of(&fields[5]);
        let frame = LogFrame {
            line_no: k + 1,
            keys_held: split_csv(f0.as_str()),
            keys_pressed: split_csv(f1.as_str()),
            mouse_x: string_of(&fields[2]),
            mouse_y: string_of(&fields[3]),
            mb_held: split_csv(f4.as_str()),
            mb_press: split_csv(f5.as_str()),
        };
        let ghost before = frames@;
        frames.push(frame);
        proof {
            let fs = pipe_fields(ls[k as int]);
            assert(frame_view(frames@.last()) == frame_of_line(fs, k + 1));
            assert(frames@.map_values(|f: LogFrame| frame_view(f)) =~= before.map_values(|f: LogFrame| frame_view(f)).push(
                frame_of_line(fs, k + 1),
            ));
            let rest = scan_from(ls, k + 1);
            assert(scan_from(ls, k as int).0 =~= seq![frame_of_line(fs, k + 1)] + rest.0);
            assert(before.map_values(|f: LogFrame| frame_view(f)) + scan_from(ls, k as int).0 =~= frames@.map_values(
                |f: LogFrame| frame_view(f),
            ) + rest.0);
        }
        k += 1;
    }
    proof {
        assert(frames@.map_values(|f: LogFrame| frame_view(f)) + Seq::<FrameView>::empty()
            =~= frames@.map_values(|f: LogFrame| frame_view(f)));
    }
    Ok(LogScan { frames, error: None })
}

// ---------------------------------------------------------------------------
// One frame's line
// ---------------------------------------------------------------------------

/// A frame's six fields as text: held and pressed keys, the mouse
/// coordinates as written, held and pressed mouse buttons.
pub struct FrameText {
    pub keys_held: Vec<String>,
    pub keys_pressed: Vec<String>,
    pub mouse_x: String,
    pub mouse_y: String,
    pub mb_held: Vec<String>,
    pub mb_press: Vec<String>,
}

/// (held, pressed, mouse x, mouse y, mb held, mb press).
pub type FrameFields = (Seq<Seq<char>>, Seq<Seq<char>>, Seq<char>, Seq<char>, Seq<Seq<char>>, Seq<Seq<char>>);

pub open spec fn frame_text_view(f: FrameText) -> FrameFields {
    (strings(f.keys_held@), strings(f.keys_pressed@), f.mouse_x@, f.mouse_y@, strings(f.mb_held@), strings(f.mb_press@))
}

/// The six fields of a frame's line, before they are joined with `|`.
pub open spec fn line_parts(f: FrameFields) -> Seq<Seq<char>> {
    seq![join_with(f.0, ','), join_with(f.1, ','), f.2, f.3, join_with(f.4, ','), join_with(f.5, ',')]
}

/// The line a frame is written as (without its line break).
pub open spec fn frame_line(f: FrameFields) -> Seq<char> {
    join_with(line_parts(f), '|')
}

/// What a line reads as: its six fields, or `None` when it has another
/// number of fields.
pub open spec fn decode_frame(line: Seq<char>) -> Option<FrameFields> {
    let fs = pipe_fields(line);
    if fs.len() == 6 {
        Some((csv_fields(fs[0]), csv_fields(fs[1]), fs[2], fs[3], csv_fields(fs[4]), csv_fields(fs[5])))
    } else {
        None
    }
}

/// The name lists of a frame that its line gives back: no name holds a
/// comma or a bar, no list is a single empty name, and no coordinate
/// holds a bar.
pub open spec fn line_safe(f: FrameFields) -> bool {
    &&& names_line_safe(f.0)
    &&& names_line_safe(f.1)
    &&& !has_char(f.2, '|')
    &&& !has_char(f.3, '|')
    &&& names_line_safe(f.4)
    &&& names_line_safe(f.5)
}

pub open spec fn names_line_safe(v: Seq<Seq<char>>) -> bool {
    csv_safe(v) && forall|i: int| 0 <= i < v.len() ==> !has_char(#[trigger] v[i], '|')
}

/// The line of a frame: its name lists joined with `,`, and the six
/// fields joined with `|`.
pub fn encode_frame_line(f: &FrameText) -> (r: String)
    ensures
        r@ == frame_line(frame_text_view(*f)),
{
    let ghost v = frame_text_view(*f);
    let mut out = String::new();
    push_joined(&mut out, &f.keys_held, ',');
    push_char(&mut out, '|');
    push_joined(&mut out, &f.keys_pressed, ',');
    push_char(&mut out, '|');
    push_str(&mut out, f.mouse_x.as_str());
    push_char(&mut out, '|');
    push_str(&mut out, f.mouse_y.as_str());
    push_char(&mut out, '|');
    push_joined(&mut out, &f.mb_held, ',');
    push_char(&mut out, '|');
    push_joined(&mut out, &f.mb_press, ',');
    proof {
        let p = line_parts(v);
        reveal_with_fuel(join_with, 7);
        assert(p.drop_first() =~= seq![p[1], p[2], p[3], p[4], p[5]]);
        assert(p.drop_first().drop_first() =~= seq![p[2], p[3], p[4], p[5]]);
        assert(p.drop_first().drop_first().drop_first() =~= seq![p[3], p[4], p[5]]);
        assert(p.drop_first().drop_first().drop_first().drop_first() =~= seq![p[4], p[5]]);
        assert(p.drop_first().drop_first().drop_first().drop_first().drop_first() =~= seq![p[5]]);
        assert(out@ =~= frame_line(v));
    }
    out
}

/// Reads one frame's line: `None` unless it has exactly six fields.
pub fn decode_frame_line(line: &str) -> (r: Option<FrameText>)
    ensures
        match r {
            Some(f) => decode_frame(line@) == Some(frame_text_view(f)),
            None => decode_frame(line@) is None,
        },
{
    let v = chars_of(line);
    let fields = split_chars(&v, '|');
    if fields.len() != 6 {
        return None;
    }
    let f0 = string_of(&fields[0]);
    let f1 = string_of(&fields[1]);
    let f4 = string_of(&fields[4]);
    let f5 = string_of(&fields[5]);
    let f = FrameText {
        keys_held: split_csv(f0.as_str()),
        keys_pressed: split_csv(f1.as_str()),
        mouse_x: string_of(&fields[2]),
        mouse_y: string_of(&fields[3]),
        mb_held: split_csv(f4.as_str()),
        mb_press: split_csv(f5.as_str()),
    };
    Some(f)
}

/// A frame's line reads back as the frame.
pub proof fn law_frame_line_round_trip(f: FrameFields)
    requires
        line_safe(f),
    ensures
        decode_frame(frame_line(f)) == Some(f),
{
    let p = line_parts(f);
    lemma_join_lacks(f.0, ',', '|');
    lemma_join_lacks(f.1, ',', '|');
    lemma_join_lacks(f.4, ',', '|');
    lemma_join_lacks(f.5, ',', '|');
    assert forall|i: int| 0 <= i < p.len() implies !has_char(#[trigger] p[i], '|') by {}
    lemma_split_join(p, '|');
    lemma_csv_join(f.0);
    lemma_csv_join(f.1);
    lemma_csv_join(f.4);
    lemma_csv_join(f.5);
}

/// A frame whose line also survives the log: [`line_safe`], and its
/// line holds no line break and does not end in a carriage return.
pub open spec fn log_safe(f: FrameFields) -> bool {
    &&& line_safe(f)
    &&& !has_char(frame_line(f), '\n')
    &&& frame_line(f).last() != '\r'
}

/// The frame lines of a log, each ended by a line break.
pub open spec fn log_body(fs: Seq<FrameFields>) -> Seq<char>
    decreases fs.len(),
{
    if fs.len() == 0 {
        Seq::empty()
    } else {
        frame_line(fs[0]) + seq!['\n'] + log_body(fs.drop_first())
    }
}

/// The text a recorder writes for `fs`: the header line, then one line
/// per frame.
pub open spec fn log_text(fs: Seq<FrameFields>) -> Seq<char> {
    HEADER@ + seq!['\n'] + log_body(fs)
}

/// The frames as `parse_log` reports them, numbered from line `first`.
pub open spec fn numbered(fs: Seq<FrameFields>, first: int) -> Seq<FrameView> {
    Seq::new(fs.len(), |i: int| (first + i, fs[i].0, fs[i].1, fs[i].2, fs[i].3, fs[i].4, fs[i].5))
}

proof fn lemma_lines_cons(a: Seq<char>, rest: Seq<char>)
    requires
        !has_char(a, '\n'),
    ensures
        lines(a + seq!['\n'] + rest) == seq![crate::text::strip_cr(a)] + lines(rest),
{
    let s = a + seq!['\n'] + rest;
    let k = a.len() as int;
    assert(s[k] == '\n');
    assert forall|j: int| 0 <= j < k implies s[j] != '\n' by {
        assert(s[j] == a[j]);
    }
    crate::text::lemma_lines_step(s, 0, k);
    assert(s.subrange(0, s.len() as int) =~= s);
    assert(s.subrange(0, k) =~= a);
    assert(s.subrange(k + 1, s.len() as int) =~= rest);
}

proof fn lemma_body_lines(fs: Seq<FrameFields>)
    requires
        forall|i: int| 0 <= i < fs.len() ==> log_safe(#[trigger] fs[i]),
    ensures
        lines(log_body(fs)) == fs.map_values(|f: FrameFields| frame_line(f)),
    decreases fs.len(),
{
    if fs.len() > 0 {
        let rest = fs.drop_first();
        assert forall|i: int| 0 <= i < rest.len() implies log_safe(#[trigger] rest[i]) by {
            assert(rest[i] == fs[i + 1]);
        }
        lemma_body_lines(rest);
        assert(log_safe(fs[0]));
        lemma_lines_cons(frame_line(fs[0]), log_body(rest));
        assert(fs.map_values(|f: FrameFields| frame_line(f)) =~= seq![frame_line(fs[0])] + rest.map_values(
            |f: FrameFields| frame_line(f),
        ));
    } else {
        assert(log_body(fs) =~= Seq::<char>::empty());
    }
}

proof fn lemma_scan_frames(ls: Seq<Seq<char>>, fs: Seq<FrameFields>, k: int)
    requires
        ls.len() == fs.len() + 1,
        1 <= k <= ls.len(),
        forall|i: int| 1 <= i < ls.len() ==> ls[i] == frame_line(#[trigger] fs[i - 1]),
        forall|i: int| 0 <= i < fs.len() ==> log_safe(#[trigger] fs[i]),
    ensures
        scan_from(ls, k) == (numbered(fs.subrange(k - 1, fs.len() as int), k + 1), None::<Seq<char>>),
    decreases ls.len() - k,
{
    if k == ls.len() {
        assert(numbered(fs.subrange(k - 1, fs.len() as int), k + 1) =~= Seq::<FrameView>::empty());
    } else {
        let f = fs[k - 1];
        assert(ls[k] == frame_line(f));
        assert(log_safe(f));
        let p = line_parts(f);
        assert(frame_line(f)[p[0].len() as int] == '|');
        law_frame_line_round_trip(f);
        lemma_scan_frames(ls, fs, k + 1);
        let head: FrameView = (k + 1, f.0, f.1, f.2, f.3, f.4, f.5);
        assert(frame_of_line(pipe_fields(ls[k]), k + 1) == head);
        assert(seq![head] + numbered(fs.subrange(k, fs.len() as int), k + 2) =~= numbered(
            fs.subrange(k - 1, fs.len() as int),
            k + 1,
        ));
    }
}

/// What a recorder writes reads back: every frame, in order, numbered
/// from the log's second line, and no error.
pub proof fn law_log_round_trip(fs: Seq<FrameFields>)
    requires
        forall|i: int| 0 <= i < fs.len() ==> log_safe(#[trigger] fs[i]),
    ensures
        log_scan(log_text(fs)) == Ok::<(Seq<FrameView>, Option<Seq<char>>), Seq<char>>(
            (numbered(fs, 2), None),
        ),
{
    reveal_strlit("TWE-REPLAY v1");
    let h = HEADER@;
    assert(!has_char(h, '\n'));
    lemma_lines_cons(h, log_body(fs));
    lemma_body_lines(fs);
    let ls = lines(log_text(fs));
    assert(log_text(fs) == h + seq!['\n'] + log_body(fs));
    assert(trim(h) == h);
    assert(ls =~= seq![h] + fs.map_values(|f: FrameFields| frame_line(f)));
    assert forall|i: int| 1 <= i < ls.len() implies ls[i] == frame_line(#[trigger] fs[i - 1]) by {}
    lemma_scan_frames(ls, fs, 1);
    assert(fs.subrange(0, fs.len() as int) =~= fs);
}

// ---------------------------------------------------------------------------
// Recorder / player
// ---------------------------------------------------------------------------

/// At most one recorder or one player is active. The player counts the
/// frames it was given and the next one to deliver; the caller keeps
/// the frames and the recording file.
#[derive(Clone, Copy, Debug, PartialEq, Eq, Structural)]
pub enum Mode {
    Idle,
    Recording,
    Playing { len: usize, cursor: usize },
}

/// What the caller does on a tick.
#[derive(Clone, Copy, Debug, PartialEq, Eq)]
pub enum TickAction {
    /// Nothing is active.
    Nothing,
    /// Append this frame's input to the recording.
    Record,
    /// Overwrite this frame's input with the recorded frame at the index.
    Apply(usize),
    /// The recording ran out: playback has stopped.
    Finished,
}

pub struct Replay {
    pub mode: Mode,
}

pub open spec fn tick_step(m: Mode) -> (Mode, TickAction) {
    match m {
        Mode::Idle => (Mode::Idle, TickAction::Nothing),
        Mode::Recording => (Mode::Recording, TickAction::Record),
        Mode::Playing { len, cursor } => {
            if cursor < len {
                (Mode::Playing { len, cursor: (cursor + 1) as usize }, TickAction::Apply(cursor))
            } else {
                (Mode::Idle, TickAction::Finished)
            }
        },
    }
}

impl Replay {
    pub fn new() -> (r: Replay)
        ensures
            r.mode == Mode::Idle,
    {
        Replay { mode: Mode::Idle }
    }

    /// Ends any recording or playback. Returns whether a recording was
    /// active, whose file the caller then flushes.
    pub fn stop(&mut self) -> (was_recording: bool)
        ensures
            final(self).mode == Mode::Idle,
            was_recording == (old(self).mode == Mode::Recording),
    {
        let was = self.mode == Mode::Recording;
        self.mode = Mode::Idle;
        was
    }

    /// Starts recording (the caller has opened the file).
    pub fn start_recording(&mut self)
        ensures
            final(self).mode == Mode::Recording,
    {
        self.mode = Mode::Recording;
    }

    /// Starts playing `len` frames from the first.
    pub fn start_playing(&mut self, len: usize)
        ensures
            final(self).mode == (Mode::Playing { len, cursor: 0 }),
    {
        self.mode = Mode::Playing { len, cursor: 0 };
    }

    pub fn is_playing(&self) -> (r: bool)
        ensures
            r == (self.mode is Playing),
    {
        match self.mode {
            Mode::Playing { .. } => true,
            _ => false,
        }
    }

    pub fn is_recording(&self) -> (r: bool)
        ensures
            r == (self.mode == Mode::Recording),
    {
        self.mode == Mode::Recording
    }

    /// One simulation tick: record, deliver the next frame, or, past the
    /// last frame, stop playing.
    pub fn tick(&mut self) -> (r: TickAction)
        ensures
            (final(self).mode, r) == tick_step(old(self).mode),
    {
        match self.mode {
            Mode::Idle => TickAction::Nothing,
            Mode::Recording => TickAction::Record,
            Mode::Playing { len, cursor } => {
                if cursor < len {
                    self.mode = Mode::Playing { len, cursor: cursor + 1 };
                    TickAction::Apply(cursor)
                } else {
                    self.mode = Mode::Idle;
                    TickAction::Finished
                }
            },
        }
    }
}

/// The actions of `n` ticks from mode `m`.
pub open spec fn ticks(m: Mode, n: nat) -> Seq<TickAction>
    decreases n,
{
    if n == 0 {
        Seq::empty()
    } else {
        let (next, a) = tick_step(m);
        seq![a] + ticks(next, (n - 1) as nat)
    }
}

pub open spec fn mode_after(m: Mode, n: nat) -> Mode
    decreases n,
{
    if n == 0 {
        m
    } else {
        mode_after(tick_step(m).0, (n - 1) as nat)
    }
}

proof fn lemma_playback(len: usize, cursor: usize, n: nat)
    requires
        cursor <= len,
        cursor + n <= len + 1,
    ensures
        ticks(Mode::Playing { len, cursor }, n).len() == n,
        forall|i: int|
            0 <= i < n ==> #[trigger] ticks(Mode::Playing { len, cursor }, n)[i] == (if cursor + i < len {
                TickAction::Apply((cursor + i) as usize)
            } else {
                TickAction::Finished
            }),
        cursor + n <= len ==> mode_after(Mode::Playing { len, cursor }, n) == (Mode::Playing { len, cursor: (cursor + n) as usize }),
        cursor + n == len + 1 ==> mode_after(Mode::Playing { len, cursor }, n) == Mode::Idle,
    decreases n,
{
    if n > 0 {
        let m = Mode::Playing { len, cursor };
        if cursor < len {
            lemma_playback(len, (cursor + 1) as usize, (n - 1) as nat);
            assert forall|i: int| 0 <= i < n implies #[trigger] ticks(m, n)[i] == (if cursor + i < len {
                TickAction::Apply((cursor + i) as usize)
            } else {
                TickAction::Finished
            }) by {
                if i > 0 {
                    assert(ticks(m, n)[i] == ticks(Mode::Playing { len, cursor: (cursor + 1) as usize }, (n - 1) as nat)[i - 1]);
                }
            }
        } else {
            assert(n == 1);
            assert(ticks(Mode::Idle, 0) =~= Seq::<TickAction>::empty());
            assert(ticks(m, n) =~= seq![TickAction::Finished]);
            assert(mode_after(m, n) == mode_after(Mode::Idle, 0));
        }
    }
}

/// Playing a log of `len` frames delivers frames 0, 1, …, len − 1 in
/// order, one per tick, and the tick after the last frame stops playback.
pub proof fn law_playback_delivers_every_frame_in_order(len: usize)
    ensures
        ticks(Mode::Playing { len, cursor: 0 }, (len + 1) as nat).len() == len + 1,
        forall|i: int| 0 <= i < len ==> #[trigger] ticks(Mode::Playing { len, cursor: 0 }, (len + 1) as nat)[i]
            == TickAction::Apply(i as usize),
        ticks(Mode::Playing { len, cursor: 0 }, (len + 1) as nat)[len as int] == TickAction::Finished,
        mode_after(Mode::Playing { len, cursor: 0 }, (len + 1) as nat) == Mode::Idle,
{
    lemma_playback(len, 0, (len + 1) as nat);
    let t = ticks(Mode::Playing { len, cursor: 0 }, (len + 1) as nat);
    assert(t[len as int] == TickAction::Finished);
}

} // verus!
