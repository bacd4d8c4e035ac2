//! Grading of generated programs against a suite's expected output,
//! and the JSON scorecard that reports the grades.
use vstd::prelude::*;

use crate::text::{
    chars_of, contains, contains_chars, dec, find, find_chars, json_quote, line_spans, lines,
    push_decimal, push_json_str, push_json_string, push_str, slice_vec, string_of, trim,
    trim_bounds,
};

verus! {

/// How actual output is compared against the expected text.
#[derive(Clone, Copy, PartialEq, Eq, Debug)]
pub enum MatchMode {
    /// Trimmed expected text appears anywhere in the actual output.
    Substring,
    /// Trimmed actual output equals trimmed expected text.
    Exact,
    /// Each non-blank expected line appears, in order, in the actual lines.
    Lines,
}

/// Whether `s` spells exactly `lit`.
fn str_is(s: &str, lit: &[char]) -> (r: bool)
    ensures
        r == (s@ == lit@),
{
    let v = chars_of(s);
    crate::text::chars_eq(&v, lit)
}

/// The mode a configuration value names.
pub open spec fn match_mode_of(s: Seq<char>) -> Option<MatchMode> {
    if s == "substring"@ || s == "contains"@ {
        Some(MatchMode::Substring)
    } else if s == "exact"@ {
        Some(MatchMode::Exact)
    } else if s == "lines"@ {
        Some(MatchMode::Lines)
    } else {
        None
    }
}

impl MatchMode {
    /// `"substring"` or `"contains"`, `"exact"`, `"lines"`; anything else is `None`.
    pub fn parse(s: &str) -> (r: Option<MatchMode>)
        ensures
            r == match_mode_of(s@),
    {
        proof {
            reveal_strlit("substring");
            reveal_strlit("contains");
            reveal_strlit("exact");
            reveal_strlit("lines");
        }
        let a = ['s', 'u', 'b', 's', 't', 'r', 'i', 'n', 'g'];
        let b = ['c', 'o', 'n', 't', 'a', 'i', 'n', 's'];
        let c = ['e', 'x', 'a', 'c', 't'];
        let d = ['l', 'i', 'n', 'e', 's'];
        assert(a@ =~= "substring"@);
        assert(b@ =~= "contains"@);
        assert(c@ =~= "exact"@);
        assert(d@ =~= "lines"@);
        if str_is(s, &a) || str_is(s, &b) {
            Some(MatchMode::Substring)
        } else if str_is(s, &c) {
            Some(MatchMode::Exact)
        } else if str_is(s, &d) {
            Some(MatchMode::Lines)
        } else {
            None
        }
    }
}

// ---------------------------------------------------------------------------
// Suite configuration
// ---------------------------------------------------------------------------

/// The keys a suite configuration sets; any other key is ignored.
#[derive(Clone, Copy, PartialEq, Eq, Debug)]
pub enum ConfigKey {
    /// `frames`: how many frames the program runs for.
    Frames,
    /// `dt`: the frame delta, a decimal number of seconds.
    Dt,
    /// `match_mode` or `match`: a [`MatchMode`] name.
    Match,
}

/// One `key = value` line of a suite configuration.
pub struct ConfigSetting {
    pub key: ConfigKey,
    pub value: String,
}

/// The text of a line before its first `#`.
pub open spec fn before_hash(s: Seq<char>) -> Seq<char> {
    match find(s, seq!['#']) {
        Some(k) => s.subrange(0, k),
        None => s,
    }
}

/// `s` without its leading `"` characters.
pub open spec fn trim_start_quotes(s: Seq<char>) -> Seq<char>
    decreases s.len(),
{
    if s.len() > 0 && s[0] == '"' {
        trim_start_quotes(s.drop_first())
    } else {
        s
    }
}

/// `s` without its trailing `"` characters.
pub open spec fn trim_end_quotes(s: Seq<char>) -> Seq<char>
    decreases s.len(),
{
    if s.len() > 0 && s.last() == '"' {
        trim_end_quotes(s.drop_last())
    } else {
        s
    }
}

/// `str::trim_matches('"')`.
pub open spec fn trim_quotes(s: Seq<char>) -> Seq<char> {
    trim_end_quotes(trim_start_quotes(s))
}

/// The key a configuration key names.
pub open spec fn config_key_of(k: Seq<char>) -> Option<ConfigKey> {
    if k == "frames"@ {
        Some(ConfigKey::Frames)
    } else if k == "dt"@ {
        Some(ConfigKey::Dt)
    } else if k == "match_mode"@ || k == "match"@ {
        Some(ConfigKey::Match)
    } else {
        None
    }
}

/// The setting a raw line makes: the text before `#`, trimmed, split at
/// its first `=`; the key trimmed, the value trimmed and stripped of
/// surrounding quotes. Blank lines, lines without `=` and unknown keys
/// set nothing.
pub open spec fn line_setting(raw: Seq<char>) -> Option<(ConfigKey, Seq<char>)> {
    let line = trim(before_hash(raw));
    if line.len() == 0 {
        None
    } else {
        match find(line, seq!['=']) {
            None => None,
            Some(k) => match config_key_of(trim(line.subrange(0, k))) {
                Some(key) => Some((key, trim_quotes(trim(line.subrange(k + 1, line.len() as int))))),
                None => None,
            },
        }
    }
}

/// The settings of the lines `ls`, in order.
pub open spec fn settings_of(ls: Seq<Seq<char>>) -> Seq<(ConfigKey, Seq<char>)>
    decreases ls.len(),
{
    if ls.len() == 0 {
        Seq::empty()
    } else {
        settings_of(ls.drop_last()) + match line_setting(ls.last()) {
            Some(x) => seq![x],
            None => Seq::empty(),
        }
    }
}

pub open spec fn setting_view(s: ConfigSetting) -> (ConfigKey, Seq<char>) {
    (s.key, s.value@)
}

/// Bounds of `v[from..to]` without its leading and trailing quotes.
fn trim_quote_bounds(v: &[char], from: usize, to: usize) -> (r: (usize, usize))
    requires
        from <= to <= v@.len(),
    ensures
        from <= r.0 <= r.1 <= to,
        trim_quotes(v@.subrange(from as int, to as int)) == v@.subrange(r.0 as int, r.1 as int),
{
    let mut i = from;
    while i < to && v[i] == '"'
        invariant
            from <= i <= to,
            to <= v@.len(),
            trim_start_quotes(v@.subrange(from as int, to as int)) == trim_start_quotes(
                v@.subrange(i as int, to as int),
            ),
        decreases to - i,
    {
        assert(v@.subrange(i as int, to as int).drop_first() =~= v@.subrange(i + 1, to as int));
        i += 1;
    }
    let mut j = to;
    while j > i && v[j - 1] == '"'
        invariant
            i <= j <= to,
            to <= v@.len(),
            trim_end_quotes(v@.subrange(i as int, to as int)) == trim_end_quotes(
                v@.subrange(i as int, j as int),
            ),
        decreases j - i,
    {
        assert(v@.subrange(i as int, j as int).drop_last() =~= v@.subrange(i as int, j - 1));
        j -= 1;
    }
    (i, j)
}

/// The configuration key `k` names, if any.
fn config_key(k: &[char]) -> (r: Option<ConfigKey>)
    ensures
        r == config_key_of(k@),
{
    proof {
        reveal_strlit("frames");
        reveal_strlit("dt");
        reveal_strlit("match_mode");
        reveal_strlit("match");
    }
    let a = ['f', 'r', 'a', 'm', 'e', 's'];
    let b = ['d', 't'];
    let c = ['m', 'a', 't', 'c', 'h', '_', 'm', 'o', 'd', 'e'];
    let d = ['m', 'a', 't', 'c', 'h'];
    assert(a@ =~= "frames"@);
    assert(b@ =~= "dt"@);
    assert(c@ =~= "match_mode"@);
    assert(d@ =~= "match"@);
    if crate::text::chars_eq(k, &a) {
        Some(ConfigKey::Frames)
    } else if crate::text::chars_eq(k, &b) {
        Some(ConfigKey::Dt)
    } else if crate::text::chars_eq(k, &c) || crate::text::chars_eq(k, &d) {
        Some(ConfigKey::Match)
    } else {
        None
    }
}

/// The setting one line makes.
fn setting_of_line(raw: &[char]) -> (r: Option<ConfigSetting>)
    ensures
        match r {
            Some(s) => line_setting(raw@) == Some(setting_view(s)),
            None => line_setting(raw@) is None,
        },
{
    let hash = ['#'];
    assert(hash@ =~= seq!['#']);
    proof { crate::text::lemma_find_from_props(raw@, seq!['#'], 0); }
    let end = match find_chars(raw, &hash) {
        Some(k) => k,
        None => raw.len(),
    };
    assert(raw@.subrange(0, end as int) == before_hash(raw@)) by {
        assert(raw@.subrange(0, raw@.len() as int) =~= raw@);
    }
    let (s0, e0) = trim_bounds(raw, 0, end);
    if s0 == e0 {
        return None;
    }
    let line = slice_vec(raw, s0, e0);
    let eq = ['='];
    assert(eq@ =~= seq!['=']);
    proof { crate::text::lemma_find_from_props(line@, seq!['='], 0); }
    match find_chars(&line, &eq) {
        None => None,
        Some(k) => {
            let (ks, ke) = trim_bounds(&line, 0, k);
            let key_chars = slice_vec(&line, ks, ke);
            match config_key(&key_chars) {
                None => None,
                Some(key) => {
                    let (vs, ve) = trim_bounds(&line, k + 1, line.len());
                    let (qs, qe) = trim_quote_bounds(&line, vs, ve);
                    let value = string_of(&slice_vec(&line, qs, qe));
                    Some(ConfigSetting { key, value })
                },
            }
        },
    }
}

/// The settings a suite configuration makes, in line order. Text after a
/// `#` is a comment; blank lines, lines without `=` and unknown keys set
/// nothing; values are trimmed and stripped of surrounding quotes.
pub fn config_settings(text: &str) -> (r: Vec<ConfigSetting>)
    ensures
        r@.map_values(|s: ConfigSetting| setting_view(s)) == settings_of(lines(text@)),
{
    let v = chars_of(text);
    let spans = line_spans(&v);
    let ghost ls = lines(text@);
    let mut out: Vec<ConfigSetting> = Vec::new();
    let mut i: usize = 0;
    while i < spans.len()
        invariant
            i <= spans@.len(),
            spans@.len() == ls.len(),
            ls == lines(v@),
            v@ == text@,
            forall|j: int|
                0 <= j < spans@.len() ==> (#[trigger] spans@[j]).0 <= spans@[j].1 <= v@.len() && lines(v@)[j]
                    == v@.subrange(spans@[j].0 as int, spans@[j].1 as int),
            out@.map_values(|s: ConfigSetting| setting_view(s)) == settings_of(ls.subrange(0, i as int)),
        decreases spans.len() - i,
    {
        let (a, b) = spans[i];
        let raw = slice_vec(&v, a, b);
        let ghost before = out@.map_values(|s: ConfigSetting| setting_view(s));
        assert(ls.subrange(0, i + 1).drop_last() =~= ls.subrange(0, i as int));
        assert(ls.subrange(0, i + 1).last() == raw@);
        match setting_of_line(&raw) {
            Some(st) => {
                out.push(st);
                assert(out@.map_values(|s: ConfigSetting| setting_view(s)) =~= before.push(setting_view(out@.last())));
                assert(settings_of(ls.subrange(0, i + 1)) =~= before + seq![setting_view(out@.last())]);
            },
            None => {
                assert(settings_of(ls.subrange(0, i + 1)) =~= before);
            },
        }
        i += 1;
    }
    assert(ls.subrange(0, ls.len() as int) =~= ls);
    out
}

/// Whether every character of `d` is an ASCII digit.
pub open spec fn all_digits(d: Seq<char>) -> bool {
    forall|i: int| 0 <= i < d.len() ==> '0' <= #[trigger] d[i] && d[i] <= '9'
}

/// The number the ASCII digits `d` spell in base ten.
pub open spec fn digits_value(d: Seq<char>) -> nat
    decreases d.len(),
{
    if d.len() == 0 {
        0
    } else {
        digits_value(d.drop_last()) * 10 + (d.last() as nat - '0' as nat) as nat
    }
}

/// What `u32::from_str` accepts, as its documentation states it: an
/// optional `+` followed by one or more ASCII digits whose value fits.
pub open spec fn u32_of_text(s: Seq<char>) -> Option<u32> {
    let d = if s.len() > 0 && s[0] == '+' { s.drop_first() } else { s };
    if d.len() > 0 && all_digits(d) && digits_value(d) <= u32::MAX {
        Some(digits_value(d) as u32)
    } else {
        None
    }
}

/// The text of the error `u32::from_str` gives for `s`.
pub uninterp spec fn u32_parse_error(s: Seq<char>) -> Seq<char>;

/// `str::parse::<u32>`, the error rendered with `to_string`. Trusted:
/// that it succeeds exactly on an optional `+` and base-ten digits whose
/// value fits in a `u32`, with that value, as the standard library
/// documents; the error text is only named.
#[verifier::external_body]
fn parse_u32(s: &str) -> (r: Result<u32, String>)
    ensures
        match r {
            Ok(n) => u32_of_text(s@) == Some(n),
            Err(e) => u32_of_text(s@) is None && e@ == u32_parse_error(s@),
        },
{
    match s.parse::<u32>() {
        Ok(n) => Ok(n),
        Err(e) => Err(e.to_string()),
    }
}

/// The frame count a `frames` setting gives, or the configuration error.
pub fn frames_value(value: &str) -> (r: Result<u32, String>)
    ensures
        match r {
            Ok(n) => u32_of_text(value@) == Some(n),
            Err(e) => u32_of_text(value@) is None && e@ == "config `frames` not an int: "@ + u32_parse_error(
                value@,
            ),
        },
{
    match parse_u32(value) {
        Ok(n) => Ok(n),
        Err(e) => {
            let mut m = String::new();
            push_str(&mut m, "config `frames` not an int: ");
            push_str(&mut m, e.as_str());
            Err(m)
        },
    }
}

/// The mode a `match_mode` setting names, or the configuration error.
pub fn match_value(value: &str) -> (r: Result<MatchMode, String>)
    ensures
        match r {
            Ok(m) => match_mode_of(value@) == Some(m),
            Err(e) => match_mode_of(value@) is None && e@ == "config `match_mode`: unknown value `"@ + value@
                + "`"@,
        },
{
    match MatchMode::parse(value) {
        Some(m) => Ok(m),
        None => {
            let mut m = String::new();
            push_str(&mut m, "config `match_mode`: unknown value `");
            push_str(&mut m, value);
            push_str(&mut m, "`");
            Err(m)
        },
    }
}

/// Pipeline stage reached by a grading run.
#[derive(Clone, Copy, PartialEq, Eq, Debug)]
pub enum Stage {
    Lex,
    Parse,
    Run,
    Match,
}

pub open spec fn stage_name(st: Stage) -> Seq<char> {
    match st {
        Stage::Lex => "lex"@,
        Stage::Parse => "parse"@,
        Stage::Run => "run"@,
        Stage::Match => "match"@,
    }
}

impl Stage {
    pub fn as_str(self) -> (r: &'static str)
        ensures
            r@ == stage_name(self),
    {
        match self {
            Stage::Lex => "lex",
            Stage::Parse => "parse",
            Stage::Run => "run",
            Stage::Match => "match",
        }
    }
}

/// Result of grading one (suite, source) pair.
pub struct Score {
    pub suite: String,
    pub passed: bool,
    pub stage: Stage,
    pub actual_output: String,
    pub message: Option<String>,
    pub source_lines: usize,
    pub source_bytes: usize,
}

// ---------------------------------------------------------------------------
// Output matching
// ---------------------------------------------------------------------------

/// Index of the first line of `act` at or after `j` that contains `needle`.
pub open spec fn first_containing(act: Seq<Seq<char>>, needle: Seq<char>, j: int) -> Option<int>
    decreases act.len() - j,
{
    if j < 0 || j >= act.len() {
        None
    } else if contains(act[j], needle) {
        Some(j)
    } else {
        first_containing(act, needle, j + 1)
    }
}

/// Line-wise matching: each non-blank expected line (trimmed) must be
/// found in a later actual line than the previous one.
pub open spec fn lines_match(exp: Seq<Seq<char>>, act: Seq<Seq<char>>, j: int) -> bool
    decreases exp.len(),
{
    if exp.len() == 0 {
        true
    } else {
        let needle = trim(exp[0]);
        if needle.len() == 0 {
            lines_match(exp.drop_first(), act, j)
        } else {
            match first_containing(act, needle, j) {
                None => false,
                Some(k) => lines_match(exp.drop_first(), act, k + 1),
            }
        }
    }
}

/// Whether `actual` output satisfies `expected` under `mode`.
pub open spec fn output_matches_spec(expected: Seq<char>, actual: Seq<char>, mode: MatchMode) -> bool {
    match mode {
        MatchMode::Substring => contains(actual, trim(expected)),
        MatchMode::Exact => trim(actual) == trim(expected),
        MatchMode::Lines => lines_match(lines(expected), lines(actual), 0),
    }
}

/// In exact mode an output always matches itself, the verdict does not
/// depend on which side is expected, and whitespace added before or
/// after either output never changes it.
pub proof fn law_exact_ignores_surrounding_whitespace(
    expected: Seq<char>,
    actual: Seq<char>,
    w1: Seq<char>,
    w2: Seq<char>,
)
    requires
        crate::text::all_ws(w1),
        crate::text::all_ws(w2),
    ensures
        output_matches_spec(expected, expected, MatchMode::Exact),
        output_matches_spec(expected, actual, MatchMode::Exact) == output_matches_spec(actual, expected, MatchMode::Exact),
        output_matches_spec(expected, w1 + actual + w2, MatchMode::Exact) == output_matches_spec(
            expected,
            actual,
            MatchMode::Exact,
        ),
        output_matches_spec(w1 + expected + w2, actual, MatchMode::Exact) == output_matches_spec(
            expected,
            actual,
            MatchMode::Exact,
        ),
{
    crate::text::lemma_trim_ws_around(actual, w1, w2);
    crate::text::lemma_trim_ws_around(expected, w1, w2);
}

/// In substring mode an output matches itself, text added around a
/// matching output keeps it matching, and an exact match is also a
/// substring match.
pub proof fn law_substring_match_is_containment(expected: Seq<char>, actual: Seq<char>, x: Seq<char>, y: Seq<char>)
    ensures
        output_matches_spec(expected, expected, MatchMode::Substring),
        output_matches_spec(expected, actual, MatchMode::Substring) ==> output_matches_spec(
            expected,
            x + actual + y,
            MatchMode::Substring,
        ),
        output_matches_spec(expected, actual, MatchMode::Exact) ==> output_matches_spec(
            expected,
            actual,
            MatchMode::Substring,
        ),
{
    crate::text::lemma_contains_trim(expected);
    crate::text::lemma_contains_trim(actual);
    if output_matches_spec(expected, actual, MatchMode::Substring) {
        crate::text::lemma_contains_extend(x, actual, y, trim(expected));
    }
}

proof fn lemma_first_containing_bounds(act: Seq<Seq<char>>, needle: Seq<char>, j: int)
    requires
        0 <= j,
    ensures
        first_containing(act, needle, j) matches Some(k) ==> j <= k < act.len(),
    decreases act.len() - j,
{
    if j < act.len() && !contains(act[j], needle) {
        lemma_first_containing_bounds(act, needle, j + 1);
    }
}

/// Compare `actual` with `expected` under `mode`.
#[verifier::loop_isolation(false)]
pub fn output_matches(expected: &str, actual: &str, mode: MatchMode) -> (r: bool)
    ensures
        r == output_matches_spec(expected@, actual@, mode),
{
    let e = chars_of(expected);
    let a = chars_of(actual);
    match mode {
        MatchMode::Substring => {
            let (s, t) = trim_bounds(&e, 0, e.len());
            let needle = slice_vec(&e, s, t);
            assert(e@.subrange(0, e@.len() as int) =~= e@);
            contains_chars(&a, &needle)
        },
        MatchMode::Exact => {
            let (s1, t1) = trim_bounds(&e, 0, e.len());
            let (s2, t2) = trim_bounds(&a, 0, a.len());
            assert(e@.subrange(0, e@.len() as int) =~= e@);
            assert(a@.subrange(0, a@.len() as int) =~= a@);
            let x = slice_vec(&e, s1, t1);
            let y = slice_vec(&a, s2, t2);
            crate::text::chars_eq(&y, &x)
        },
        MatchMode::Lines => {
            let el = line_spans(&e);
            let al = line_spans(&a);
            let ghost exp = lines(e@);
            let ghost act = lines(a@);
            let mut i: usize = 0;
            let mut j: usize = 0;
            assert(exp.subrange(0, exp.len() as int) =~= exp);
            while i < el.len()
                invariant
                    el@.len() == exp.len(),
                    al@.len() == act.len(),
                    forall|k: int|
                        0 <= k < el@.len() ==> (#[trigger] el@[k]).0 <= el@[k].1 <= e@.len()
                            && exp[k] == e@.subrange(el@[k].0 as int, el@[k].1 as int),
                    forall|k: int|
                        0 <= k < al@.len() ==> (#[trigger] al@[k]).0 <= al@[k].1 <= a@.len()
                            && act[k] == a@.subrange(al@[k].0 as int, al@[k].1 as int),
                    i <= el@.len(),
                    j <= al@.len(),
                    lines_match(exp, act, 0) == lines_match(exp.subrange(i as int, exp.len() as int), act, j as int),
                decreases el.len() - i,
            {
                let ghost rest = exp.subrange(i as int, exp.len() as int);
                assert(rest.drop_first() =~= exp.subrange(i + 1, exp.len() as int));
                assert(rest[0] == exp[i as int]);
                let (ls, le) = el[i];
                let (s, t) = trim_bounds(&e, ls, le);
                if s == t {
                    assert(trim(rest[0]).len() == 0);
                    i += 1;
                } else {
                    let needle = slice_vec(&e, s, t);
                    assert(needle@ == trim(rest[0]));
                    let mut found = false;
                    let ghost j0 = j as int;
                    while j < al.len() && !found
                        invariant
                            al@.len() == act.len(),
                            forall|k: int|
                                0 <= k < al@.len() ==> (#[trigger] al@[k]).0 <= al@[k].1 <= a@.len()
                                    && act[k] == a@.subrange(al@[k].0 as int, al@[k].1 as int),
                            j <= al@.len(),
                            j0 <= j,
                            !found ==> first_containing(act, needle@, j0) == first_containing(act, needle@, j as int),
                            found ==> j >= 1 && first_containing(act, needle@, j0) == Some(j - 1),
                        decreases al.len() - j + if found { 0int } else { 1int },
                    {
                        let (as_, ae) = al[j];
                        let line = slice_vec(&a, as_, ae);
                        if contains_chars(&line, &needle) {
                            found = true;
                        }
                        j += 1;
                    }
                    if !found {
                        assert(first_containing(act, needle@, j as int) is None);
                        assert(needle@.len() > 0);
                        assert(!lines_match(rest, act, j0));
                        return false;
                    }
                    assert(lines_match(rest, act, j0) == lines_match(rest.drop_first(), act, j as int));
                    i += 1;
                }
            }
            proof {
                assert(exp.subrange(i as int, exp.len() as int).len() == 0);
            }
            true
        },
    }
}

/// The first `n` characters of `s` (all of `s` if it is shorter).
pub fn head(s: &str, n: usize) -> (r: &str)
    ensures
        r@ == s@.subrange(0, if n < s@.len() { n as int } else { s@.len() as int }),
{
    let len = s.unicode_len();
    let end = if n < len { n } else { len };
    s.substring_char(0, end)
}

// ---------------------------------------------------------------------------
// JSON scorecard
// ---------------------------------------------------------------------------

pub open spec fn bool_text(b: bool) -> Seq<char> {
    if b { "true"@ } else { "false"@ }
}

pub open spec fn message_json(m: Option<String>) -> Seq<char> {
    match m {
        Some(t) => json_quote(t@),
        None => "null"@,
    }
}

/// One score as a JSON object.
pub open spec fn score_json(sc: Score) -> Seq<char> {
    seq!['{'] + "\"suite\":"@ + json_quote(sc.suite@) + ",\"passed\":"@ + bool_text(sc.passed)
        + ",\"stage\":"@ + json_quote(stage_name(sc.stage)) + ",\"source_lines\":"@ + dec(
        sc.source_lines as nat,
    ) + ",\"source_bytes\":"@ + dec(sc.source_bytes as nat) + ",\"actual_output\":"@
        + json_quote(sc.actual_output@) + ",\"message\":"@ + message_json(sc.message) + seq!['}']
}

/// The scores as a comma-separated list of JSON objects.
pub open spec fn scores_list(scores: Seq<Score>) -> Seq<char>
    decreases scores.len(),
{
    if scores.len() == 0 {
        Seq::empty()
    } else if scores.len() == 1 {
        score_json(scores[0])
    } else {
        scores_list(scores.drop_last()) + seq![','] + score_json(scores.last())
    }
}

/// Number of passing scores.
pub open spec fn passed_count(scores: Seq<Score>) -> nat
    decreases scores.len(),
{
    if scores.len() == 0 {
        0
    } else {
        passed_count(scores.drop_last()) + if scores.last().passed { 1nat } else { 0nat }
    }
}

/// The whole scorecard document.
pub open spec fn scorecard(scores: Seq<Score>) -> Seq<char> {
    seq!['{'] + "\"tool\":\"twec-eval\",\"version\":1"@ + ",\"summary\":{\"total\":"@ + dec(
        scores.len(),
    ) + ",\"passed\":"@ + dec(passed_count(scores)) + ",\"failed\":"@ + dec(
        (scores.len() - passed_count(scores)) as nat,
    ) + "},\"scores\":["@ + scores_list(scores) + "]}"@
}

proof fn lemma_passed_count_bound(scores: Seq<Score>)
    ensures
        passed_count(scores) <= scores.len(),
    decreases scores.len(),
{
    if scores.len() > 0 {
        lemma_passed_count_bound(scores.drop_last());
    }
}

fn count_passed(scores: &[Score]) -> (r: usize)
    ensures
        r == passed_count(scores@),
{
    let mut k: usize = 0;
    let mut i: usize = 0;
    while i < scores.len()
        invariant
            i <= scores@.len(),
            k == passed_count(scores@.subrange(0, i as int)),
            k <= i,
        decreases scores.len() - i,
    {
        assert(scores@.subrange(0, i + 1).drop_last() =~= scores@.subrange(0, i as int));
        if scores[i].passed {
            k += 1;
        }
        i += 1;
    }
    assert(scores@.subrange(0, i as int) =~= scores@);
    k
}

#[verifier::rlimit(60)]
fn push_score(out: &mut String, sc: &Score)
    ensures
        final(out)@ == old(out)@ + score_json(*sc),
{
    crate::text::push_char(out, '{');
    push_str(out, "\"suite\":");
    json_string(out, sc.suite.as_str());
    push_str(out, ",\"passed\":");
    if sc.passed {
        push_str(out, "true");
    } else {
        push_str(out, "false");
    }
    push_str(out, ",\"stage\":");
    json_string(out, sc.stage.as_str());
    push_str(out, ",\"source_lines\":");
    push_decimal(out, sc.source_lines as u64);
    push_str(out, ",\"source_bytes\":");
    push_decimal(out, sc.source_bytes as u64);
    push_str(out, ",\"actual_output\":");
    json_string(out, sc.actual_output.as_str());
    push_str(out, ",\"message\":");
    match &sc.message {
        Some(m) => json_string(out, m.as_str()),
        None => push_str(out, "null"),
    }
    crate::text::push_char(out, '}');
    assert(final(out)@ =~= old(out)@ + score_json(*sc));
}

/// Render scores as one JSON document: tool name and version, a
/// summary (total / passed / failed) and one object per score.
pub fn scorecard_json(scores: &[Score]) -> (r: String)
    ensures
        r@ == scorecard(scores@),
{
    let mut s = String::new();
    crate::text::push_char(&mut s, '{');
    push_str(&mut s, "\"tool\":\"twec-eval\",\"version\":1");
    let total = scores.len();
    let passed = count_passed(scores);
    proof { lemma_passed_count_bound(scores@); }
    push_str(&mut s, ",\"summary\":{\"total\":");
    push_decimal(&mut s, total as u64);
    push_str(&mut s, ",\"passed\":");
    push_decimal(&mut s, passed as u64);
    push_str(&mut s, ",\"failed\":");
    push_decimal(&mut s, (total - passed) as u64);
    push_str(&mut s, "},\"scores\":[");
    let ghost prefix = s@;
    let mut i: usize = 0;
    while i < scores.len()
        invariant
            i <= scores@.len(),
            s@ == prefix + scores_list(scores@.subrange(0, i as int)),
        decreases scores.len() - i,
    {
        let ghost sub = scores@.subrange(0, i + 1);
        assert(sub.drop_last() =~= scores@.subrange(0, i as int));
        assert(sub.last() == scores@[i as int]);
        if i > 0 {
            crate::text::push_char(&mut s, ',');
        } else {
            assert(scores@.subrange(0, 0) =~= Seq::<Score>::empty());
        }
        push_score(&mut s, &scores[i]);
        proof {
            if i == 0 {
                assert(s@ =~= prefix + scores_list(sub));
            } else {
                assert(s@ =~= prefix + scores_list(sub));
            }
        }
        i += 1;
    }
    assert(scores@.subrange(0, i as int) =~= scores@);
    push_str(&mut s, "]}");
    assert(s@ =~= scorecard(scores@));
    s
}

/// Appends `value` as a JSON string literal.
pub fn json_string(out: &mut String, value: &str)
    ensures
        final(out)@ == old(out)@ + json_quote(value@),
{
    push_json_str(out, value);
}

} // verus!
