//! Trivia preservation for the canonical-form printer: the comments and
//! blank lines of a source, anchored to their lines, and the cursor that
//! re-emits them ahead of the printed code that follows them.
//!
//! Captured: whitespace-only lines, line comments that start a line
//! (`# ...`, up to the line's end), and block comments `#- ... -#` that
//! start a line (anchored to their first line). A comment after code on
//! the same line is not captured.
use vstd::prelude::*;
use crate::ast::{Program, Stmt};
use crate::stmt_printer::{
    at, blank_if, cursor_ok, flush_to, law_all_trivia_emitted, print_stmt, program_fold, program_out, program_text, program_text_with_trivia, stmt_line,
    takes_blank_neighbor, top_level_blank, without_blank_tail,
};
use crate::text::{chars_of, is_ws, is_whitespace, owned, push_char, push_chars, push_str, split_char, split_chars};

verus! {

/// One piece of preserved trivia.
#[derive(Clone, Debug, PartialEq, Eq)]
pub enum Trivia {
    Blank,
    /// A `# ...` comment, from the `#` to the end of its line.
    Comment(String),
    /// A `#- ... -#` block comment, verbatim, newlines included.
    BlockComment(String),
}

/// (kind, text): kind 0 blank, 1 line comment, 2 block comment.
pub open spec fn trivia_view(t: Trivia) -> (int, Seq<char>) {
    match t {
        Trivia::Blank => (0, Seq::empty()),
        Trivia::Comment(s) => (1, s@),
        Trivia::BlockComment(s) => (2, s@),
    }
}

pub open spec fn item_view(it: (u32, Trivia)) -> (int, int, Seq<char>) {
    (it.0 as int, trivia_view(it.1).0, trivia_view(it.1).1)
}

pub open spec fn items_view(v: Seq<(u32, Trivia)>) -> Seq<(int, int, Seq<char>)> {
    v.map_values(|it: (u32, Trivia)| item_view(it))
}

// ---------------------------------------------------------------------------
// Scanning a source for trivia
// ---------------------------------------------------------------------------

/// Scanner modes.
pub const MODE_CODE: u8 = 0;
pub const MODE_COMMENT: u8 = 1;
pub const MODE_HASH: u8 = 2;
pub const MODE_BLOCK: u8 = 3;

/// The scanner's state: (line number, whether the line has code yet,
/// mode, text being captured, first line of the open block comment,
/// previous character inside it, trivia found so far).
pub type ScanState = (int, bool, u8, Seq<char>, int, char, Seq<(int, int, Seq<char>)>);

pub open spec fn scan_start() -> ScanState {
    (1, false, MODE_CODE, Seq::empty(), 1, ' ', Seq::empty())
}

/// One character in the comment-capturing mode.
pub open spec fn comment_step(st: ScanState, c: char) -> ScanState {
    let (line, code, mode, buf, start, prev, out) = st;
    if c == '\n' {
        (line + 1, false, MODE_CODE, Seq::empty(), start, prev, out.push((line, 1, buf)))
    } else {
        (line, code, MODE_COMMENT, buf.push(c), start, prev, out)
    }
}

/// One character of the source.
pub open spec fn scan_step(st: ScanState, c: char) -> ScanState {
    let (line, code, mode, buf, start, prev, out) = st;
    if mode == MODE_BLOCK {
        let b = buf.push(c);
        if prev == '-' && c == '#' {
            (line, code, MODE_CODE, Seq::empty(), start, c, out.push((start, 2, b)))
        } else {
            (if c == '\n' { line + 1 } else { line }, code, MODE_BLOCK, b, start, c, out)
        }
    } else if mode == MODE_HASH {
        if c == '-' {
            (line, code, MODE_BLOCK, seq!['#', '-'], line, ' ', out)
        } else {
            comment_step((line, code, MODE_COMMENT, seq!['#'], start, prev, out), c)
        }
    } else if mode == MODE_COMMENT {
        comment_step(st, c)
    } else if c == '\n' {
        (line + 1, false, MODE_CODE, buf, start, prev, if !code { out.push((line, 0, Seq::empty())) } else { out })
    } else if c == '#' && !code {
        (line, code, MODE_HASH, buf, start, prev, out)
    } else {
        (line, code || !is_ws(c), MODE_CODE, buf, start, prev, out)
    }
}

/// The state after scanning all of `s`.
pub open spec fn scan(s: Seq<char>) -> ScanState
    decreases s.len(),
{
    if s.len() == 0 {
        scan_start()
    } else {
        scan_step(scan(s.drop_last()), s.last())
    }
}

/// The trivia of a source: what the scan found, plus a comment still
/// open at the end of the text (an unterminated block comment is
/// dropped).
pub open spec fn trivia_of(s: Seq<char>) -> Seq<(int, int, Seq<char>)> {
    let (line, code, mode, buf, start, prev, out) = scan(s);
    if mode == MODE_COMMENT {
        out.push((line, 1, buf))
    } else if mode == MODE_HASH {
        out.push((line, 1, seq!['#']))
    } else {
        out
    }
}

pub open spec fn newline_count(s: Seq<char>) -> nat
    decreases s.len(),
{
    if s.len() == 0 {
        0
    } else {
        newline_count(s.drop_last()) + if s.last() == '\n' { 1nat } else { 0nat }
    }
}

proof fn lemma_scan_line(s: Seq<char>)
    ensures
        scan(s).0 == 1 + newline_count(s),
    decreases s.len(),
{
    if s.len() > 0 {
        lemma_scan_line(s.drop_last());
    }
}

proof fn lemma_scan_lines(s: Seq<char>)
    ensures
        scan(s).4 <= scan(s).0,
        forall|k: int| 0 <= k < scan(s).6.len() ==> (#[trigger] scan(s).6[k]).0 <= scan(s).0,
    decreases s.len(),
{
    if s.len() > 0 {
        lemma_scan_lines(s.drop_last());
        let st = scan(s.drop_last());
        let c = s.last();
        let nx = scan_step(st, c);
        assert(scan(s) == nx);
        assert forall|k: int| 0 <= k < nx.6.len() implies (#[trigger] nx.6[k]).0 <= nx.0 by {
            if k < st.6.len() {
                assert(st.6[k].0 <= st.0);
            }
        }
    }
}

/// Every captured piece of trivia sits on a line of the source.
proof fn lemma_trivia_lines(s: Seq<char>)
    ensures
        forall|k: int| 0 <= k < trivia_of(s).len() ==> (#[trigger] trivia_of(s)[k]).0 <= 1 + newline_count(s),
{
    lemma_scan_lines(s);
    lemma_scan_line(s);
    let st = scan(s);
    assert forall|k: int| 0 <= k < trivia_of(s).len() implies (#[trigger] trivia_of(s)[k]).0 <= 1 + newline_count(s) by {
        if k < st.6.len() {
            assert(trivia_of(s)[k] == st.6[k]);
        }
    }
}

/// Captures the blank lines and line-leading comments of `src`, each
/// with its 1-based line, in source order.
pub fn extract_trivia(src: &str) -> (r: Vec<(u32, Trivia)>)
    requires
        newline_count(src@) < u32::MAX,
    ensures
        items_view(r@) == trivia_of(src@),
{
    let v = chars_of(src);
    let mut out: Vec<(u32, Trivia)> = Vec::new();
    let mut line_no: u32 = 1;
    let mut code = false;
    let mut mode: u8 = MODE_CODE;
    let mut buf: Vec<char> = Vec::new();
    let mut start: u32 = 1;
    let mut prev: char = ' ';
    let mut i: usize = 0;
    proof {
        assert(v@.subrange(0, 0) =~= Seq::<char>::empty());
        assert(items_view(out@) =~= Seq::<(int, int, Seq<char>)>::empty());
    }
    while i < v.len()
        invariant
            i <= v@.len(),
            v@ == src@,
            newline_count(src@) < u32::MAX,
            scan(v@.subrange(0, i as int)) == (line_no as int, code, mode, buf@, start as int, prev, items_view(out@)),
        decreases v.len() - i,
    {
        let ghost pre = v@.subrange(0, i as int);
        proof {
            assert(v@.subrange(0, i + 1).drop_last() =~= pre);
            lemma_scan_line(v@.subrange(0, i + 1));
            lemma_newline_prefix(v@, i + 1);
        }
        let c = v[i];
        let ghost o0 = out@;
        if mode == MODE_BLOCK {
            buf.push(c);
            if prev == '-' && c == '#' {
                let text = crate::text::string_of(&buf);
                out.push((start, Trivia::BlockComment(text)));
                buf = Vec::new();
                mode = MODE_CODE;
            } else if c == '\n' {
                line_no = line_no + 1;
            }
            prev = c;
        } else {
            if mode == MODE_HASH {
                if c == '-' {
                    mode = MODE_BLOCK;
                    buf = vec!['#', '-'];
                    assert(buf@ =~= seq!['#', '-']);
                    start = line_no;
                    prev = ' ';
                    proof {
                        assert(items_view(out@) =~= items_view(o0));
                    }
                    i += 1;
                    continue;
                }
                mode = MODE_COMMENT;
                buf = vec!['#'];
                assert(buf@ =~= seq!['#']);
            }
            if mode == MODE_COMMENT {
                if c == '\n' {
                    let text = crate::text::string_of(&buf);
                    out.push((line_no, Trivia::Comment(text)));
                    buf = Vec::new();
                    mode = MODE_CODE;
                    line_no = line_no + 1;
                    code = false;
                } else {
                    buf.push(c);
                }
            } else if c == '\n' {
                if !code {
                    out.push((line_no, Trivia::Blank));
                }
                line_no = line_no + 1;
                code = false;
            } else if c == '#' && !code {
                mode = MODE_HASH;
            } else if !is_whitespace(c) {
                code = true;
            }
        }
        proof {
            assert(scan(v@.subrange(0, i + 1)) == scan_step(scan(pre), c));
            assert(items_view(out@) =~= scan(v@.subrange(0, i + 1)).6);

        }
        i += 1;
    }
    assert(v@.subrange(0, v@.len() as int) =~= v@);
    let ghost old_out = out;
    assert(scan(src@) == (line_no as int, code, mode, buf@, start as int, prev, items_view(old_out@)));
    if mode == MODE_COMMENT {
        let text = crate::text::string_of(&buf);
        out.push((line_no, Trivia::Comment(text)));
        assert(items_view(out@) =~= items_view(old_out@).push((line_no as int, 1, buf@)));
    } else if mode == MODE_HASH {
        let hash = owned("#");
        proof { reveal_strlit("#"); }
        assert(hash@ =~= seq!['#']);
        out.push((line_no, Trivia::Comment(hash)));
        assert(items_view(out@) =~= items_view(old_out@).push((line_no as int, 1, seq!['#'])));
    }
    assert(items_view(out@) =~= trivia_of(src@));
    out
}

proof fn lemma_newline_prefix(s: Seq<char>, k: int)
    requires
        0 <= k <= s.len(),
    ensures
        newline_count(s.subrange(0, k)) <= newline_count(s),
    decreases s.len() - k,
{
    if k < s.len() {
        lemma_newline_prefix(s, k + 1);
        assert(s.subrange(0, k + 1).drop_last() =~= s.subrange(0, k));
    } else {
        assert(s.subrange(0, k) =~= s);
    }
}

// ---------------------------------------------------------------------------
// Re-emitting trivia
// ---------------------------------------------------------------------------

pub const INDENT: &'static str = "    ";

/// `depth` levels of four-space indentation.
pub open spec fn indent(depth: nat) -> Seq<char>
    decreases depth,
{
    if depth == 0 {
        Seq::empty()
    } else {
        indent((depth - 1) as nat) + seq![' ', ' ', ' ', ' ']
    }
}

pub fn push_indent(out: &mut String, depth: usize)
    ensures
        final(out)@ == old(out)@ + indent(depth as nat),
{
    let mut i: usize = 0;
    while i < depth
        invariant
            i <= depth,
            out@ == old(out)@ + indent(i as nat),
        decreases depth - i,
    {
        push_char(out, ' ');
        push_char(out, ' ');
        push_char(out, ' ');
        push_char(out, ' ');
        assert(out@ =~= old(out)@ + indent((i + 1) as nat));
        i += 1;
    }
}

pub open spec fn ends_with_blank(s: Seq<char>) -> bool {
    s.len() >= 2 && s[s.len() - 1] == '\n' && s[s.len() - 2] == '\n'
}

/// The lines of a block comment, each indented, joined by newlines.
pub open spec fn block_lines(pieces: Seq<Seq<char>>, depth: nat) -> Seq<char>
    decreases pieces.len(),
{
    if pieces.len() == 0 {
        Seq::empty()
    } else if pieces.len() == 1 {
        indent(depth) + pieces[0]
    } else {
        block_lines(pieces.drop_last(), depth) + seq!['\n'] + indent(depth) + pieces.last()
    }
}

/// `out` after emitting one trivia item at `depth`.
pub open spec fn emit(out: Seq<char>, kind: int, text: Seq<char>, depth: nat) -> Seq<char> {
    if kind == 0 {
        if !ends_with_blank(out) && out.len() != 0 { out.push('\n') } else { out }
    } else if kind == 1 {
        out + indent(depth) + text + seq!['\n']
    } else {
        out + block_lines(split_char(text, '\n'), depth) + seq!['\n']
    }
}

/// Emits the items from `next` on whose line is before `target`:
/// the index reached, and the output.
pub open spec fn flush(items: Seq<(int, int, Seq<char>)>, next: int, out: Seq<char>, target: int, depth: nat) -> (int, Seq<char>)
    decreases items.len() - next,
{
    if next < 0 || next >= items.len() || items[next].0 >= target {
        (next, out)
    } else {
        flush(items, next + 1, emit(out, items[next].1, items[next].2, depth), target, depth)
    }
}

/// Flushing up to one line and then up to a later one emits exactly what
/// a single flush up to the later line emits: no item is emitted twice
/// or skipped, and the order is kept.
pub proof fn law_flush_in_steps(
    items: Seq<(int, int, Seq<char>)>,
    next: int,
    out: Seq<char>,
    first: int,
    second: int,
    depth: nat,
)
    requires
        first <= second,
    ensures
        ({
            let (n1, o1) = flush(items, next, out, first, depth);
            flush(items, n1, o1, second, depth) == flush(items, next, out, second, depth)
        }),
    decreases items.len() - next,
{
    if next < 0 || next >= items.len() || items[next].0 >= first {
    } else {
        law_flush_in_steps(items, next + 1, emit(out, items[next].1, items[next].2, depth), first, second, depth);
    }
}

/// A cursor over trivia sorted by line: each `flush_through` emits the
/// items whose line comes before a target line.
pub struct TriviaCursor {
    items: Vec<(u32, Trivia)>,
    next: usize,
}

impl TriviaCursor {
    pub closed spec fn spec_items(&self) -> Seq<(int, int, Seq<char>)> {
        items_view(self.items@)
    }

    pub closed spec fn spec_next(&self) -> int {
        self.next as int
    }

    pub fn new(items: Vec<(u32, Trivia)>) -> (r: TriviaCursor)
        ensures
            r.spec_items() == items_view(items@),
            r.spec_next() == 0,
    {
        TriviaCursor { items, next: 0 }
    }

    /// A cursor with nothing to emit.
    pub fn empty() -> (r: TriviaCursor)
        ensures
            r.spec_items().len() == 0,
            r.spec_next() == 0,
    {
        let r = TriviaCursor { items: Vec::new(), next: 0 };
        assert(r.spec_items() =~= Seq::<(int, int, Seq<char>)>::empty());
        r
    }

    /// Emits, at `depth`, every remaining item whose line is before
    /// `target_line`, and moves past them. A blank line is emitted only
    /// where `out` is not empty and does not already end in a blank line.
    pub fn flush_through(&mut self, out: &mut String, target_line: u32, depth: usize)
        requires
            old(self).spec_next() <= old(self).spec_items().len(),
        ensures
            final(self).spec_items() == old(self).spec_items(),
            (final(self).spec_next(), final(out)@) == flush(
                old(self).spec_items(),
                old(self).spec_next(),
                old(out)@,
                target_line as int,
                depth as nat,
            ),
            final(self).spec_next() <= final(self).spec_items().len(),
    {
        while self.next < self.items.len() && self.items[self.next].0 < target_line
            invariant
                self.spec_items() == old(self).spec_items(),
                self.next <= self.items@.len(),
                flush(old(self).spec_items(), old(self).spec_next(), old(out)@, target_line as int, depth as nat)
                    == flush(self.spec_items(), self.next as int, out@, target_line as int, depth as nat),
            decreases self.items.len() - self.next,
        {
            let ghost o0 = out@;
            let ghost it = item_view(self.items@[self.next as int]);
            match &self.items[self.next].1 {
                Trivia::Blank => {
                    if !ends_in_blank_line(out) && !is_empty_string(out) {
                        push_char(out, '\n');
                    }
                },
                Trivia::Comment(text) => {
                    push_indent(out, depth);
                    push_str(out, text.as_str());
                    push_char(out, '\n');
                },
                Trivia::BlockComment(text) => {
                    let tv = chars_of(text.as_str());
                    let pieces = split_chars(&tv, '\n');
                    let mut k: usize = 0;
                    while k < pieces.len()
                        invariant
                            k <= pieces@.len(),
                            pieces@.len() == split_char(tv@, '\n').len(),
                            forall|m: int| 0 <= m < pieces@.len() ==> (#[trigger] pieces@[m])@ == split_char(tv@, '\n')[m],
                            out@ == o0 + block_lines(split_char(tv@, '\n').subrange(0, k as int), depth as nat),
                        decreases pieces.len() - k,
                    {
                        let ghost sub = split_char(tv@, '\n').subrange(0, k + 1);
                        assert(sub.drop_last() =~= split_char(tv@, '\n').subrange(0, k as int));
                        if k > 0 {
                            push_char(out, '\n');
                        }
                        push_indent(out, depth);
                        push_chars(out, &pieces[k]);
                        assert(out@ =~= o0 + block_lines(sub, depth as nat));
                        k += 1;
                    }
                    assert(split_char(tv@, '\n').subrange(0, pieces@.len() as int) =~= split_char(tv@, '\n'));
                    push_char(out, '\n');
                },
            }
            assert(out@ =~= emit(o0, it.1, it.2, depth as nat));
            self.next += 1;
        }
    }
}

pub(crate) fn is_empty_string(s: &String) -> (r: bool)
    ensures
        r == (s@.len() == 0),
{
    s.as_str().unicode_len() == 0
}

pub(crate) fn ends_in_blank_line(s: &String) -> (r: bool)
    ensures
        r == ends_with_blank(s@),
{
    let t = s.as_str();
    let n = t.unicode_len();
    n >= 2 && t.get_char(n - 1) == '\n' && t.get_char(n - 2) == '\n'
}

// ---------------------------------------------------------------------------
// String literals
// ---------------------------------------------------------------------------

/// The source escape of one character of a string literal.
pub open spec fn literal_escape(c: char) -> Seq<char> {
    if c == '"' {
        seq!['\\', '"']
    } else if c == '\\' {
        seq!['\\', '\\']
    } else if c == '\n' {
        seq!['\\', 'n']
    } else if c == '\r' {
        seq!['\\', 'r']
    } else if c == '\t' {
        seq!['\\', 't']
    } else if c == '{' {
        seq!['\\', '{']
    } else if c == '}' {
        seq!['\\', '}']
    } else {
        seq![c]
    }
}

/// How a character of a `@deprecated` version string is written: only
/// backslashes and quotes are escaped.
pub open spec fn since_escape(c: char) -> Seq<char> {
    if c == '\\' {
        seq!['\\', '\\']
    } else if c == '"' {
        seq!['\\', '"']
    } else {
        seq![c]
    }
}

pub open spec fn since_body(s: Seq<char>) -> Seq<char>
    decreases s.len(),
{
    if s.len() == 0 {
        Seq::empty()
    } else {
        since_body(s.drop_last()) + since_escape(s.last())
    }
}

/// The annotation line of a deprecated declaration: indented, `@deprecated`,
/// then `("since")` when the annotation names a version.
pub open spec fn deprecation_line(depth: nat, since: Option<Seq<char>>) -> Seq<char> {
    indent(depth) + "@deprecated"@ + match since {
        Some(v) => seq!['(', '"'] + since_body(v) + seq!['"', ')'],
        None => Seq::empty(),
    } + seq!['\n']
}

/// Appends the `@deprecated` line of a declaration at `depth`: nothing
/// when `deprecation` is `None` (the declaration is not deprecated);
/// otherwise the annotation, with its version string when it has one.
pub fn print_deprecation(out: &mut String, depth: usize, deprecation: Option<Option<&str>>)
    ensures
        final(out)@ == old(out)@ + match deprecation {
            None => Seq::empty(),
            Some(since) => deprecation_line(depth as nat, match since {
                Some(v) => Some(v@),
                None => None,
            }),
        },
{
    let since = match deprecation {
        None => {
            assert(out@ =~= old(out)@ + Seq::<char>::empty());
            return;
        },
        Some(s) => s,
    };
    let ghost o0 = out@;
    push_indent(out, depth);
    push_str(out, "@deprecated");
    let ghost o1 = out@;
    match since {
        Some(v) => {
            push_char(out, '(');
            push_char(out, '"');
            let ghost o2 = out@;
            let chars = chars_of(v);
            let mut i: usize = 0;
            while i < chars.len()
                invariant
                    i <= chars@.len(),
                    chars@ == v@,
                    out@ == o2 + since_body(chars@.subrange(0, i as int)),
                decreases chars.len() - i,
            {
                let c = chars[i];
                assert(chars@.subrange(0, i + 1).drop_last() =~= chars@.subrange(0, i as int));
                if c == '\\' {
                    push_char(out, '\\');
                    push_char(out, '\\');
                } else if c == '"' {
                    push_char(out, '\\');
                    push_char(out, '"');
                } else {
                    push_char(out, c);
                }
                assert(out@ =~= o2 + since_body(chars@.subrange(0, i + 1)));
                i += 1;
            }
            assert(chars@.subrange(0, chars@.len() as int) =~= chars@);
            push_char(out, '"');
            push_char(out, ')');
            push_char(out, '\n');
            assert(out@ =~= o0 + deprecation_line(depth as nat, Some(v@)));
        },
        None => {
            push_char(out, '\n');
            assert(out@ =~= o0 + deprecation_line(depth as nat, None));
        },
    }
}

pub open spec fn literal_body(s: Seq<char>) -> Seq<char>
    decreases s.len(),
{
    if s.len() == 0 {
        Seq::empty()
    } else {
        literal_body(s.drop_last()) + literal_escape(s.last())
    }
}

/// Appends `s` as a quoted string literal of the language, with quotes,
/// backslashes, line breaks, tabs and braces escaped.
pub fn print_string_literal(out: &mut String, s: &str)
    ensures
        final(out)@ == old(out)@ + seq!['"'] + literal_body(s@) + seq!['"'],
{
    push_char(out, '"');
    push_literal_body(out, s);
    push_char(out, '"');
}

/// Appends the characters of `s` escaped as inside a string literal.
pub fn push_literal_body(out: &mut String, s: &str)
    ensures
        final(out)@ == old(out)@ + literal_body(s@),
{
    let ghost o0 = out@;
    let v = chars_of(s);
    let mut i: usize = 0;
    while i < v.len()
        invariant
            i <= v@.len(),
            v@ == s@,
            out@ == o0 + literal_body(v@.subrange(0, i as int)),
        decreases v.len() - i,
    {
        let c = v[i];
        assert(v@.subrange(0, i + 1).drop_last() =~= v@.subrange(0, i as int));
        if c == '"' {
            push_char(out, '\\');
            push_char(out, '"');
        } else if c == '\\' {
            push_char(out, '\\');
            push_char(out, '\\');
        } else if c == '\n' {
            push_char(out, '\\');
            push_char(out, 'n');
        } else if c == '\r' {
            push_char(out, '\\');
            push_char(out, 'r');
        } else if c == '\t' {
            push_char(out, '\\');
            push_char(out, 't');
        } else if c == '{' {
            push_char(out, '\\');
            push_char(out, '{');
        } else if c == '}' {
            push_char(out, '\\');
            push_char(out, '}');
        } else {
            push_char(out, c);
        }
        assert(out@ =~= o0 + literal_body(v@.subrange(0, i + 1)));
        i += 1;
    }
    assert(v@.subrange(0, v@.len() as int) =~= v@);
}

// ---------------------------------------------------------------------------
// Programs
// ---------------------------------------------------------------------------

fn print_program_internal(p: &Program, cursor: &mut TriviaCursor) -> (r: String)
    requires
        cursor_ok(*old(cursor)),
        old(cursor).spec_next() == 0,
    ensures
        r@ == program_out(old(cursor).spec_items(), p@),
{
    let ghost items = cursor.spec_items();
    let mut out = String::new();
    let mut i: usize = 0;
    assert(at(*cursor, out@) == program_fold(items, (0, Seq::empty()), p@.subrange(0, 0)));
    while i < p.stmts.len()
        invariant
            i <= p@.len(),
            p@ == p.stmts@,
            cursor.spec_items() == items,
            cursor_ok(*cursor),
            at(*cursor, out@) == program_fold(items, (0, Seq::empty()), p@.subrange(0, i as int)),
        decreases p.stmts.len() - i,
    {
        let ghost sub = p@.subrange(0, i + 1);
        assert(sub.drop_last() =~= p@.subrange(0, i as int));
        assert(sub[sub.len() - 1] == p@[i as int]);
        let s = &p.stmts[i];
        cursor.flush_through(&mut out, stmt_line(s), 0);
        let ghost a = at(*cursor, out@);
        let want = i > 0 && (top_level_blank(s) || top_level_blank(&p.stmts[i - 1]));
        assert(want == (sub.len() > 1 && (takes_blank_neighbor(sub[sub.len() - 1]) || takes_blank_neighbor(
            sub[sub.len() - 2],
        ))));
        if want && !ends_in_blank_line(&out) && !is_empty_string(&out) {
            push_char(&mut out, '\n');
        }
        assert(out@ =~= blank_if(a, want).1);
        print_stmt(&mut out, s, 0, cursor);
        i += 1;
    }
    assert(p@.subrange(0, p@.len() as int) =~= p@);
    cursor.flush_through(&mut out, u32::MAX, 0);
    without_blank_tail(&out)
}

/// Formats a whole program in the canonical style: four spaces per
/// level, a blank line around top-level declarations, functions and
/// handlers, each line ending in a newline, and no blank line at the end.
/// An empty program gives the empty text.
pub fn print_program(p: &Program) -> (r: String)
    ensures
        r@ == program_text(p@),
{
    let mut cursor = TriviaCursor::empty();
    assert(cursor.spec_items() =~= Seq::<(int, int, Seq<char>)>::empty());
    print_program_internal(p, &mut cursor)
}

/// Formats a whole program as `print_program` does, and re-emits the
/// comments and blank lines of `src` ahead of the code that followed
/// them there.
pub fn print_program_with_trivia(p: &Program, src: &str) -> (r: String)
    requires
        newline_count(src@) < u32::MAX,
    ensures
        r@ == program_text_with_trivia(p@, trivia_of(src@)),
{
    let mut cursor = TriviaCursor::new(extract_trivia(src));
    print_program_internal(p, &mut cursor)
}

/// Formatting with the source's trivia emits every comment and blank
/// line captured from it (the walk ends past the last one), when the
/// source has fewer than `u32::MAX - 1` line breaks.
pub proof fn law_source_trivia_all_emitted(ss: Seq<Stmt>, src: Seq<char>)
    requires
        newline_count(src) + 1 < u32::MAX,
    ensures
        flush_to(trivia_of(src), program_fold(trivia_of(src), (0, Seq::empty()), ss), u32::MAX as int, 0).0
            == trivia_of(src).len(),
{
    lemma_trivia_lines(src);
    law_all_trivia_emitted(ss, trivia_of(src));
}

} // verus!
