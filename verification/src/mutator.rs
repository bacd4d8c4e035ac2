//! Error → fix corpus generation: mutation rules that break a known-good
//! program the way LLMs typically do, and the JSONL triple that pairs the
//! broken program with its verifier report.
use vstd::prelude::*;

use crate::text::{
    chars_eq, chars_of, dec, find, find_chars, ident_char, ascii_digit, is_ascii_digit, is_ident_char,
    json_quote, lemma_find_from_props, line_spans, lines, matches_at, newline_from, next_newline,
    occurs_at, push_char, push_chars, push_decimal, push_json_str, push_json_string, push_str,
    skip_ws, skip_ws_back, slice_vec, starts_with, string_of, trim, trim_bounds, trim_start,
};

verus! {

// ---------------------------------------------------------------------------
// Mode directives
// ---------------------------------------------------------------------------

pub open spec fn strict_directive() -> Seq<char> {
    seq!['#', ' ', 's', 't', 'r', 'i', 'c', 't']
}

pub open spec fn verified_directive() -> Seq<char> {
    seq!['#', ' ', 'v', 'e', 'r', 'i', 'f', 'i', 'e', 'd']
}

/// Some line of `s`, trimmed, is exactly `d`.
pub open spec fn has_directive(s: Seq<char>, d: Seq<char>) -> bool {
    exists|i: int| 0 <= i < lines(s).len() && trim(#[trigger] lines(s)[i]) == d
}

fn directive_in(v: &Vec<char>, d: &Vec<char>) -> (r: bool)
    ensures
        r == has_directive(v@, d@),
{
    let spans = line_spans(v);
    let mut i: usize = 0;
    while i < spans.len()
        invariant
            spans@.len() == lines(v@).len(),
            forall|k: int|
                0 <= k < spans@.len() ==> (#[trigger] spans@[k]).0 <= spans@[k].1 <= v@.len() && lines(v@)[k]
                    == v@.subrange(spans@[k].0 as int, spans@[k].1 as int),
            i <= spans@.len(),
            forall|k: int| 0 <= k < i ==> trim(#[trigger] lines(v@)[k]) != d@,
        decreases spans.len() - i,
    {
        let (a, b) = spans[i];
        let (s, e) = trim_bounds(v, a, b);
        let t = slice_vec(v, s, e);
        if chars_eq(&t, d) {
            assert(trim(lines(v@)[i as int]) == d@);
            return true;
        }
        i += 1;
    }
    false
}

/// Whether `source` opts into strict mode with a `# strict` line.
pub fn detect_strict(source: &str) -> (r: bool)
    ensures
        r == has_directive(source@, strict_directive()),
{
    let v = chars_of(source);
    let d = vec!['#', ' ', 's', 't', 'r', 'i', 'c', 't'];
    assert(d@ =~= strict_directive());
    directive_in(&v, &d)
}

/// Whether `source` opts into verified mode with a `# verified` line.
pub fn detect_verified(source: &str) -> (r: bool)
    ensures
        r == has_directive(source@, verified_directive()),
{
    let v = chars_of(source);
    let d = vec!['#', ' ', 'v', 'e', 'r', 'i', 'f', 'i', 'e', 'd'];
    assert(d@ =~= verified_directive());
    directive_in(&v, &d)
}

// ---------------------------------------------------------------------------
// Rules and candidates
// ---------------------------------------------------------------------------

/// One mutated variant of a source.
pub struct MutationCandidate {
    /// The rule that produced it.
    pub kind: &'static str,
    /// The broken source.
    pub mutated: String,
    /// Free-text description for the trace.
    pub note: String,
}

pub open spec fn cand_view(c: MutationCandidate) -> (Seq<char>, Seq<char>, Seq<char>) {
    (c.kind@, c.mutated@, c.note@)
}

pub open spec fn cands_view(v: Seq<MutationCandidate>) -> Seq<(Seq<char>, Seq<char>, Seq<char>)> {
    v.map_values(|c: MutationCandidate| cand_view(c))
}

/// A mutation rule: a name, and the candidates it produces for a source.
pub trait MutationRule {
    fn name(&self) -> &'static str;

    fn apply(&self, source: &str) -> Vec<MutationCandidate>;
}

/// Which rules to run.
#[derive(Clone, Copy, Debug, PartialEq, Eq)]
pub enum RuleSet {
    All,
    IdentifierTypoOnly,
    LiteralOnly,
}

/// A rule of the registry.
#[derive(Clone, Copy, Debug, PartialEq, Eq)]
pub enum RuleKind {
    IdentifierTypo,
    LiteralType,
}

pub open spec fn rule_set_of(s: Seq<char>) -> RuleSet {
    if s == "identifier-typo"@ || s == "typo"@ {
        RuleSet::IdentifierTypoOnly
    } else if s == "literal"@ || s == "literal-type"@ {
        RuleSet::LiteralOnly
    } else {
        RuleSet::All
    }
}

fn str_is(s: &str, lit: &[char]) -> (r: bool)
    ensures
        r == (s@ == lit@),
{
    let v = chars_of(s);
    chars_eq(&v, lit)
}

impl RuleSet {
    /// `identifier-typo`/`typo`, `literal`/`literal-type`; anything else runs all rules.
    pub fn parse(s: &str) -> (r: RuleSet)
        ensures
            r == rule_set_of(s@),
    {
        proof {
            reveal_strlit("identifier-typo");
            reveal_strlit("typo");
            reveal_strlit("literal");
            reveal_strlit("literal-type");
        }
        let a = ['i', 'd', 'e', 'n', 't', 'i', 'f', 'i', 'e', 'r', '-', 't', 'y', 'p', 'o'];
        let b = ['t', 'y', 'p', 'o'];
        let c = ['l', 'i', 't', 'e', 'r', 'a', 'l'];
        let d = ['l', 'i', 't', 'e', 'r', 'a', 'l', '-', 't', 'y', 'p', 'e'];
        assert(a@ =~= "identifier-typo"@);
        assert(b@ =~= "typo"@);
        assert(c@ =~= "literal"@);
        assert(d@ =~= "literal-type"@);
        if str_is(s, &a) || str_is(s, &b) {
            RuleSet::IdentifierTypoOnly
        } else if str_is(s, &c) || str_is(s, &d) {
            RuleSet::LiteralOnly
        } else {
            RuleSet::All
        }
    }

    /// The rules of the set, in run order.
    pub fn rules(self) -> (r: Vec<RuleKind>)
        ensures
            r@ == (match self {
                RuleSet::All => seq![RuleKind::IdentifierTypo, RuleKind::LiteralType],
                RuleSet::IdentifierTypoOnly => seq![RuleKind::IdentifierTypo],
                RuleSet::LiteralOnly => seq![RuleKind::LiteralType],
            }),
    {
        let mut v: Vec<RuleKind> = Vec::new();
        match self {
            RuleSet::All => {
                v.push(RuleKind::IdentifierTypo);
                v.push(RuleKind::LiteralType);
            },
            RuleSet::IdentifierTypoOnly => v.push(RuleKind::IdentifierTypo),
            RuleSet::LiteralOnly => v.push(RuleKind::LiteralType),
        }
        assert(v@ =~= (match self {
            RuleSet::All => seq![RuleKind::IdentifierTypo, RuleKind::LiteralType],
            RuleSet::IdentifierTypoOnly => seq![RuleKind::IdentifierTypo],
            RuleSet::LiteralOnly => seq![RuleKind::LiteralType],
        }));
        v
    }
}

// ---------------------------------------------------------------------------
// Identifier typo rule
// ---------------------------------------------------------------------------

/// Length of the leading run of identifier characters.
pub open spec fn ident_run(s: Seq<char>) -> nat
    decreases s.len(),
{
    if s.len() > 0 && is_ident_char(s[0]) {
        1 + ident_run(s.drop_first())
    } else {
        0
    }
}

pub open spec fn let_kw() -> Seq<char> {
    seq!['l', 'e', 't', ' ']
}

pub open spec fn var_kw() -> Seq<char> {
    seq!['v', 'a', 'r', ' ']
}

/// The name a `let NAME` / `var NAME` line introduces.
pub open spec fn let_name(line: Seq<char>) -> Option<Seq<char>> {
    let t = trim_start(line);
    if starts_with(t, let_kw()) || starts_with(t, var_kw()) {
        let r = trim_start(t.skip(4));
        let n = ident_run(r);
        if n > 0 {
            Some(r.take(n as int))
        } else {
            None
        }
    } else {
        None
    }
}

/// The distinct `let`/`var` names of `ls`, in first-seen order.
pub open spec fn let_names_of(ls: Seq<Seq<char>>) -> Seq<Seq<char>>
    decreases ls.len(),
{
    if ls.len() == 0 {
        Seq::empty()
    } else {
        let prev = let_names_of(ls.drop_last());
        match let_name(ls.last()) {
            Some(n) => if prev.contains(n) {
                prev
            } else {
                prev.push(n)
            },
            None => prev,
        }
    }
}

fn ident_end(v: &Vec<char>, from: usize, to: usize) -> (r: usize)
    requires
        from <= to <= v@.len(),
    ensures
        from <= r <= to,
        r - from == ident_run(v@.subrange(from as int, to as int)),
{
    let mut i = from;
    while i < to && ident_char(v[i])
        invariant
            from <= i <= to <= v@.len(),
            ident_run(v@.subrange(from as int, to as int)) == (i - from) + ident_run(
                v@.subrange(i as int, to as int),
            ),
        decreases to - i,
    {
        assert(v@.subrange(i as int, to as int).drop_first() =~= v@.subrange(i + 1, to as int));
        i += 1;
    }
    i
}

fn has_prefix_at(v: &Vec<char>, from: usize, to: usize, p: &Vec<char>) -> (r: bool)
    requires
        from <= to <= v@.len(),
    ensures
        r == starts_with(v@.subrange(from as int, to as int), p@),
{
    if p.len() > to - from {
        return false;
    }
    let r = matches_at(v, p, from);
    assert(r == starts_with(v@.subrange(from as int, to as int), p@)) by {
        assert(v@.subrange(from as int, to as int).subrange(0, p@.len() as int) =~= v@.subrange(
            from as int,
            from + p@.len(),
        ));
    }
    r
}

/// The name a line `v[a..b]` introduces, as a range of `v`.
fn let_name_span(v: &Vec<char>, a: usize, b: usize) -> (r: Option<(usize, usize)>)
    requires
        a <= b <= v@.len(),
    ensures
        r matches Some(p) ==> a <= p.0 <= p.1 <= b && let_name(v@.subrange(a as int, b as int)) == Some(
            v@.subrange(p.0 as int, p.1 as int),
        ),
        r is None ==> let_name(v@.subrange(a as int, b as int)) is None,
{
    let s = skip_ws(v, a, b);
    let lk = vec!['l', 'e', 't', ' '];
    let vk = vec!['v', 'a', 'r', ' '];
    assert(lk@ =~= let_kw());
    assert(vk@ =~= var_kw());
    if has_prefix_at(v, s, b, &lk) || has_prefix_at(v, s, b, &vk) {
        assert(v@.subrange(s as int, b as int).skip(4) =~= v@.subrange(s + 4, b as int));
        let s2 = skip_ws(v, s + 4, b);
        let e = ident_end(v, s2, b);
        if e > s2 {
            assert(v@.subrange(s2 as int, b as int).take((e - s2) as int) =~= v@.subrange(s2 as int, e as int));
            Some((s2, e))
        } else {
            None
        }
    } else {
        None
    }
}

fn vec_contains_chars(v: &Vec<Vec<char>>, x: &Vec<char>) -> (r: bool)
    ensures
        r == v@.map_values(|e: Vec<char>| e@).contains(x@),
{
    let mut i: usize = 0;
    while i < v.len()
        invariant
            i <= v@.len(),
            forall|k: int| 0 <= k < i ==> (#[trigger] v@[k])@ != x@,
        decreases v.len() - i,
    {
        if chars_eq(&v[i], x) {
            assert(v@.map_values(|e: Vec<char>| e@)[i as int] == x@);
            return true;
        }
        i += 1;
    }
    let ghost mv = v@.map_values(|e: Vec<char>| e@);
    assert forall|k: int| 0 <= k < mv.len() implies #[trigger] mv[k] != x@ by {
        assert(mv[k] == v@[k]@);
    }
    false
}

/// The distinct names introduced by `let NAME` / `var NAME` lines, in order.
pub fn collect_let_names(v: &Vec<char>) -> (r: Vec<Vec<char>>)
    ensures
        r@.map_values(|e: Vec<char>| e@) == let_names_of(lines(v@)),
{
    let spans = line_spans(v);
    let ghost ls = lines(v@);
    let mut out: Vec<Vec<char>> = Vec::new();
    let mut i: usize = 0;
    while i < spans.len()
        invariant
            spans@.len() == ls.len(),
            ls == lines(v@),
            forall|k: int|
                0 <= k < spans@.len() ==> (#[trigger] spans@[k]).0 <= spans@[k].1 <= v@.len() && ls[k]
                    == v@.subrange(spans@[k].0 as int, spans@[k].1 as int),
            i <= spans@.len(),
            out@.map_values(|e: Vec<char>| e@) == let_names_of(ls.subrange(0, i as int)),
        decreases spans.len() - i,
    {
        let (a, b) = spans[i];
        assert(ls.subrange(0, i + 1).drop_last() =~= ls.subrange(0, i as int));
        assert(ls.subrange(0, i + 1).last() == ls[i as int]);
        match let_name_span(v, a, b) {
            Some((s, e)) => {
                let name = slice_vec(v, s, e);
                if !vec_contains_chars(&out, &name) {
                    let ghost o0 = out@.map_values(|e: Vec<char>| e@);
                    out.push(name);
                    assert(out@.map_values(|e: Vec<char>| e@) =~= o0.push(v@.subrange(s as int, e as int)));
                }
            },
            None => {},
        }
        i += 1;
    }
    assert(ls.subrange(0, ls.len() as int) =~= ls);
    out
}

/// `line` declares `name`: after leading whitespace it starts with
/// `let NAME` or `var NAME`, followed by the end of the line or one of
/// space, `=`, `:` or a newline.
pub open spec fn declares(line: Seq<char>, name: Seq<char>) -> bool {
    let t = trim_start(line);
    let n1 = let_kw() + name;
    let n2 = var_kw() + name;
    &&& (starts_with(t, n1) || starts_with(t, n2))
    &&& (t.len() == n1.len() || (t.len() > n1.len() && (t[n1.len() as int] == ' ' || t[n1.len() as int] == '='
        || t[n1.len() as int] == ':' || t[n1.len() as int] == '\n')))
}

/// End (just past its newline) of the first line at or after `start` that
/// declares `name`; lines are the newline-terminated pieces of `s`.
pub open spec fn decl_end(s: Seq<char>, name: Seq<char>, start: int) -> Option<int>
    decreases s.len() - start,
{
    if start < 0 || start >= s.len() {
        None
    } else {
        let e = match newline_from(s, start) {
            Some(k) => k + 1,
            None => s.len() as int,
        };
        if e <= start || e > s.len() {
            None
        } else if declares(s.subrange(start, e), name) {
            Some(e)
        } else {
            decl_end(s, name, e)
        }
    }
}

fn declares_exec(v: &Vec<char>, a: usize, b: usize, name: &Vec<char>) -> (r: bool)
    requires
        a <= b <= v@.len(),
    ensures
        r == declares(v@.subrange(a as int, b as int), name@),
{
    let s = skip_ws(v, a, b);
    let mut n1 = vec!['l', 'e', 't', ' '];
    let mut n2 = vec!['v', 'a', 'r', ' '];
    let mut i: usize = 0;
    while i < name.len()
        invariant
            i <= name@.len(),
            n1@ == let_kw() + name@.subrange(0, i as int),
            n2@ == var_kw() + name@.subrange(0, i as int),
        decreases name.len() - i,
    {
        n1.push(name[i]);
        n2.push(name[i]);
        assert(n1@ =~= let_kw() + name@.subrange(0, i + 1));
        assert(n2@ =~= var_kw() + name@.subrange(0, i + 1));
        i += 1;
    }
    assert(name@.subrange(0, name@.len() as int) =~= name@);
    let ghost t = v@.subrange(s as int, b as int);
    if !(has_prefix_at(v, s, b, &n1) || has_prefix_at(v, s, b, &n2)) {
        return false;
    }
    let tl = b - s;
    if tl == n1.len() {
        return true;
    }
    if tl > n1.len() {
        let c = v[s + n1.len()];
        assert(t[n1@.len() as int] == c);
        return c == ' ' || c == '=' || c == ':' || c == '\n';
    }
    false
}

/// End of the line declaring `name`, or `None`.
pub fn find_let_decl(v: &Vec<char>, name: &Vec<char>) -> (r: Option<usize>)
    ensures
        r matches Some(e) ==> decl_end(v@, name@, 0) == Some(e as int) && e <= v@.len(),
        r is None ==> decl_end(v@, name@, 0) is None,
{
    let n = v.len();
    let mut start: usize = 0;
    while start < n
        invariant
            n == v@.len(),
            start <= n,
            decl_end(v@, name@, 0) == decl_end(v@, name@, start as int),
        decreases n - start,
    {
        let k = next_newline(v, start);
        let e = if k < n {
            k + 1
        } else {
            n
        };
        if declares_exec(v, start, e, name) {
            return Some(e);
        }
        start = e;
    }
    None
}

/// `name` occurs at `i` as a whole word.
pub open spec fn word_at(s: Seq<char>, i: int, name: Seq<char>) -> bool {
    &&& 0 <= i
    &&& i + name.len() <= s.len()
    &&& (i == 0 || !is_ident_char(s[i - 1]))
    &&& s.subrange(i, i + name.len()) == name
    &&& (i + name.len() == s.len() || !is_ident_char(s[i + name.len()]))
}

/// First whole-word occurrence of `name` at or after `i` outside
/// strings and comments, scanning with the given lexical state.
pub open spec fn use_scan(s: Seq<char>, name: Seq<char>, i: int, in_string: bool, in_comment: bool, quote: char) -> Option<int>
    decreases s.len() - i,
{
    if i < 0 || i >= s.len() {
        None
    } else {
        let c = s[i];
        if in_comment {
            use_scan(s, name, i + 1, false, c != '\n', quote)
        } else if in_string {
            if c == '\\' && i + 1 < s.len() {
                use_scan(s, name, i + 2, true, false, quote)
            } else {
                use_scan(s, name, i + 1, c != quote, false, quote)
            }
        } else if c == '#' {
            use_scan(s, name, i + 1, false, true, quote)
        } else if c == '"' || c == '\'' {
            use_scan(s, name, i + 1, true, false, c)
        } else if word_at(s, i, name) {
            Some(i)
        } else {
            use_scan(s, name, i + 1, false, false, quote)
        }
    }
}

/// Whole-word match of `name` at `i`.
pub fn matches_word_at(v: &Vec<char>, i: usize, name: &Vec<char>) -> (r: bool)
    ensures
        r == word_at(v@, i as int, name@),
{
    let n = name.len();
    if i > v.len() || n > v.len() - i {
        return false;
    }
    if i > 0 && ident_char(v[i - 1]) {
        return false;
    }
    if !matches_at(v, name, i) {
        return false;
    }
    if i + n < v.len() && ident_char(v[i + n]) {
        return false;
    }
    true
}

/// Offset of the first code use of `name` in `v[from..]`, relative to `from`.
pub fn find_use_after_decl(v: &Vec<char>, from: usize, name: &Vec<char>) -> (r: Option<usize>)
    requires
        from <= v@.len(),
    ensures
        r matches Some(k) ==> use_scan(v@.subrange(from as int, v@.len() as int), name@, 0, false, false, ' ')
            == Some(k as int),
        r is None ==> use_scan(v@.subrange(from as int, v@.len() as int), name@, 0, false, false, ' ') is None,
{
    let sl = slice_vec(v, from, v.len());
    let n = sl.len();
    let mut i: usize = 0;
    let mut in_string = false;
    let mut in_comment = false;
    let mut quote: char = ' ';
    while i < n
        invariant
            n == sl@.len(),
            sl@ == v@.subrange(from as int, v@.len() as int),
            !(in_string && in_comment),
            use_scan(sl@, name@, 0, false, false, ' ') == use_scan(sl@, name@, i as int, in_string, in_comment, quote),
        decreases n - i,
    {
        let c = sl[i];
        if in_comment {
            if c == '\n' {
                in_comment = false;
            }
            i += 1;
            continue;
        }
        if in_string {
            if c == '\\' && i + 1 < n {
                i += 2;
                continue;
            }
            if c == quote {
                in_string = false;
            }
            i += 1;
            continue;
        }
        if c == '#' {
            in_comment = true;
            i += 1;
            continue;
        }
        if c == '"' || c == '\'' {
            in_string = true;
            quote = c;
            i += 1;
            continue;
        }
        if matches_word_at(&sl, i, name) {
            return Some(i);
        }
        i += 1;
    }
    None
}

/// Drop the second character: `apple` → `aple`; names shorter than 3 are kept.
pub open spec fn typo_of(name: Seq<char>) -> Seq<char> {
    if name.len() < 3 {
        name
    } else {
        seq![name[0]] + name.skip(2)
    }
}

/// The typo of a name of three or more characters is the name with its
/// second character deleted: one edit away, and never the name itself.
pub proof fn law_typo_is_one_deletion(name: Seq<char>)
    requires
        name.len() >= 3,
    ensures
        typo_of(name) == name.remove(1),
        typo_of(name).len() == name.len() - 1,
        typo_of(name) != name,
{
    assert(typo_of(name) =~= name.remove(1));
}

pub fn make_typo(name: &Vec<char>) -> (r: Vec<char>)
    ensures
        r@ == typo_of(name@),
{
    if name.len() < 3 {
        return slice_vec(name, 0, name.len());
    }
    let mut out: Vec<char> = Vec::new();
    out.push(name[0]);
    let mut i: usize = 2;
    while i < name.len()
        invariant
            2 <= i <= name@.len(),
            out@ == seq![name@[0]] + name@.subrange(2, i as int),
        decreases name.len() - i,
    {
        out.push(name[i]);
        assert(out@ =~= seq![name@[0]] + name@.subrange(2, i + 1));
        i += 1;
    }
    assert(name@.skip(2) =~= name@.subrange(2, name@.len() as int));
    out
}

pub open spec fn strict_prefix() -> Seq<char> {
    "# strict\n"@
}

pub open spec fn typo_note(name: Seq<char>, typo: Seq<char>, prefixed: bool) -> Seq<char> {
    "renamed `"@ + name + "` to `"@ + typo + "` at one use site"@ + (if prefixed {
        " (and prepended `# strict` so the unknown-name diagnostic fires)"@
    } else {
        ""@
    })
}

/// The typo candidate for one declared name, if the rule fires on it.
pub open spec fn typo_candidate(s: Seq<char>, name: Seq<char>, prefixed: bool) -> Option<(Seq<char>, Seq<char>)> {
    if name.len() < 4 {
        None
    } else {
        match decl_end(s, name, 0) {
            None => None,
            Some(d) => match use_scan(s.subrange(d, s.len() as int), name, 0, false, false, ' ') {
                None => None,
                Some(u) => {
                    let a = d + u;
                    let typo = typo_of(name);
                    if typo == name {
                        None
                    } else {
                        Some((
                            (if prefixed { strict_prefix() } else { Seq::empty() }) + s.subrange(0, a) + typo
                                + s.subrange(a + name.len(), s.len() as int),
                            typo_note(name, typo, prefixed),
                        ))
                    }
                },
            },
        }
    }
}

/// The candidates for the names `names`, in order.
pub open spec fn typo_candidates(s: Seq<char>, names: Seq<Seq<char>>, prefixed: bool) -> Seq<(Seq<char>, Seq<char>, Seq<char>)>
    decreases names.len(),
{
    if names.len() == 0 {
        Seq::empty()
    } else {
        let prev = typo_candidates(s, names.drop_last(), prefixed);
        match typo_candidate(s, names.last(), prefixed) {
            Some((m, n)) => prev.push(("identifier_typo"@, m, n)),
            None => prev,
        }
    }
}

/// Inject a one-character typo at the first use (after its declaring
/// line) of each `let`/`var` name of 4+ characters. `# strict` is
/// prepended when the source is in neither strict nor verified mode.
pub struct IdentifierTypoRule;

impl MutationRule for IdentifierTypoRule {
    fn name(&self) -> (r: &'static str)
        ensures
            r@ == "identifier_typo"@,
    {
        "identifier_typo"
    }

    fn apply(&self, source: &str) -> (r: Vec<MutationCandidate>)
        ensures
            cands_view(r@) == typo_candidates(
                source@,
                let_names_of(lines(source@)),
                !has_directive(source@, strict_directive()) && !has_directive(source@, verified_directive()),
            ),
    {
        identifier_typo_candidates(source)
    }
}

fn identifier_typo_candidates(source: &str) -> (r: Vec<MutationCandidate>)
    ensures
        cands_view(r@) == typo_candidates(
            source@,
            let_names_of(lines(source@)),
            !has_directive(source@, strict_directive()) && !has_directive(source@, verified_directive()),
        ),
{
    let v = chars_of(source);
    let names = collect_let_names(&v);
    let ghost nv = names@.map_values(|e: Vec<char>| e@);
    let prefixed = !detect_strict(source) && !detect_verified(source);
    let mut out: Vec<MutationCandidate> = Vec::new();
    let mut i: usize = 0;
    while i < names.len()
        invariant
            v@ == source@,
            nv == names@.map_values(|e: Vec<char>| e@),
            i <= names@.len(),
            cands_view(out@) == typo_candidates(v@, nv.subrange(0, i as int), prefixed),
        decreases names.len() - i,
    {
        let ghost o0 = cands_view(out@);
        assert(nv.subrange(0, i + 1).drop_last() =~= nv.subrange(0, i as int));
        assert(nv.subrange(0, i + 1).last() == names@[i as int]@);
        let name = &names[i];
        let ghost nm = name@;
        if name.len() >= 4 {
            if let Some(d) = find_let_decl(&v, name) {
                if let Some(u) = find_use_after_decl(&v, d, name) {
                    proof { lemma_use_scan_bound(v@.subrange(d as int, v@.len() as int), nm, 0, false, false, ' '); }
                    assert(d <= v@.len());
                    assert(v@.len() == v.len());
                    assert(u + nm.len() <= v@.len() - d);
                    let a = d + u;
                    let typo = make_typo(name);
                    if !chars_eq(&typo, name) {
                        let mut mutated = String::new();
                        if prefixed {
                            push_str(&mut mutated, "# strict\n");
                        }
                        let pre = slice_vec(&v, 0, a);
                        push_chars(&mut mutated, &pre);
                        push_chars(&mut mutated, &typo);
                        let post = slice_vec(&v, a + name.len(), v.len());
                        push_chars(&mut mutated, &post);
                        let mut note = String::new();
                        push_str(&mut note, "renamed `");
                        push_chars(&mut note, name);
                        push_str(&mut note, "` to `");
                        push_chars(&mut note, &typo);
                        push_str(&mut note, "` at one use site");
                        if prefixed {
                            push_str(&mut note, " (and prepended `# strict` so the unknown-name diagnostic fires)");
                        } else {
                            push_str(&mut note, "");
                        }
                        out.push(MutationCandidate { kind: "identifier_typo", mutated, note });
                        proof {
                            if prefixed {
                                assert(cands_view(out@) =~= o0.push(("identifier_typo"@, strict_prefix() + pre@ + typo@ + post@, typo_note(nm, typo@, prefixed))));
                            } else {
                                assert(cands_view(out@) =~= o0.push(("identifier_typo"@, Seq::<char>::empty() + pre@ + typo@ + post@, typo_note(nm, typo@, prefixed))));
                            }
                        }
                    }
                }
            }
        }
        i += 1;
    }
    assert(nv.subrange(0, nv.len() as int) =~= nv);
    out
}

pub proof fn lemma_use_scan_bound(s: Seq<char>, name: Seq<char>, i: int, a: bool, b: bool, q: char)
    requires
        0 <= i,
    ensures
        use_scan(s, name, i, a, b, q) matches Some(k) ==> word_at(s, k, name) && k + name.len() <= s.len(),
    decreases s.len() - i,
{
    if i < s.len() {
        let c = s[i];
        if b {
            lemma_use_scan_bound(s, name, i + 1, false, c != '\n', q);
        } else if a {
            if c == '\\' && i + 1 < s.len() {
                lemma_use_scan_bound(s, name, i + 2, true, false, q);
            } else {
                lemma_use_scan_bound(s, name, i + 1, c != q, false, q);
            }
        } else if c == '#' {
            lemma_use_scan_bound(s, name, i + 1, false, true, q);
        } else if c == '"' || c == '\'' {
            lemma_use_scan_bound(s, name, i + 1, true, false, c);
        } else if !word_at(s, i, name) {
            lemma_use_scan_bound(s, name, i + 1, false, false, q);
        }
    }
}

// ---------------------------------------------------------------------------
// Literal type rule
// ---------------------------------------------------------------------------

/// Length of the leading run of ASCII digits.
pub open spec fn digit_run(s: Seq<char>) -> nat
    decreases s.len(),
{
    if s.len() > 0 && is_ascii_digit(s[0]) {
        1 + digit_run(s.drop_first())
    } else {
        0
    }
}

/// The integer literal of a `let NAME: int = N` line.
pub open spec fn int_literal_of(line: Seq<char>) -> Option<Seq<char>> {
    let t = trim_start(line);
    if !starts_with(t, let_kw()) {
        None
    } else {
        match find(t, seq![':']) {
            None => None,
            Some(c) => {
                let after = trim_start(t.skip(c + 1));
                if !starts_with(after, seq!['i', 'n', 't']) {
                    None
                } else {
                    match find(after, seq!['=']) {
                        None => None,
                        Some(e) => {
                            let rhs = trim(after.skip(e + 1));
                            let n = digit_run(rhs);
                            if n == 0 {
                                None
                            } else {
                                Some(rhs.take(n as int))
                            }
                        },
                    }
                }
            },
        }
    }
}

/// `str::replacen(p, r, 1)`.
/// Where the literal of a `let NAME: int = N` line starts: past the
/// first `=` after the `int` annotation, and past the whitespace after it.
pub open spec fn int_literal_start(line: Seq<char>) -> int {
    let t = trim_start(line);
    match find(t, seq![':']) {
        None => 0,
        Some(c) => {
            let after = trim_start(t.skip(c + 1));
            match find(after, seq!['=']) {
                None => 0,
                Some(e) => line.len() - trim_start(after.skip(e + 1)).len(),
            }
        },
    }
}

pub open spec fn quoted(lit: Seq<char>) -> Seq<char> {
    seq!['"'] + lit + seq!['"']
}

/// The first `k` lines joined by newlines, line `idx` replaced by `nl`.
pub open spec fn joined(ls: Seq<Seq<char>>, idx: int, nl: Seq<char>, k: int) -> Seq<char>
    decreases k,
{
    if k <= 0 {
        Seq::empty()
    } else {
        joined(ls, idx, nl, k - 1) + (if k - 1 > 0 { seq!['\n'] } else { Seq::empty() }) + (if k - 1 == idx {
            nl
        } else {
            ls[k - 1]
        })
    }
}

pub open spec fn literal_note(lit: Seq<char>, idx: int) -> Seq<char> {
    "replaced int literal `"@ + lit + "` with string literal `\""@ + lit + "\"` on line "@ + dec((idx + 1) as nat)
}

/// The candidate for line `idx`, if that line is a `let NAME: int = N`.
pub open spec fn literal_candidate(s: Seq<char>, idx: int) -> Option<(Seq<char>, Seq<char>)> {
    let ls = lines(s);
    match int_literal_of(ls[idx]) {
        None => None,
        Some(lit) => {
            let start = int_literal_start(ls[idx]);
            let nl = ls[idx].take(start) + quoted(lit) + ls[idx].skip(start + lit.len());
            Some((
                joined(ls, idx, nl, ls.len() as int) + (if s.len() > 0 && s.last() == '\n' {
                    seq!['\n']
                } else {
                    Seq::empty()
                }),
                literal_note(lit, idx),
            ))
        },
    }
}

/// The candidates for the first `k` lines of `s`.
pub open spec fn literal_candidates(s: Seq<char>, k: int) -> Seq<(Seq<char>, Seq<char>, Seq<char>)>
    decreases k,
{
    if k <= 0 {
        Seq::empty()
    } else {
        let prev = literal_candidates(s, k - 1);
        match literal_candidate(s, k - 1) {
            Some((m, n)) => prev.push(("literal_type_mismatch"@, m, n)),
            None => prev,
        }
    }
}

fn digit_end(v: &Vec<char>, from: usize, to: usize) -> (r: usize)
    requires
        from <= to <= v@.len(),
    ensures
        from <= r <= to,
        r - from == digit_run(v@.subrange(from as int, to as int)),
{
    let mut i = from;
    while i < to && ascii_digit(v[i])
        invariant
            from <= i <= to <= v@.len(),
            digit_run(v@.subrange(from as int, to as int)) == (i - from) + digit_run(
                v@.subrange(i as int, to as int),
            ),
        decreases to - i,
    {
        assert(v@.subrange(i as int, to as int).drop_first() =~= v@.subrange(i + 1, to as int));
        i += 1;
    }
    i
}

/// The literal of line `v[a..b]`, as a range of `v`.
fn int_literal_span(v: &Vec<char>, a: usize, b: usize) -> (r: Option<(usize, usize)>)
    requires
        a <= b <= v@.len(),
    ensures
        r matches Some(p) ==> a <= p.0 <= p.1 <= b && int_literal_of(v@.subrange(a as int, b as int))
            == Some(v@.subrange(p.0 as int, p.1 as int)) && p.0 - a == int_literal_start(
            v@.subrange(a as int, b as int),
        ),
        r is None ==> int_literal_of(v@.subrange(a as int, b as int)) is None,
{
    let s = skip_ws(v, a, b);
    let lk = vec!['l', 'e', 't', ' '];
    assert(lk@ =~= let_kw());
    if !has_prefix_at(v, s, b, &lk) {
        return None;
    }
    let t = slice_vec(v, s, b);
    let colon = vec![':'];
    assert(colon@ =~= seq![':']);
    let c = match find_chars(&t, &colon) {
        Some(c) => c,
        None => return None,
    };
    proof { lemma_find_from_props(t@, seq![':'], 0); }
    let s2 = skip_ws(v, s + c + 1, b);
    assert(t@.skip(c + 1) =~= v@.subrange(s + c + 1, b as int));
    let ik = vec!['i', 'n', 't'];
    assert(ik@ =~= seq!['i', 'n', 't']);
    if !has_prefix_at(v, s2, b, &ik) {
        return None;
    }
    let after = slice_vec(v, s2, b);
    let eq = vec!['='];
    assert(eq@ =~= seq!['=']);
    let e = match find_chars(&after, &eq) {
        Some(e) => e,
        None => return None,
    };
    proof { lemma_find_from_props(after@, seq!['='], 0); }
    assert(after@.skip(e + 1) =~= v@.subrange(s2 + e + 1, b as int));
    let rs = skip_ws(v, s2 + e + 1, b);
    let re = skip_ws_back(v, rs, b);
    let d = digit_end(v, rs, re);
    if d == rs {
        return None;
    }
    assert(v@.subrange(rs as int, re as int).take((d - rs) as int) =~= v@.subrange(rs as int, d as int));
    Some((rs, d))
}

/// Line `v[a..b]` with `v[p..q]` put between quotes.
fn quote_span(v: &Vec<char>, a: usize, p: usize, q: usize, b: usize) -> (r: Vec<char>)
    requires
        a <= p <= q <= b <= v@.len(),
    ensures
        r@ == v@.subrange(a as int, b as int).take(p - a) + quoted(v@.subrange(p as int, q as int))
            + v@.subrange(a as int, b as int).skip(q - a),
{
    let mut out = slice_vec(v, a, p);
    out.push('"');
    let mut i = p;
    let ghost o0 = out@;
    while i < b
        invariant
            p <= i <= b <= v@.len(),
            q <= b,
            i <= q ==> out@ == o0 + v@.subrange(p as int, i as int),
            i > q ==> out@ == o0 + v@.subrange(p as int, q as int) + seq!['"'] + v@.subrange(q as int, i as int),
            o0 == v@.subrange(a as int, p as int).push('"'),
        decreases b - i + (if i <= q { 1int } else { 0int }),
    {
        if i == q {
            out.push('"');
            assert(out@ =~= o0 + v@.subrange(p as int, q as int) + seq!['"'] + v@.subrange(q as int, i as int));
        }
        out.push(v[i]);
        if i < q {
            assert(out@ =~= o0 + v@.subrange(p as int, i + 1));
        } else {
            assert(out@ =~= o0 + v@.subrange(p as int, q as int) + seq!['"'] + v@.subrange(q as int, i + 1));
        }
        i += 1;
    }
    if q == b {
        out.push('"');
    }
    assert(out@ =~= v@.subrange(a as int, b as int).take(p - a) + quoted(v@.subrange(p as int, q as int))
        + v@.subrange(a as int, b as int).skip(q - a));
    out
}

/// Replace the integer literal of each `let NAME: int = N` line with a
/// string literal of the same digits, one candidate per such line. Only
/// fires on sources in strict or verified mode.
pub struct LiteralTypeRule;

impl MutationRule for LiteralTypeRule {
    fn name(&self) -> (r: &'static str)
        ensures
            r@ == "literal_type_mismatch"@,
    {
        "literal_type_mismatch"
    }

    fn apply(&self, source: &str) -> (r: Vec<MutationCandidate>)
        ensures
            cands_view(r@) == (if has_directive(source@, strict_directive()) || has_directive(
                source@,
                verified_directive(),
            ) {
                literal_candidates(source@, lines(source@).len() as int)
            } else {
                Seq::empty()
            }),
    {
        literal_type_candidates(source)
    }
}

#[verifier::loop_isolation(false)]
#[verifier::rlimit(30)]
fn literal_type_candidates(source: &str) -> (r: Vec<MutationCandidate>)
    ensures
        cands_view(r@) == (if has_directive(source@, strict_directive()) || has_directive(
            source@,
            verified_directive(),
        ) {
            literal_candidates(source@, lines(source@).len() as int)
        } else {
            Seq::empty()
        }),
{
    let mut out: Vec<MutationCandidate> = Vec::new();
    if !detect_strict(source) && !detect_verified(source) {
        assert(cands_view(out@) =~= Seq::empty());
        return out;
    }
    let v = chars_of(source);
    let spans = line_spans(&v);
    let ghost ls = lines(v@);
    let n = spans.len();
    let ends_nl = v.len() > 0 && v[v.len() - 1] == '\n';
    let mut idx: usize = 0;
    while idx < n
        invariant
            n == spans@.len(),
            idx <= n,
            cands_view(out@) == literal_candidates(v@, idx as int),
        decreases n - idx,
    {
        let ghost o0 = cands_view(out@);
        let (a, b) = spans[idx];
        assert(spans@[idx as int].0 <= spans@[idx as int].1 <= v@.len());
        match int_literal_span(&v, a, b) {
            None => {},
            Some((ls_, le_)) => {
                let lit = slice_vec(&v, ls_, le_);
                let nl = quote_span(&v, a, ls_, le_, b);
                proof {
                    let line = v@.subrange(a as int, b as int);
                    assert(line == ls[idx as int]);
                    assert(int_literal_start(line) == ls_ - a);
                    assert(nl@ == line.take(int_literal_start(line)) + quoted(lit@) + line.skip(
                        int_literal_start(line) + lit@.len(),
                    ));
                }
                let mut mutated = String::new();
                let mut k: usize = 0;
                while k < n
                    invariant
                        k <= n,
                        mutated@ == joined(ls, idx as int, nl@, k as int),
                    decreases n - k,
                {
                    if k > 0 {
                        push_char(&mut mutated, '\n');
                    }
                    if k == idx {
                        push_chars(&mut mutated, &nl);
                    } else {
                        let (ka, kb) = spans[k];
                        assert(spans@[k as int].0 <= spans@[k as int].1 <= v@.len());
                        let piece = slice_vec(&v, ka, kb);
                        push_chars(&mut mutated, &piece);
                    }
                    proof {
                        if k > 0 {
                            assert(mutated@ =~= joined(ls, idx as int, nl@, (k + 1) as int));
                        } else {
                            assert(mutated@ =~= joined(ls, idx as int, nl@, (k + 1) as int));
                        }
                    }
                    k += 1;
                }
                if ends_nl {
                    push_char(&mut mutated, '\n');
                }
                let mut note = String::new();
                push_str(&mut note, "replaced int literal `");
                push_chars(&mut note, &lit);
                push_str(&mut note, "` with string literal `\"");
                push_chars(&mut note, &lit);
                push_str(&mut note, "\"` on line ");
                push_decimal(&mut note, (idx as u64) + 1);
                out.push(MutationCandidate { kind: "literal_type_mismatch", mutated, note });
                proof {
                    let m = joined(ls, idx as int, nl@, n as int) + (if v@.len() > 0 && v@.last() == '\n' {
                        seq!['\n']
                    } else {
                        Seq::<char>::empty()
                    });
                    assert(k == n);
                    assert(out@.last().mutated@ == m);
                    assert(out@.last().note@ == literal_note(lit@, idx as int));
                    assert(out@.last().kind@ == "literal_type_mismatch"@);
                    assert(cands_view(out@) =~= o0.push(("literal_type_mismatch"@, m, literal_note(lit@, idx as int))));
                }
            },
        }
        idx += 1;
    }
    out
}

// ---------------------------------------------------------------------------
// Report and corpus lines
// ---------------------------------------------------------------------------

/// Summary of one corpus run.
pub struct MutationReport {
    pub source_files: usize,
    pub triples_emitted: usize,
    pub rules_applied: Vec<String>,
    pub output_path: String,
}

/// `items` joined by `", "`.
pub open spec fn comma_join(items: Seq<Seq<char>>) -> Seq<char>
    decreases items.len(),
{
    if items.len() == 0 {
        Seq::empty()
    } else if items.len() == 1 {
        items[0]
    } else {
        comma_join(items.drop_last()) + ", "@ + items.last()
    }
}

pub open spec fn summary_text(r: MutationReport) -> Seq<char> {
    "[twec mutate] scanned "@ + dec(r.source_files as nat) + " file(s), emitted "@ + dec(r.triples_emitted as nat)
        + " triple(s) using rule(s): "@ + comma_join(r.rules_applied@.map_values(|x: String| x@)) + " → "@
        + r.output_path@
}

impl MutationReport {
    /// One-line human summary of the run.
    pub fn summary(&self) -> (r: String)
        ensures
            r@ == summary_text(*self),
    {
        let mut s = String::new();
        push_str(&mut s, "[twec mutate] scanned ");
        push_decimal(&mut s, self.source_files as u64);
        push_str(&mut s, " file(s), emitted ");
        push_decimal(&mut s, self.triples_emitted as u64);
        push_str(&mut s, " triple(s) using rule(s): ");
        let ghost items = self.rules_applied@.map_values(|x: String| x@);
        let ghost pre = s@;
        let mut i: usize = 0;
        while i < self.rules_applied.len()
            invariant
                i <= items.len(),
                items == self.rules_applied@.map_values(|x: String| x@),
                s@ == pre + comma_join(items.subrange(0, i as int)),
            decreases self.rules_applied.len() - i,
        {
            let ghost s0 = s@;
            assert(items.subrange(0, i + 1).drop_last() =~= items.subrange(0, i as int));
            if i > 0 {
                push_str(&mut s, ", ");
            }
            push_str(&mut s, self.rules_applied[i].as_str());
            proof {
                if i == 0 {
                    assert(items.subrange(0, 0) =~= Seq::<Seq<char>>::empty());
                }
                assert(s@ =~= pre + comma_join(items.subrange(0, i + 1)));
            }
            i += 1;
        }
        assert(items.subrange(0, items.len() as int) =~= items);
        push_str(&mut s, " → ");
        push_str(&mut s, self.output_path.as_str());
        s
    }
}

pub open spec fn triple_text(path: Seq<char>, original: Seq<char>, c: MutationCandidate, report: Seq<char>) -> Seq<char> {
    seq!['{'] + "\"tool\":\"twec-mutate\",\"version\":1"@ + ",\"source_path\":"@ + json_quote(path)
        + ",\"rule\":"@ + json_quote(c.kind@) + ",\"note\":"@ + json_quote(c.note@) + ",\"original\":"@
        + json_quote(original) + ",\"mutated\":"@ + json_quote(c.mutated@) + ",\"verify\":"@ + report + seq!['}']
}

/// One corpus line: the candidate, the unmutated source, and the verifier's JSON report.
#[verifier::rlimit(40)]
pub fn build_triple_jsonl(path: &str, original: &str, cand: &MutationCandidate, report_json: &str) -> (r: String)
    ensures
        r@ == triple_text(path@, original@, *cand, report_json@),
{
    let mut s = String::new();
    push_char(&mut s, '{');
    push_str(&mut s, "\"tool\":\"twec-mutate\",\"version\":1");
    push_str(&mut s, ",\"source_path\":");
    json_string(&mut s, path);
    push_str(&mut s, ",\"rule\":");
    json_string(&mut s, cand.kind);
    push_str(&mut s, ",\"note\":");
    json_string(&mut s, cand.note.as_str());
    push_str(&mut s, ",\"original\":");
    json_string(&mut s, original);
    push_str(&mut s, ",\"mutated\":");
    json_string(&mut s, cand.mutated.as_str());
    push_str(&mut s, ",\"verify\":");
    push_str(&mut s, report_json);
    push_char(&mut s, '}');
    assert(s@ =~= triple_text(path@, original@, *cand, report_json@));
    s
}

/// Appends `value` as a JSON string literal.
pub fn json_string(out: &mut String, value: &str)
    ensures
        final(out)@ == old(out)@ + json_quote(value@),
{
    push_json_str(out, value);
}

} // verus!
