//! Language-server helpers: the symbol index's types, the identifier
//! under an editor cursor, where a declaration's name sits on its line,
//! and the completion kind of each symbol kind.
use vstd::prelude::*;
use crate::ast::{DeclKind, DeclMember, Expr, Program, StateMember, Stmt};
use crate::text::{chars_of, ident_char, is_ident_char, is_ascii_alpha, line_spans, lines, owned, push_str, slice_vec, string_of};

verus! {

/// One declaration site found in a program.
#[derive(Debug, Clone, PartialEq, Eq)]
pub struct Symbol {
    pub name: String,
    pub kind: SymbolKind,
    /// 1-indexed line.
    pub line: u32,
    /// 1-indexed column.
    pub col: u32,
}

#[derive(Debug, Clone, Copy, PartialEq, Eq)]
pub enum SymbolKind {
    Let,
    Var,
    Function,
    Entity,
    Item,
    Modifier,
    Inventory,
    Scene,
    Particles,
    Visual,
    Method,
    State,
    InitialState,
    Field,
}

pub open spec fn kind_label(k: SymbolKind) -> Seq<char> {
    match k {
        SymbolKind::Let => "let"@,
        SymbolKind::Var => "var"@,
        SymbolKind::Function => "function"@,
        SymbolKind::Entity => "entity"@,
        SymbolKind::Item => "item"@,
        SymbolKind::Modifier => "modifier"@,
        SymbolKind::Inventory => "inventory"@,
        SymbolKind::Scene => "scene"@,
        SymbolKind::Particles => "particles"@,
        SymbolKind::Visual => "visual"@,
        SymbolKind::Method => "method"@,
        SymbolKind::State => "state"@,
        SymbolKind::InitialState => "initial state"@,
        SymbolKind::Field => "field"@,
    }
}

impl SymbolKind {
    /// The keyword a user would write for this kind of declaration.
    pub fn label(self) -> (r: &'static str)
        ensures
            r@ == kind_label(self),
    {
        match self {
            SymbolKind::Let => "let",
            SymbolKind::Var => "var",
            SymbolKind::Function => "function",
            SymbolKind::Entity => "entity",
            SymbolKind::Item => "item",
            SymbolKind::Modifier => "modifier",
            SymbolKind::Inventory => "inventory",
            SymbolKind::Scene => "scene",
            SymbolKind::Particles => "particles",
            SymbolKind::Visual => "visual",
            SymbolKind::Method => "method",
            SymbolKind::State => "state",
            SymbolKind::InitialState => "initial state",
            SymbolKind::Field => "field",
        }
    }
}

// ---------------------------------------------------------------------------
// Completion kinds (the wire constants of the protocol)
// ---------------------------------------------------------------------------

pub const COMPLETION_METHOD: i64 = 2;
pub const COMPLETION_FUNCTION: i64 = 3;
pub const COMPLETION_FIELD: i64 = 5;
pub const COMPLETION_VARIABLE: i64 = 6;
pub const COMPLETION_CLASS: i64 = 7;
pub const COMPLETION_ENUM: i64 = 13;
pub const COMPLETION_KEYWORD: i64 = 14;
pub const COMPLETION_CONSTANT: i64 = 21;

pub open spec fn completion_kind_of(kind: SymbolKind) -> i64 {
    match kind {
        SymbolKind::Let => COMPLETION_CONSTANT,
        SymbolKind::Var => COMPLETION_VARIABLE,
        SymbolKind::Function => COMPLETION_FUNCTION,
        SymbolKind::Method => COMPLETION_METHOD,
        SymbolKind::Field => COMPLETION_FIELD,
        SymbolKind::State | SymbolKind::InitialState => COMPLETION_ENUM,
        _ => COMPLETION_CLASS,
    }
}

/// The completion-item kind an editor shows for a symbol of `kind`.
pub fn symbol_kind_to_completion_kind(kind: SymbolKind) -> (r: i64)
    ensures
        r == completion_kind_of(kind),
{
    match kind {
        SymbolKind::Let => COMPLETION_CONSTANT,
        SymbolKind::Var => COMPLETION_VARIABLE,
        SymbolKind::Function => COMPLETION_FUNCTION,
        SymbolKind::Method => COMPLETION_METHOD,
        SymbolKind::Field => COMPLETION_FIELD,
        SymbolKind::Entity | SymbolKind::Item | SymbolKind::Modifier | SymbolKind::Inventory
        | SymbolKind::Scene | SymbolKind::Particles | SymbolKind::Visual => COMPLETION_CLASS,
        SymbolKind::State | SymbolKind::InitialState => COMPLETION_ENUM,
    }
}

// ---------------------------------------------------------------------------
// Identifier under the cursor
// ---------------------------------------------------------------------------

/// `[A-Za-z_]`: a character that may start an identifier.
pub open spec fn is_id_start_char(c: char) -> bool {
    is_ascii_alpha(c) || c == '_'
}

pub fn is_id_start(c: char) -> (r: bool)
    ensures
        r == is_id_start_char(c),
{
    ('a' <= c && c <= 'z') || ('A' <= c && c <= 'Z') || c == '_'
}

pub fn is_id_continue(c: char) -> (r: bool)
    ensures
        r == is_ident_char(c),
{
    ident_char(c)
}

/// The first index of the run of identifier characters that ends just
/// before `i`.
pub open spec fn run_start(cs: Seq<char>, i: int) -> int
    decreases i,
{
    if i > 0 && is_ident_char(cs[i - 1]) {
        run_start(cs, i - 1)
    } else {
        i
    }
}

/// The index just past the run of identifier characters that starts at `j`.
pub open spec fn run_end(cs: Seq<char>, j: int) -> int
    decreases cs.len() - j,
{
    if 0 <= j < cs.len() && is_ident_char(cs[j]) {
        run_end(cs, j + 1)
    } else {
        j
    }
}

/// The identifier that the cursor at `character` of line `cs` touches:
/// the one it stands in, or the one that ends just left of it.
pub open spec fn identifier_in_line(cs: Seq<char>, character: int) -> Option<Seq<char>> {
    if character > cs.len() {
        None
    } else {
        let at_end_or_break = character == cs.len() || !is_ident_char(cs[character]);
        let idx = if at_end_or_break && character > 0 && is_ident_char(cs[character - 1]) {
            character - 1
        } else {
            character
        };
        if idx >= cs.len() || !is_ident_char(cs[idx]) {
            None
        } else {
            let start = run_start(cs, idx);
            if !is_id_start_char(cs[start]) {
                None
            } else {
                Some(cs.subrange(start, run_end(cs, idx + 1)))
            }
        }
    }
}

/// The identifier under the zero-indexed position (`line`, `character`)
/// of `text`.
pub open spec fn identifier_at_spec(text: Seq<char>, line: int, character: int) -> Option<Seq<char>> {
    let ls = lines(text);
    if line < ls.len() {
        identifier_in_line(ls[line], character)
    } else {
        None
    }
}

proof fn lemma_run_start_bounds(cs: Seq<char>, i: int)
    requires
        0 <= i <= cs.len(),
    ensures
        0 <= run_start(cs, i) <= i,
        forall|k: int| run_start(cs, i) <= k < i ==> is_ident_char(#[trigger] cs[k]),
    decreases i,
{
    if i > 0 && is_ident_char(cs[i - 1]) {
        lemma_run_start_bounds(cs, i - 1);
    }
}

proof fn lemma_run_end_bounds(cs: Seq<char>, j: int)
    requires
        0 <= j <= cs.len(),
    ensures
        j <= run_end(cs, j) <= cs.len(),
    decreases cs.len() - j,
{
    if j < cs.len() && is_ident_char(cs[j]) {
        lemma_run_end_bounds(cs, j + 1);
    }
}

/// The identifier under the cursor at zero-indexed (`line`, `character`),
/// as an editor reports positions; `None` where the cursor touches none.
pub fn identifier_at(text: &str, line: u32, character: u32) -> (r: Option<String>)
    ensures
        match r {
            Some(s) => identifier_at_spec(text@, line as int, character as int) == Some(s@),
            None => identifier_at_spec(text@, line as int, character as int) is None,
        },
{
    let v = chars_of(text);
    let spans = line_spans(&v);
    let li = line as usize;
    if li >= spans.len() {
        return None;
    }
    let (a, b) = spans[li];
    proof {
        assert(spans@[li as int].0 <= spans@[li as int].1 <= v@.len());
    }
    let chars = slice_vec(&v, a, b);
    let ghost cs = chars@;
    assert(cs == lines(text@)[line as int]);
    let mut idx = character as usize;
    if idx > chars.len() {
        return None;
    }
    let at_end_or_break = idx == chars.len() || (idx < chars.len() && !is_id_continue(chars[idx]));
    if at_end_or_break && idx > 0 && is_id_continue(chars[idx - 1]) {
        idx -= 1;
    }
    if idx >= chars.len() || !is_id_continue(chars[idx]) {
        return None;
    }
    let mut start = idx;
    while start > 0 && is_id_continue(chars[start - 1])
        invariant
            start <= idx < chars@.len(),
            cs == chars@,
            run_start(cs, start as int) == run_start(cs, idx as int),
        decreases start,
    {
        start -= 1;
    }
    if !is_id_start(chars[start]) {
        return None;
    }
    let mut end = idx + 1;
    while end < chars.len() && is_id_continue(chars[end])
        invariant
            idx < end <= chars@.len(),
            cs == chars@,
            run_end(cs, end as int) == run_end(cs, idx + 1),
        decreases chars.len() - end,
    {
        end += 1;
    }
    let word = slice_vec(&chars, start, end);
    Some(string_of(&word))
}

// ---------------------------------------------------------------------------
// Where a declaration's name sits on its source line
// ---------------------------------------------------------------------------

/// `[A-Za-z0-9_]` on bytes.
pub open spec fn is_id_byte(b: u8) -> bool {
    (0x61 <= b <= 0x7a) || (0x41 <= b <= 0x5a) || (0x30 <= b <= 0x39) || b == 0x5f
}

fn id_byte(b: u8) -> (r: bool)
    ensures
        r == is_id_byte(b),
{
    (0x61 <= b && b <= 0x7a) || (0x41 <= b && b <= 0x5a) || (0x30 <= b && b <= 0x39) || b == 0x5f
}

/// `nd` occurs in `bs` at byte `i` as a whole word.
pub open spec fn word_match_at(bs: Seq<u8>, nd: Seq<u8>, i: int) -> bool {
    &&& 0 <= i
    &&& i + nd.len() <= bs.len()
    &&& (i == 0 || !is_id_byte(bs[i - 1]))
    &&& (i + nd.len() == bs.len() || !is_id_byte(bs[i + nd.len()]))
    &&& bs.subrange(i, i + nd.len()) == nd
}

/// The first whole-word occurrence of `nd` in `bs` at or after byte `i`.
pub open spec fn first_word_match(bs: Seq<u8>, nd: Seq<u8>, i: int) -> Option<int>
    decreases bs.len() + 1 - i,
{
    if i < 0 || i + nd.len() > bs.len() {
        None
    } else if word_match_at(bs, nd, i) {
        Some(i)
    } else {
        first_word_match(bs, nd, i + 1)
    }
}

pub open spec fn sat_pred(x: u32) -> u32 {
    if x >= 1 { (x - 1) as u32 } else { 0 }
}

/// Zero-indexed (line, byte column) of `sym`'s name on its declaration
/// line of `text`, or the recorded position where the name is not found.
pub open spec fn name_position_spec(text: Seq<char>, sym: Symbol) -> (u32, u32) {
    let line_idx = sat_pred(sym.line);
    let ls = lines(text);
    let fallback = (sat_pred(sym.line), sat_pred(sym.col));
    if line_idx < ls.len() {
        match first_word_match(vstd::utf8::encode_utf8(ls[line_idx as int]), vstd::utf8::encode_utf8(sym.name@), 0) {
            Some(i) => (line_idx, i as u32),
            None => fallback,
        }
    } else {
        fallback
    }
}

fn bytes_equal_at(bs: &[u8], i: usize, nd: &[u8]) -> (r: bool)
    requires
        i + nd.len() <= bs.len(),
    ensures
        r == (bs@.subrange(i as int, i + nd@.len()) == nd@),
{
    let mut k: usize = 0;
    while k < nd.len()
        invariant
            k <= nd.len(),
            i + nd.len() <= bs.len(),
            forall|m: int| 0 <= m < k ==> bs@[i + m] == nd@[m],
        decreases nd.len() - k,
    {
        if bs[i + k] != nd[k] {
            assert(bs@.subrange(i as int, i + nd@.len())[k as int] != nd@[k as int]);
            return false;
        }
        k += 1;
    }
    assert(bs@.subrange(i as int, i + nd@.len()) =~= nd@);
    true
}

/// Zero-indexed (line, column) of the name of `sym` on its declaration
/// line: the first whole-word occurrence, in bytes; the symbol's own
/// position, made zero-indexed, where the line or the name is missing.
pub fn name_position_in_source(text: &str, sym: &Symbol) -> (r: (u32, u32))
    ensures
        r == name_position_spec(text@, *sym),
{
    let line_idx: u32 = if sym.line >= 1 { sym.line - 1 } else { 0 };
    let col0: u32 = if sym.col >= 1 { sym.col - 1 } else { 0 };
    let v = chars_of(text);
    let spans = line_spans(&v);
    let li = line_idx as usize;
    if li < spans.len() {
        let (a, b) = spans[li];
        proof {
            assert(spans@[li as int].0 <= spans@[li as int].1 <= v@.len());
        }
        let line_chars = slice_vec(&v, a, b);
        let line_text = string_of(&line_chars);
        let bytes = line_text.as_str().as_bytes();
        let needle = sym.name.as_str().as_bytes();
        let ghost bs = bytes@;
        let ghost nd = needle@;
        assert(bs == vstd::utf8::encode_utf8(lines(text@)[line_idx as int]));
        assert(nd == vstd::utf8::encode_utf8(sym.name@));
        if needle.len() <= bytes.len() {
            let last = bytes.len() - needle.len();
            let mut i: usize = 0;
            loop
                invariant
                    bs == bytes@,
                    nd == needle@,
                    bs == vstd::utf8::encode_utf8(lines(text@)[line_idx as int]),
                    nd == vstd::utf8::encode_utf8(sym.name@),
                    line_idx == sat_pred(sym.line),
                    line_idx < lines(text@).len(),
                    last + nd.len() == bs.len(),
                    i <= last,
                    first_word_match(bs, nd, 0) == first_word_match(bs, nd, i as int),
                ensures
                    first_word_match(bs, nd, 0) is None,
                decreases last - i,
            {
                let prev_ok = i == 0 || !id_byte(bytes[i - 1]);
                let next_ok = i + needle.len() == bytes.len() || !id_byte(bytes[i + needle.len()]);
                if prev_ok && next_ok && bytes_equal_at(bytes, i, needle) {
                    assert(word_match_at(bs, nd, i as int));
                    assert(first_word_match(bs, nd, i as int) == Some(i as int));
                    return (line_idx, i as u32);
                }
                assert(!word_match_at(bs, nd, i as int));
                if i == last {
                    assert(first_word_match(bs, nd, i + 1) is None);
                    break;
                }
                i += 1;
            }
        }
    }
    (line_idx, col0)
}

/// The range a definition reply gives for `sym` in `text`: zero-indexed
/// line, start column, and end column (start plus the name's length in
/// characters).
pub fn symbol_range(text: &str, sym: &Symbol) -> (r: (u32, u32, u64))
    requires
        sym.name@.len() <= u64::MAX - u32::MAX,
    ensures
        (r.0, r.1) == name_position_spec(text@, *sym),
        r.2 == r.1 + sym.name@.len(),
{
    let (line, col) = name_position_in_source(text, sym);
    let n = chars_of(sym.name.as_str()).len();
    (line, col, col as u64 + n as u64)
}

/// The hover text of a symbol: a `twe` code block holding its kind and
/// name, followed by its inferred type when one is known (a function or
/// method shows it as its signature).
pub open spec fn hover_text(kind: SymbolKind, name: Seq<char>, ty: Option<Seq<char>>) -> Seq<char> {
    "```twe\n"@ + match ty {
        Some(t) => match kind {
            SymbolKind::Function => "function "@ + name + " : "@ + t,
            SymbolKind::Method => "method "@ + name + " : "@ + t,
            _ => kind_label(kind) + " "@ + name + " : "@ + t,
        },
        None => kind_label(kind) + " "@ + name,
    } + "\n```"@
}

/// The markdown a hover reply shows for `sym`; `inferred` is the
/// rendered type, `None` when inference found none.
pub fn hover_markdown(sym: &Symbol, inferred: Option<&str>) -> (r: String)
    ensures
        r@ == hover_text(sym.kind, sym.name@, match inferred {
            Some(t) => Some(t@),
            None => None,
        }),
{
    let mut out = owned("```twe\n");
    match inferred {
        Some(t) => {
            match sym.kind {
                SymbolKind::Function => push_str(&mut out, "function "),
                SymbolKind::Method => push_str(&mut out, "method "),
                _ => {
                    push_str(&mut out, sym.kind.label());
                    push_str(&mut out, " ");
                },
            }
            push_str(&mut out, sym.name.as_str());
            push_str(&mut out, " : ");
            push_str(&mut out, t);
        },
        None => {
            push_str(&mut out, sym.kind.label());
            push_str(&mut out, " ");
            push_str(&mut out, sym.name.as_str());
        },
    }
    push_str(&mut out, "\n```");
    proof {
        reveal_strlit("function ");
        reveal_strlit("method ");
        reveal_strlit("function");
        reveal_strlit("method");
        reveal_strlit(" ");
    }
    assert(out@ =~= hover_text(sym.kind, sym.name@, match inferred {
        Some(t) => Some(t@),
        None => None,
    }));
    out
}

/// The zero-indexed position of a diagnostic reported at one-indexed
/// `line` and `col` (zero stays zero).
pub fn diagnostic_position(line: u32, col: u32) -> (r: (u32, u32))
    ensures
        r.0 == (if line >= 1 { line - 1 } else { 0 }),
        r.1 == (if col >= 1 { col - 1 } else { 0 }),
{
    (if line >= 1 { line - 1 } else { 0 }, if col >= 1 { col - 1 } else { 0 })
}

// ---------------------------------------------------------------------------
// The server's decisions
// ---------------------------------------------------------------------------

/// A client message, as the transport decoded it. A `None` payload means
/// the message's parameters were missing or malformed.
pub enum LspEvent {
    Initialize,
    Initialized,
    Shutdown,
    Exit,
    /// `textDocument/didOpen`: uri and text.
    DidOpen(Option<(String, String)>),
    /// `textDocument/didChange` (full sync): uri and the new text.
    DidChange(Option<(String, String)>),
    /// `textDocument/didClose`: uri.
    DidClose(Option<String>),
    /// `textDocument/definition`: uri, line, character.
    Definition(Option<(String, u32, u32)>),
    /// `textDocument/hover`: uri, line, character.
    Hover(Option<(String, u32, u32)>),
    /// `textDocument/completion`: uri.
    Completion(Option<String>),
    /// Any other method; `is_request` when the message carries an id.
    Other { method: String, is_request: bool },
    /// A message without a method.
    NoMethod,
}

/// What the transport does in answer.
pub enum LspAction {
    /// Nothing to send; keep reading.
    Nothing,
    /// Stop the loop.
    Stop,
    /// Reply with the server's capabilities.
    ReplyCapabilities,
    /// Reply `null`.
    ReplyNull,
    /// Publish the diagnostics of `text` for `uri`.
    PublishDiagnostics { uri: String, text: String },
    /// Publish an empty diagnostics list for `uri`.
    ClearDiagnostics { uri: String },
    /// Resolve `name` against the declarations of `text`, replying with
    /// its location (or hover when `hover`), or `null` when not found.
    ResolveSymbol { hover: bool, uri: String, text: String, name: String },
    /// Reply with the completion items for `text`.
    Complete { text: String },
    /// Reply with a method-not-found error carrying `message`.
    MethodNotFound { message: String },
    /// Reply with an invalid-request error carrying `message`: the
    /// answer to every request after `shutdown`.
    InvalidRequest { message: String },
}

/// The JSON-RPC error code for an unknown method.
pub const LSP_METHOD_NOT_FOUND: i64 = -32601;
/// The JSON-RPC error code for a request the server refuses.
pub const LSP_INVALID_REQUEST: i64 = -32600;

/// The JSON-RPC error code an action replies with, when it is an error.
pub fn error_code(a: &LspAction) -> (r: Option<i64>)
    ensures
        r == (match *a {
            LspAction::MethodNotFound { .. } => Some(LSP_METHOD_NOT_FOUND),
            LspAction::InvalidRequest { .. } => Some(LSP_INVALID_REQUEST),
            _ => None::<i64>,
        }),
{
    match a {
        LspAction::MethodNotFound { .. } => Some(LSP_METHOD_NOT_FOUND),
        LspAction::InvalidRequest { .. } => Some(LSP_INVALID_REQUEST),
        _ => None,
    }
}

/// The message of the error that refuses a request after `shutdown`.
pub open spec fn shut_down_message() -> Seq<char> {
    "server has shut down"@
}

/// Whether the message carries an id and so expects a reply.
pub open spec fn is_request(e: LspEvent) -> bool {
    match e {
        LspEvent::Initialize | LspEvent::Shutdown => true,
        LspEvent::Definition(_) | LspEvent::Hover(_) | LspEvent::Completion(_) => true,
        LspEvent::Other { method: _, is_request } => is_request,
        _ => false,
    }
}

/// The open documents by uri, and whether `shutdown` was received.
pub struct LspServer {
    documents: Vec<(String, String)>,
    shutdown_received: bool,
}

pub open spec fn docs_map(v: Seq<(String, String)>) -> Map<Seq<char>, Seq<char>>
    decreases v.len(),
{
    if v.len() == 0 {
        Map::empty()
    } else {
        docs_map(v.drop_last()).insert(v.last().0@, v.last().1@)
    }
}

pub open spec fn unique_uris(v: Seq<(String, String)>) -> bool {
    forall|i: int, j: int| 0 <= i < j < v.len() ==> (#[trigger] v[i]).0@ != (#[trigger] v[j]).0@
}

proof fn lemma_docs_map_keys(v: Seq<(String, String)>, k: Seq<char>)
    ensures
        docs_map(v).contains_key(k) <==> exists|i: int| 0 <= i < v.len() && (#[trigger] v[i]).0@ == k,
    decreases v.len(),
{
    if v.len() > 0 {
        lemma_docs_map_keys(v.drop_last(), k);
        if docs_map(v.drop_last()).contains_key(k) {
            let i = choose|i: int| 0 <= i < v.drop_last().len() && (#[trigger] v.drop_last()[i]).0@ == k;
            assert(v[i].0@ == k);
        }
        if exists|i: int| 0 <= i < v.len() && (#[trigger] v[i]).0@ == k {
            let i = choose|i: int| 0 <= i < v.len() && (#[trigger] v[i]).0@ == k;
            if i < v.len() - 1 {
                assert(v.drop_last()[i].0@ == k);
            }
        }
    }
}

proof fn lemma_docs_map_update(v: Seq<(String, String)>, i: int, e: (String, String))
    requires
        unique_uris(v),
        0 <= i < v.len(),
        v[i].0@ == e.0@,
    ensures
        docs_map(v.update(i, e)) == docs_map(v).insert(e.0@, e.1@),
        unique_uris(v.update(i, e)),
    decreases v.len(),
{
    let w = v.update(i, e);
    if i == v.len() - 1 {
        assert(w.drop_last() =~= v.drop_last());
        lemma_docs_map_keys(v.drop_last(), e.0@);
        assert(docs_map(w) =~= docs_map(v).insert(e.0@, e.1@));
    } else {
        assert(w.drop_last() =~= v.drop_last().update(i, e));
        lemma_docs_map_update(v.drop_last(), i, e);
        assert(v.last().0@ != e.0@);
        assert(docs_map(w) =~= docs_map(v).insert(e.0@, e.1@));
    }
}

proof fn lemma_docs_map_remove(v: Seq<(String, String)>, i: int)
    requires
        unique_uris(v),
        0 <= i < v.len(),
    ensures
        docs_map(v.remove(i)) == docs_map(v).remove(v[i].0@),
        unique_uris(v.remove(i)),
    decreases v.len(),
{
    let w = v.remove(i);
    let k = v[i].0@;
    if i == v.len() - 1 {
        assert(w =~= v.drop_last());
        lemma_docs_map_keys(v.drop_last(), k);
        assert(docs_map(w) =~= docs_map(v).remove(k));
    } else {
        assert(w.drop_last() =~= v.drop_last().remove(i));
        assert(w.last() == v.last());
        lemma_docs_map_remove(v.drop_last(), i);
        assert(v.last().0@ != k);
        assert(docs_map(w) =~= docs_map(v).remove(k));
    }
}

/// The state's view: the open documents, and the shutdown flag.
pub open spec fn server_view(s: &LspServer) -> (Map<Seq<char>, Seq<char>>, bool) {
    (docs_map(s.spec_documents()), s.spec_shutdown())
}

impl LspServer {
    pub closed spec fn spec_documents(&self) -> Seq<(String, String)> {
        self.documents@
    }

    pub closed spec fn spec_shutdown(&self) -> bool {
        self.shutdown_received
    }

    pub closed spec fn wf(&self) -> bool {
        unique_uris(self.documents@)
    }

    /// A server with no open documents.
    pub fn new() -> (r: LspServer)
        ensures
            r.wf(),
            server_view(&r) == (Map::<Seq<char>, Seq<char>>::empty(), false),
    {
        let r = LspServer { documents: Vec::new(), shutdown_received: false };
        assert(docs_map(r.documents@) =~= Map::<Seq<char>, Seq<char>>::empty());
        r
    }

    fn find(&self, uri: &str) -> (r: Option<usize>)
        ensures
            match r {
                Some(i) => i < self.documents@.len() && self.documents@[i as int].0@ == uri@,
                None => forall|i: int| 0 <= i < self.documents@.len() ==> (#[trigger] self.documents@[i]).0@ != uri@,
            },
    {
        let key = chars_of(uri);
        let mut i: usize = 0;
        while i < self.documents.len()
            invariant
                i <= self.documents@.len(),
                key@ == uri@,
                forall|j: int| 0 <= j < i ==> (#[trigger] self.documents@[j]).0@ != uri@,
            decreases self.documents.len() - i,
        {
            let k = chars_of(self.documents[i].0.as_str());
            if crate::text::chars_eq(&k, &key) {
                return Some(i);
            }
            i += 1;
        }
        None
    }

    /// The text of the open document `uri`.
    pub fn document(&self, uri: &str) -> (r: Option<&String>)
        requires
            self.wf(),
        ensures
            match r {
                Some(t) => docs_map(self.spec_documents()).contains_key(uri@) && docs_map(self.spec_documents())[uri@] == t@,
                None => !docs_map(self.spec_documents()).contains_key(uri@),
            },
    {
        proof { lemma_docs_map_keys(self.documents@, uri@); }
        match self.find(uri) {
            Some(i) => {
                proof { lemma_docs_map_lookup(self.documents@, i as int); }
                Some(&self.documents[i].1)
            },
            None => None,
        }
    }

    fn store(&mut self, uri: String, text: String)
        requires
            old(self).wf(),
        ensures
            final(self).wf(),
            final(self).spec_shutdown() == old(self).spec_shutdown(),
            docs_map(final(self).spec_documents()) == docs_map(old(self).spec_documents()).insert(uri@, text@),
    {
        match self.find(uri.as_str()) {
            Some(i) => {
                let ghost e = (uri, text);
                proof { lemma_docs_map_update(self.documents@, i as int, e); }
                self.documents.set(i, (uri, text));
            },
            None => {
                let ghost v0 = self.documents@;
                self.documents.push((uri, text));
                assert(self.documents@.drop_last() =~= v0);
            },
        }
    }

    fn forget(&mut self, uri: &str)
        requires
            old(self).wf(),
        ensures
            final(self).wf(),
            final(self).spec_shutdown() == old(self).spec_shutdown(),
            docs_map(final(self).spec_documents()) == docs_map(old(self).spec_documents()).remove(uri@),
    {
        proof { lemma_docs_map_keys(self.documents@, uri@); }
        match self.find(uri) {
            Some(i) => {
                proof { lemma_docs_map_remove(self.documents@, i as int); }
                self.documents.remove(i);
            },
            None => {
                assert(docs_map(self.documents@) =~= docs_map(self.documents@).remove(uri@));
            },
        }
    }

    /// Handles one client message: updates the open documents and the
    /// shutdown flag, and says what to send. Documents are stored and
    /// re-published on open and change, forgotten (with their
    /// diagnostics cleared) on close; requests about a position look the
    /// identifier up in the stored text; an unknown request is answered
    /// with method-not-found and an unknown notification is dropped.
    /// After `shutdown`, `exit` still stops the loop, every request is
    /// refused as invalid and every notification is dropped.
    pub fn handle(&mut self, event: LspEvent) -> (r: LspAction)
        requires
            old(self).wf(),
        ensures
            final(self).wf(),
            handle_spec(server_view(old(self)), event, server_view(final(self)), r),
    {
        if self.shutdown_received {
            let refuse = match &event {
                LspEvent::Exit => {
                    return LspAction::Stop;
                },
                LspEvent::Initialize | LspEvent::Shutdown => true,
                LspEvent::Definition(_) | LspEvent::Hover(_) | LspEvent::Completion(_) => true,
                LspEvent::Other { method: _, is_request } => *is_request,
                _ => false,
            };
            if refuse {
                return LspAction::InvalidRequest { message: owned("server has shut down") };
            }
            return LspAction::Nothing;
        }
        match event {
            LspEvent::Initialize => LspAction::ReplyCapabilities,
            LspEvent::Initialized => LspAction::Nothing,
            LspEvent::Shutdown => {
                self.shutdown_received = true;
                LspAction::ReplyNull
            },
            LspEvent::Exit => LspAction::Stop,
            LspEvent::DidOpen(p) | LspEvent::DidChange(p) => match p {
                Some((uri, text)) => {
                    let u2 = owned(uri.as_str());
                    let t2 = owned(text.as_str());
                    self.store(uri, text);
                    LspAction::PublishDiagnostics { uri: u2, text: t2 }
                },
                None => LspAction::Nothing,
            },
            LspEvent::DidClose(p) => match p {
                Some(uri) => {
                    self.forget(uri.as_str());
                    LspAction::ClearDiagnostics { uri }
                },
                None => LspAction::Nothing,
            },
            LspEvent::Definition(p) => self.resolve(p, false),
            LspEvent::Hover(p) => self.resolve(p, true),
            LspEvent::Completion(p) => match p {
                Some(uri) => match self.document(uri.as_str()) {
                    Some(text) => LspAction::Complete { text: owned(text.as_str()) },
                    None => LspAction::ReplyNull,
                },
                None => LspAction::ReplyNull,
            },
            LspEvent::Other { method, is_request } => {
                if is_request {
                    let mut m = owned("method '");
                    push_str(&mut m, method.as_str());
                    push_str(&mut m, "' not implemented");
                    LspAction::MethodNotFound { message: m }
                } else {
                    LspAction::Nothing
                }
            },
            LspEvent::NoMethod => LspAction::Nothing,
        }
    }

    fn resolve(&self, p: Option<(String, u32, u32)>, hover: bool) -> (r: LspAction)
        requires
            self.wf(),
        ensures
            resolve_spec(docs_map(self.spec_documents()), p, hover, r),
    {
        match p {
            Some((uri, line, character)) => match self.document(uri.as_str()) {
                Some(text) => match identifier_at(text.as_str(), line, character) {
                    Some(name) => LspAction::ResolveSymbol { hover, uri, text: owned(text.as_str()), name },
                    None => LspAction::ReplyNull,
                },
                None => LspAction::ReplyNull,
            },
            None => LspAction::ReplyNull,
        }
    }
}

proof fn lemma_docs_map_lookup(v: Seq<(String, String)>, i: int)
    requires
        unique_uris(v),
        0 <= i < v.len(),
    ensures
        docs_map(v).contains_key(v[i].0@),
        docs_map(v)[v[i].0@] == v[i].1@,
    decreases v.len(),
{
    if i < v.len() - 1 {
        assert(v.drop_last()[i] == v[i]);
        lemma_docs_map_lookup(v.drop_last(), i);
        assert(v.last().0@ != v[i].0@);
    }
}

/// The answer to a position request: the identifier under the cursor in
/// the stored text, to be resolved, or `null`.
pub open spec fn resolve_spec(docs: Map<Seq<char>, Seq<char>>, p: Option<(String, u32, u32)>, hover: bool, r: LspAction) -> bool {
    match p {
        Some((uri, line, character)) => {
            if docs.contains_key(uri@) {
                match identifier_at_spec(docs[uri@], line as int, character as int) {
                    Some(name) => r matches LspAction::ResolveSymbol { hover: h, uri: u, text: t, name: n }
                        && h == hover && u@ == uri@ && t@ == docs[uri@] && n@ == name,
                    None => r is ReplyNull,
                }
            } else {
                r is ReplyNull
            }
        },
        None => r is ReplyNull,
    }
}

/// How `handle` moves the state (documents, shutdown flag) and what it
/// answers, message by message.
pub open spec fn handle_spec(
    s: (Map<Seq<char>, Seq<char>>, bool),
    e: LspEvent,
    t: (Map<Seq<char>, Seq<char>>, bool),
    r: LspAction,
) -> bool {
    if s.1 {
        t == s && (if e is Exit {
            r is Stop
        } else if is_request(e) {
            r matches LspAction::InvalidRequest { message: m } && m@ == shut_down_message()
        } else {
            r is Nothing
        })
    } else {
        handle_live_spec(s, e, t, r)
    }
}

/// `handle_spec` before `shutdown`.
pub open spec fn handle_live_spec(
    s: (Map<Seq<char>, Seq<char>>, bool),
    e: LspEvent,
    t: (Map<Seq<char>, Seq<char>>, bool),
    r: LspAction,
) -> bool {
    match e {
        LspEvent::Initialize => t == s && r is ReplyCapabilities,
        LspEvent::Initialized => t == s && r is Nothing,
        LspEvent::Shutdown => t == (s.0, true) && r is ReplyNull,
        LspEvent::Exit => t == s && r is Stop,
        LspEvent::DidOpen(p) | LspEvent::DidChange(p) => match p {
            Some((uri, text)) => t == (s.0.insert(uri@, text@), s.1)
                && (r matches LspAction::PublishDiagnostics { uri: u, text: x } && u@ == uri@ && x@ == text@),
            None => t == s && r is Nothing,
        },
        LspEvent::DidClose(p) => match p {
            Some(uri) => t == (s.0.remove(uri@), s.1) && (r matches LspAction::ClearDiagnostics { uri: u } && u@ == uri@),
            None => t == s && r is Nothing,
        },
        LspEvent::Definition(p) => t == s && resolve_spec(s.0, p, false, r),
        LspEvent::Hover(p) => t == s && resolve_spec(s.0, p, true, r),
        LspEvent::Completion(p) => t == s && (match p {
            Some(uri) => if s.0.contains_key(uri@) {
                r matches LspAction::Complete { text: x } && x@ == s.0[uri@]
            } else {
                r is ReplyNull
            },
            None => r is ReplyNull,
        }),
        LspEvent::Other { method, is_request } => t == s && (if is_request {
            r matches LspAction::MethodNotFound { message: m } && m@ == "method '"@ + method@ + "' not implemented"@
        } else {
            r is Nothing
        }),
        LspEvent::NoMethod => t == s && r is Nothing,
    }
}

/// What a client writes with open or change is what later requests read:
/// the stored text of the uri is the one just sent, and no other
/// document changes.
pub proof fn law_lsp_document_read_back(
    s: (Map<Seq<char>, Seq<char>>, bool),
    uri: String,
    text: String,
    t: (Map<Seq<char>, Seq<char>>, bool),
    r: LspAction,
    other: Seq<char>,
)
    requires
        !s.1,
        handle_spec(s, LspEvent::DidChange(Some((uri, text))), t, r),
        other != uri@,
    ensures
        t.0.contains_key(uri@) && t.0[uri@] == text@,
        t.0.contains_key(other) == s.0.contains_key(other),
        s.0.contains_key(other) ==> t.0[other] == s.0[other],
{
}

/// A closed document is gone: requests about it answer `null`.
pub proof fn law_lsp_closed_document_is_forgotten(
    s: (Map<Seq<char>, Seq<char>>, bool),
    uri: String,
    t: (Map<Seq<char>, Seq<char>>, bool),
    r: LspAction,
    t2: (Map<Seq<char>, Seq<char>>, bool),
    r2: LspAction,
)
    requires
        !s.1,
        handle_spec(s, LspEvent::DidClose(Some(uri)), t, r),
        handle_spec(t, LspEvent::Completion(Some(uri)), t2, r2),
    ensures
        !t.0.contains_key(uri@),
        r2 is ReplyNull,
{
}

/// Once `shutdown` was received nothing changes the open documents any
/// more: each request is refused as invalid, each notification but
/// `exit` is dropped, and `exit` stops the loop.
pub proof fn law_lsp_nothing_changes_after_shutdown(
    s: (Map<Seq<char>, Seq<char>>, bool),
    e: LspEvent,
    t: (Map<Seq<char>, Seq<char>>, bool),
    r: LspAction,
)
    requires
        s.1,
        handle_spec(s, e, t, r),
    ensures
        t == s,
        is_request(e) ==> r is InvalidRequest,
        !is_request(e) && !(e is Exit) ==> r is Nothing,
        e is Exit ==> r is Stop,
{
}

// ---------------------------------------------------------------------------
// The symbol index of a program
// ---------------------------------------------------------------------------

/// A symbol as (name, kind, line, column).
pub type SymbolView = (Seq<char>, SymbolKind, int, int);

pub open spec fn symbol_view(s: Symbol) -> SymbolView {
    (s.name@, s.kind, s.line as int, s.col as int)
}

pub open spec fn symbols_view(v: Seq<Symbol>) -> Seq<SymbolView> {
    v.map_values(|s: Symbol| symbol_view(s))
}

pub open spec fn decl_symbol_kind(k: DeclKind) -> SymbolKind {
    match k {
        DeclKind::Entity => SymbolKind::Entity,
        DeclKind::Item => SymbolKind::Item,
        DeclKind::Modifier => SymbolKind::Modifier,
        DeclKind::Inventory => SymbolKind::Inventory,
        DeclKind::Scene => SymbolKind::Scene,
        DeclKind::Particles => SymbolKind::Particles,
        DeclKind::Visual => SymbolKind::Visual,
    }
}

/// The declaration sites in a statement, in source order: a `let`, a
/// function (its body is not entered), a declaration with its members;
/// the bodies of `if` (all branches), `while`, `for` and `on update` are
/// walked. Other statements declare nothing that can be looked up.
pub open spec fn stmt_symbols(s: Stmt) -> Seq<SymbolView>
    decreases s, 0int,
{
    match s {
        Stmt::Let { name, line, col, .. } => seq![(name@, SymbolKind::Let, line as int, col as int)],
        Stmt::FunctionDecl { name, line, col, .. } => seq![(name@, SymbolKind::Function, line as int, col as int)],
        Stmt::Decl { kind, name, members, line, col, .. } => seq![(name@, decl_symbol_kind(kind), line as int, col as int)]
            + members_symbols(members@),
        Stmt::If { then_body, elifs, else_body, .. } => stmts_symbols(then_body@) + arms_symbols(elifs@) + match else_body {
            Some(eb) => stmts_symbols(eb@),
            None => Seq::empty(),
        },
        Stmt::While { body, .. } => stmts_symbols(body@),
        Stmt::For { body, .. } => stmts_symbols(body@),
        Stmt::OnUpdate { body, .. } => stmts_symbols(body@),
        _ => Seq::empty(),
    }
}

pub open spec fn stmts_symbols(ss: Seq<Stmt>) -> Seq<SymbolView>
    decreases ss, 0int,
{
    if ss.len() == 0 {
        Seq::empty()
    } else {
        stmts_symbols(ss.drop_last()) + stmt_symbols(ss[ss.len() - 1])
    }
}

pub open spec fn arms_symbols(arms: Seq<(Expr, Vec<Stmt>)>) -> Seq<SymbolView>
    decreases arms, 0int,
{
    if arms.len() == 0 {
        Seq::empty()
    } else {
        arms_symbols(arms.drop_last()) + stmts_symbols(arms[arms.len() - 1].1@)
    }
}

pub open spec fn members_symbols(ms: Seq<DeclMember>) -> Seq<SymbolView>
    decreases ms, 0int,
{
    if ms.len() == 0 {
        Seq::empty()
    } else {
        members_symbols(ms.drop_last()) + member_symbols(ms[ms.len() - 1])
    }
}

/// A member's own name, then what its body declares.
pub open spec fn member_symbols(m: DeclMember) -> Seq<SymbolView>
    decreases m, 0int,
{
    match m {
        DeclMember::Field { name, line, col, .. } => seq![(name@, SymbolKind::Field, line as int, col as int)],
        DeclMember::Method { name, body, line, col, .. } => seq![(name@, SymbolKind::Method, line as int, col as int)]
            + stmts_symbols(body@),
        DeclMember::InitialState { name, line, col } => seq![
            (name@, SymbolKind::InitialState, line as int, col as int),
        ],
        DeclMember::State { name, members, line, col } => seq![(name@, SymbolKind::State, line as int, col as int)]
            + state_members_symbols(members@),
    }
}

pub open spec fn state_members_symbols(ms: Seq<StateMember>) -> Seq<SymbolView>
    decreases ms, 0int,
{
    if ms.len() == 0 {
        Seq::empty()
    } else {
        state_members_symbols(ms.drop_last()) + state_member_symbols(ms[ms.len() - 1])
    }
}

pub open spec fn state_member_symbols(m: StateMember) -> Seq<SymbolView>
    decreases m, 0int,
{
    match m {
        StateMember::Stmt(s) => stmt_symbols(s),
        StateMember::Every { body, .. } => stmts_symbols(body@),
        StateMember::OnRender { body, .. } => stmts_symbols(body@),
        StateMember::OnKeyPress { body, .. } => stmts_symbols(body@),
        StateMember::OnUpdate { body, .. } => stmts_symbols(body@),
        StateMember::OnPredicate { body, .. } => stmts_symbols(body@),
    }
}

/// The symbols of statements in sequence are those of each statement, in
/// source order: what one statement declares does not depend on its
/// neighbours, and nothing is reordered or dropped.
pub proof fn law_symbols_in_source_order(a: Seq<Stmt>, b: Seq<Stmt>)
    ensures
        stmts_symbols(a + b) == stmts_symbols(a) + stmts_symbols(b),
    decreases b.len(),
{
    if b.len() == 0 {
        assert(a + b =~= a);
    } else {
        assert((a + b).drop_last() =~= a + b.drop_last());
        assert((a + b)[(a + b).len() - 1] == b[b.len() - 1]);
        law_symbols_in_source_order(a, b.drop_last());
    }
}

/// Every declaration inside the body of a `for`, `while` or `on update`,
/// and inside every branch of an `if`, is indexed, in order: such a
/// statement declares exactly what its bodies declare. A `let`, a
/// function and a declaration index their own name at their own
/// position first.
pub proof fn law_nested_declarations_are_indexed(s: Stmt)
    ensures
        s is For ==> stmt_symbols(s) == stmts_symbols(s->For_body@),
        s is While ==> stmt_symbols(s) == stmts_symbols(s->While_body@),
        s is OnUpdate ==> stmt_symbols(s) == stmts_symbols(s->OnUpdate_body@),
        s is If ==> stmt_symbols(s) == stmts_symbols(s->If_then_body@) + arms_symbols(s->elifs@) + match s->else_body {
            Some(eb) => stmts_symbols(eb@),
            None => Seq::empty(),
        },
        s is Let ==> stmt_symbols(s) == seq![(s->Let_name@, SymbolKind::Let, s->Let_line as int, s->Let_col as int)],
        s is FunctionDecl ==> stmt_symbols(s) == seq![
            (s->FunctionDecl_name@, SymbolKind::Function, s->FunctionDecl_line as int, s->FunctionDecl_col as int),
        ],
        s is Decl ==> stmt_symbols(s)[0] == (s->Decl_name@, decl_symbol_kind(s->kind), s->Decl_line as int, s->Decl_col as int),
{
}

/// Every declaration site of a program a name can be resolved to, in
/// source order: top-level and nested `let`s and functions, each
/// declaration and its fields, methods, states and initial state. The
/// bodies of functions are not entered.
pub fn collect_symbols(program: &Program) -> (r: Vec<Symbol>)
    ensures
        symbols_view(r@) == stmts_symbols(program@),
{
    let mut out: Vec<Symbol> = Vec::new();
    assert(symbols_view(out@) =~= Seq::<SymbolView>::empty());
    collect_from_stmts(&program.stmts, &mut out);
    assert(symbols_view(out@) =~= Seq::<SymbolView>::empty() + stmts_symbols(program@));
    out
}

fn push_symbol(out: &mut Vec<Symbol>, name: &String, kind: SymbolKind, line: u32, col: u32)
    ensures
        symbols_view(final(out)@) == symbols_view(old(out)@) + seq![(name@, kind, line as int, col as int)],
{
    out.push(Symbol { name: owned(name.as_str()), kind, line, col });
    assert(symbols_view(out@) =~= symbols_view(old(out)@) + seq![(name@, kind, line as int, col as int)]);
}

fn decl_kind_symbol(k: DeclKind) -> (r: SymbolKind)
    ensures
        r == decl_symbol_kind(k),
{
    match k {
        DeclKind::Entity => SymbolKind::Entity,
        DeclKind::Item => SymbolKind::Item,
        DeclKind::Modifier => SymbolKind::Modifier,
        DeclKind::Inventory => SymbolKind::Inventory,
        DeclKind::Scene => SymbolKind::Scene,
        DeclKind::Particles => SymbolKind::Particles,
        DeclKind::Visual => SymbolKind::Visual,
    }
}

fn collect_from_stmt(s: &Stmt, out: &mut Vec<Symbol>)
    ensures
        symbols_view(final(out)@) == symbols_view(old(out)@) + stmt_symbols(*s),
    decreases s, 1int,
{
    let ghost o0 = symbols_view(out@);
    match s {
        Stmt::Let { name, line, col, .. } => push_symbol(out, name, SymbolKind::Let, *line, *col),
        Stmt::FunctionDecl { name, line, col, .. } => push_symbol(out, name, SymbolKind::Function, *line, *col),
        Stmt::Decl { kind, name, members, line, col, .. } => {
            push_symbol(out, name, decl_kind_symbol(*kind), *line, *col);
            collect_from_members(members, out);
        },
        Stmt::If { then_body, elifs, else_body, .. } => {
            collect_from_stmts(then_body, out);
            collect_from_arms(elifs, out);
            match else_body {
                Some(eb) => collect_from_stmts(eb, out),
                None => {},
            }
        },
        Stmt::While { body, .. } => collect_from_stmts(body, out),
        Stmt::For { body, .. } => collect_from_stmts(body, out),
        Stmt::OnUpdate { body, .. } => collect_from_stmts(body, out),
        _ => {},
    }
    assert(symbols_view(out@) =~= o0 + stmt_symbols(*s));
}

fn collect_from_arms(arms: &Vec<(Expr, Vec<Stmt>)>, out: &mut Vec<Symbol>)
    ensures
        symbols_view(final(out)@) == symbols_view(old(out)@) + arms_symbols(arms@),
    decreases arms@, 0int,
{
    let ghost o1 = symbols_view(out@);
    let mut i: usize = 0;
    assert(o1 =~= o1 + arms_symbols(arms@.subrange(0, 0)));
    while i < arms.len()
        invariant
            i <= arms@.len(),
            symbols_view(out@) == o1 + arms_symbols(arms@.subrange(0, i as int)),
        decreases arms.len() - i,
    {
        let ghost sub = arms@.subrange(0, i + 1);
        assert(sub.drop_last() =~= arms@.subrange(0, i as int));
        assert(sub[sub.len() - 1] == arms@[i as int]);
        collect_from_stmts(&arms[i].1, out);
        assert(symbols_view(out@) =~= o1 + arms_symbols(sub));
        i += 1;
    }
    assert(arms@.subrange(0, arms@.len() as int) =~= arms@);
}

fn collect_from_stmts(ss: &Vec<Stmt>, out: &mut Vec<Symbol>)
    ensures
        symbols_view(final(out)@) == symbols_view(old(out)@) + stmts_symbols(ss@),
    decreases ss@, 0int,
{
    let ghost o0 = symbols_view(out@);
    let mut i: usize = 0;
    assert(o0 =~= o0 + stmts_symbols(ss@.subrange(0, 0)));
    while i < ss.len()
        invariant
            i <= ss@.len(),
            symbols_view(out@) == o0 + stmts_symbols(ss@.subrange(0, i as int)),
        decreases ss.len() - i,
    {
        let ghost sub = ss@.subrange(0, i + 1);
        assert(sub.drop_last() =~= ss@.subrange(0, i as int));
        assert(sub[sub.len() - 1] == ss@[i as int]);
        collect_from_stmt(&ss[i], out);
        assert(symbols_view(out@) =~= o0 + stmts_symbols(sub));
        i += 1;
    }
    assert(ss@.subrange(0, ss@.len() as int) =~= ss@);
}

fn collect_from_members(ms: &Vec<DeclMember>, out: &mut Vec<Symbol>)
    ensures
        symbols_view(final(out)@) == symbols_view(old(out)@) + members_symbols(ms@),
    decreases ms@, 0int,
{
    let ghost o0 = symbols_view(out@);
    let mut i: usize = 0;
    assert(o0 =~= o0 + members_symbols(ms@.subrange(0, 0)));
    while i < ms.len()
        invariant
            i <= ms@.len(),
            symbols_view(out@) == o0 + members_symbols(ms@.subrange(0, i as int)),
        decreases ms.len() - i,
    {
        let ghost sub = ms@.subrange(0, i + 1);
        assert(sub.drop_last() =~= ms@.subrange(0, i as int));
        assert(sub[sub.len() - 1] == ms@[i as int]);
        let ghost before = symbols_view(out@);
        match &ms[i] {
            DeclMember::Field { name, line, col, .. } => push_symbol(out, name, SymbolKind::Field, *line, *col),
            DeclMember::Method { name, body, line, col, .. } => {
                push_symbol(out, name, SymbolKind::Method, *line, *col);
                collect_from_stmts(body, out);
            },
            DeclMember::InitialState { name, line, col } => push_symbol(
                out,
                name,
                SymbolKind::InitialState,
                *line,
                *col,
            ),
            DeclMember::State { name, members, line, col } => {
                push_symbol(out, name, SymbolKind::State, *line, *col);
                collect_from_state_members(members, out);
            },
        }
        assert(symbols_view(out@) =~= before + member_symbols(ms@[i as int]));
        assert(symbols_view(out@) =~= o0 + members_symbols(sub));
        i += 1;
    }
    assert(ms@.subrange(0, ms@.len() as int) =~= ms@);
}

fn collect_from_state_members(ms: &Vec<StateMember>, out: &mut Vec<Symbol>)
    ensures
        symbols_view(final(out)@) == symbols_view(old(out)@) + state_members_symbols(ms@),
    decreases ms@, 0int,
{
    let ghost o0 = symbols_view(out@);
    let mut i: usize = 0;
    assert(o0 =~= o0 + state_members_symbols(ms@.subrange(0, 0)));
    while i < ms.len()
        invariant
            i <= ms@.len(),
            symbols_view(out@) == o0 + state_members_symbols(ms@.subrange(0, i as int)),
        decreases ms.len() - i,
    {
        let ghost sub = ms@.subrange(0, i + 1);
        assert(sub.drop_last() =~= ms@.subrange(0, i as int));
        assert(sub[sub.len() - 1] == ms@[i as int]);
        let ghost before = symbols_view(out@);
        match &ms[i] {
            StateMember::Stmt(s) => collect_from_stmt(s, out),
            StateMember::Every { body, .. } => collect_from_stmts(body, out),
            StateMember::OnRender { body, .. } => collect_from_stmts(body, out),
            StateMember::OnKeyPress { body, .. } => collect_from_stmts(body, out),
            StateMember::OnUpdate { body, .. } => collect_from_stmts(body, out),
            StateMember::OnPredicate { body, .. } => collect_from_stmts(body, out),
        }
        assert(symbols_view(out@) =~= before + state_member_symbols(ms@[i as int]));
        assert(symbols_view(out@) =~= o0 + state_members_symbols(sub));
        i += 1;
    }
    assert(ms@.subrange(0, ms@.len() as int) =~= ms@);
}

// ---------------------------------------------------------------------------
// Completion
// ---------------------------------------------------------------------------

/// One completion item: its label, its kind, and a detail line when
/// there is one.
pub struct CompletionItem {
    pub label: String,
    pub kind: i64,
    pub detail: Option<String>,
}

/// A global the runtime's standard library binds: a function, or a
/// namespace object with its members.
pub enum Builtin {
    Function(String),
    Namespace(String, Vec<String>),
}

pub type ItemView = (Seq<char>, i64, Option<Seq<char>>);

pub open spec fn item_view(c: CompletionItem) -> ItemView {
    (c.label@, c.kind, match c.detail {
        Some(d) => Some(d@),
        None => None,
    })
}

pub open spec fn items_view(v: Seq<CompletionItem>) -> Seq<ItemView> {
    v.map_values(|c: CompletionItem| item_view(c))
}

/// The language's keywords, with `true` and `false`.
pub open spec fn twe_keywords() -> Seq<Seq<char>> {
    seq![
        "and"@,
        "break"@,
        "continue"@,
        "despawn"@,
        "elif"@,
        "else"@,
        "entity"@,
        "every"@,
        "extends"@,
        "false"@,
        "for"@,
        "function"@,
        "if"@,
        "import"@,
        "in"@,
        "initial"@,
        "inventory"@,
        "item"@,
        "let"@,
        "modifier"@,
        "not"@,
        "on"@,
        "or"@,
        "particles"@,
        "render"@,
        "return"@,
        "scene"@,
        "self"@,
        "spawn"@,
        "state"@,
        "true"@,
        "update"@,
        "var"@,
        "while"@,
    ]
}

pub open spec fn keyword_items() -> Seq<ItemView> {
    twe_keywords().map_values(|k: Seq<char>| (k, COMPLETION_KEYWORD, None::<Seq<char>>))
}

/// The type text `types` gives for `name` (the first entry for it).
pub open spec fn type_of(types: Seq<(String, String)>, name: Seq<char>) -> Option<Seq<char>>
    decreases types.len(),
{
    if types.len() == 0 {
        None
    } else if types[0].0@ == name {
        Some(types[0].1@)
    } else {
        type_of(types.drop_first(), name)
    }
}

/// One item per symbol: its name, its kind's completion kind, and its
/// inferred type as the detail when it is known.
pub open spec fn symbol_items(syms: Seq<SymbolView>, types: Seq<(String, String)>) -> Seq<ItemView> {
    syms.map_values(|s: SymbolView| (s.0, completion_kind_of(s.1), type_of(types, s.0)))
}

pub open spec fn builtin_items_of(b: Builtin) -> Seq<ItemView> {
    match b {
        Builtin::Function(n) => seq![(n@, COMPLETION_FUNCTION, None::<Seq<char>>)],
        Builtin::Namespace(n, fields) => seq![(n@, COMPLETION_VARIABLE, None::<Seq<char>>)] + fields@.map_values(
            |f: String| (n@ + "."@ + f@, COMPLETION_FUNCTION, None::<Seq<char>>),
        ),
    }
}

/// A function is offered under its name; a namespace under its name and
/// under `name.member` for each member.
pub open spec fn builtin_items(bs: Seq<Builtin>) -> Seq<ItemView>
    decreases bs.len(),
{
    if bs.len() == 0 {
        Seq::empty()
    } else {
        builtin_items(bs.drop_last()) + builtin_items_of(bs.last())
    }
}

/// The completion list of a document: the symbols of its program when
/// it parsed (`None` when it did not), with the types in `types` (the
/// known inferred type of each name) as details; then every keyword;
/// then the standard library's globals in the order given.
pub open spec fn completions_spec(program: Option<Seq<Stmt>>, types: Seq<(String, String)>, builtins: Seq<Builtin>) -> Seq<ItemView> {
    let user = match program {
        Some(p) => symbol_items(stmts_symbols(p), types),
        None => Seq::empty(),
    };
    user + keyword_items() + builtin_items(builtins)
}

fn push_item(items: &mut Vec<CompletionItem>, label: String, kind: i64, detail: Option<String>)
    ensures
        items_view(final(items)@) == items_view(old(items)@).push(item_view(CompletionItem { label, kind, detail })),
{
    items.push(CompletionItem { label, kind, detail });
    assert(items_view(items@) =~= items_view(old(items)@).push(item_view(CompletionItem { label, kind, detail })));
}

fn push_keyword(items: &mut Vec<CompletionItem>, k: &str)
    ensures
        items_view(final(items)@) == items_view(old(items)@).push((k@, COMPLETION_KEYWORD, None::<Seq<char>>)),
{
    push_item(items, owned(k), COMPLETION_KEYWORD, None);
}

#[verifier::rlimit(60)]
fn push_keywords(items: &mut Vec<CompletionItem>)
    ensures
        items_view(final(items)@) == items_view(old(items)@) + keyword_items(),
{
    let ghost o0 = items_view(items@);
    push_keyword(items, "and");
    push_keyword(items, "break");
    push_keyword(items, "continue");
    push_keyword(items, "despawn");
    push_keyword(items, "elif");
    push_keyword(items, "else");
    push_keyword(items, "entity");
    push_keyword(items, "every");
    push_keyword(items, "extends");
    push_keyword(items, "false");
    push_keyword(items, "for");
    push_keyword(items, "function");
    push_keyword(items, "if");
    push_keyword(items, "import");
    push_keyword(items, "in");
    push_keyword(items, "initial");
    push_keyword(items, "inventory");
    push_keyword(items, "item");
    push_keyword(items, "let");
    push_keyword(items, "modifier");
    push_keyword(items, "not");
    push_keyword(items, "on");
    push_keyword(items, "or");
    push_keyword(items, "particles");
    push_keyword(items, "render");
    push_keyword(items, "return");
    push_keyword(items, "scene");
    push_keyword(items, "self");
    push_keyword(items, "spawn");
    push_keyword(items, "state");
    push_keyword(items, "true");
    push_keyword(items, "update");
    push_keyword(items, "var");
    push_keyword(items, "while");
    assert(items_view(items@) =~= o0 + keyword_items());
}

fn lookup_type(types: &Vec<(String, String)>, name: &String) -> (r: Option<String>)
    ensures
        match r {
            Some(t) => type_of(types@, name@) == Some(t@),
            None => type_of(types@, name@) is None,
        },
{
    let mut i: usize = 0;
    assert(types@.skip(0) =~= types@);
    while i < types.len()
        invariant
            i <= types@.len(),
            type_of(types@, name@) == type_of(types@.skip(i as int), name@),
        decreases types.len() - i,
    {
        assert(types@.skip(i as int).drop_first() =~= types@.skip(i + 1));
        assert(types@.skip(i as int)[0] == types@[i as int]);
        if same_text(&types[i].0, name) {
            return Some(owned(types[i].1.as_str()));
        }
        i += 1;
    }
    None
}

fn same_text(a: &String, b: &String) -> (r: bool)
    ensures
        r == (a@ == b@),
{
    let x = chars_of(a.as_str());
    let y = chars_of(b.as_str());
    crate::text::chars_eq(&x, &y)
}

/// The completion list: see [`completions_spec`].
pub fn compute_completions(program: Option<&Program>, types: &Vec<(String, String)>, builtins: &Vec<Builtin>) -> (r: Vec<CompletionItem>)
    ensures
        items_view(r@) == completions_spec(
            match program {
                Some(p) => Some(p@),
                None => None,
            },
            types@,
            builtins@,
        ),
{
    let mut items: Vec<CompletionItem> = Vec::new();
    let ghost user: Seq<ItemView> = match program {
        Some(p) => symbol_items(stmts_symbols(p@), types@),
        None => Seq::empty(),
    };
    assert(items_view(items@) =~= Seq::<ItemView>::empty());
    match program {
        Some(p) => {
            let syms = collect_symbols(p);
            let mut i: usize = 0;
            while i < syms.len()
                invariant
                    i <= syms@.len(),
                    symbols_view(syms@) == stmts_symbols(p@),
                    items_view(items@) == symbol_items(symbols_view(syms@).subrange(0, i as int), types@),
                decreases syms.len() - i,
            {
                let s = &syms[i];
                let detail = lookup_type(types, &s.name);
                let ghost before = items_view(items@);
                push_item(&mut items, owned(s.name.as_str()), symbol_kind_to_completion_kind(s.kind), detail);
                assert(symbols_view(syms@)[i as int] == symbol_view(syms@[i as int]));
                assert(items_view(items@) =~= symbol_items(symbols_view(syms@).subrange(0, i + 1), types@));
                i += 1;
            }
            assert(symbols_view(syms@).subrange(0, syms@.len() as int) =~= symbols_view(syms@));
        },
        None => {},
    }
    assert(items_view(items@) == user);
    push_keywords(&mut items);
    let ghost mid = items_view(items@);
    let mut k: usize = 0;
    assert(builtins@.subrange(0, 0) =~= Seq::<Builtin>::empty());
    while k < builtins.len()
        invariant
            k <= builtins@.len(),
            items_view(items@) == mid + builtin_items(builtins@.subrange(0, k as int)),
        decreases builtins.len() - k,
    {
        let ghost sub = builtins@.subrange(0, k + 1);
        assert(sub.drop_last() =~= builtins@.subrange(0, k as int));
        let ghost before = items_view(items@);
        match &builtins[k] {
            Builtin::Function(n) => {
                push_item(&mut items, owned(n.as_str()), COMPLETION_FUNCTION, None);
            },
            Builtin::Namespace(n, fields) => {
                push_item(&mut items, owned(n.as_str()), COMPLETION_VARIABLE, None);
                let ghost b1 = items_view(items@);
                let mut j: usize = 0;
                while j < fields.len()
                    invariant
                        j <= fields@.len(),
                        items_view(items@) == b1 + fields@.subrange(0, j as int).map_values(
                            |f: String| (n@ + "."@ + f@, COMPLETION_FUNCTION, None::<Seq<char>>),
                        ),
                    decreases fields.len() - j,
                {
                    let mut label = owned(n.as_str());
                    push_str(&mut label, ".");
                    push_str(&mut label, fields[j].as_str());
                    push_item(&mut items, label, COMPLETION_FUNCTION, None);
                    assert(fields@.subrange(0, j + 1).map_values(
                        |f: String| (n@ + "."@ + f@, COMPLETION_FUNCTION, None::<Seq<char>>),
                    ) =~= fields@.subrange(0, j as int).map_values(
                        |f: String| (n@ + "."@ + f@, COMPLETION_FUNCTION, None::<Seq<char>>),
                    ).push((n@ + "."@ + fields@[j as int]@, COMPLETION_FUNCTION, None::<Seq<char>>)));
                    assert(items_view(items@) =~= b1 + fields@.subrange(0, j + 1).map_values(
                        |f: String| (n@ + "."@ + f@, COMPLETION_FUNCTION, None::<Seq<char>>),
                    ));
                    j += 1;
                }
                assert(fields@.subrange(0, fields@.len() as int) =~= fields@);
            },
        }
        assert(sub.last() == builtins@[k as int]);
        assert(items_view(items@) =~= before + builtin_items_of(builtins@[k as int]));
        assert(items_view(items@) =~= mid + builtin_items(sub));
        k += 1;
    }
    assert(builtins@.subrange(0, builtins@.len() as int) =~= builtins@);
    items
}

} // verus!
