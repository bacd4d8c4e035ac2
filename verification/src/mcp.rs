//! Model Context Protocol server: the decisions of the message handler,
//! the tool table, and the application of structured text patches.
//!
//! The transport (one JSON-RPC message per line) decodes each message
//! into an `McpMessage` and encodes the `McpReply` this module chooses.
use vstd::prelude::*;
use crate::text::{chars_of, owned, push_str, starts_with};
use crate::ast::Program;
use crate::printer::{newline_count, print_program_with_trivia, trivia_of};
use crate::stmt_printer::program_text_with_trivia;

verus! {

pub const PROTOCOL_VERSION: &'static str = "2024-11-05";
pub const SERVER_NAME: &'static str = "twec-mcp";

/// JSON-RPC error codes.
pub const PARSE_ERROR: i64 = -32700;
pub const METHOD_NOT_FOUND: i64 = -32601;
pub const INVALID_PARAMS: i64 = -32602;

/// A decoded line.
pub enum McpMessage {
    /// The line is not JSON; the decoder's error text.
    Malformed(String),
    /// A message: its method (empty when absent) and whether it has no id.
    Call { method: String, is_notification: bool },
}

/// What to answer.
pub enum McpReply {
    /// No reply (notifications).
    Silent,
    /// An error response with code and message.
    Error { code: i64, message: String },
    /// The `initialize` result.
    ServerInfo,
    /// A `null` result.
    Null,
    /// The tool table: [`tool_table`].
    ToolList,
    /// Run the call's tool and reply with its result.
    CallTool,
}

/// The server's flags.
pub struct McpHandler {
    pub initialised: bool,
    pub shutdown_received: bool,
    pub should_exit: bool,
}

impl McpHandler {
    pub fn new() -> (r: McpHandler)
        ensures
            !r.initialised && !r.shutdown_received && !r.should_exit,
    {
        McpHandler { initialised: false, shutdown_received: false, should_exit: false }
    }

    /// Whether the client has sent `exit`.
    pub fn should_exit(&self) -> (r: bool)
        ensures
            r == self.should_exit,
    {
        self.should_exit
    }

    /// Whether the serving loop stops after this message: the server
    /// serves until end of input or until the client sends `shutdown`
    /// (or `exit`).
    pub fn serve_stops(&self) -> (r: bool)
        ensures
            r == (self.should_exit || self.shutdown_received),
    {
        self.should_exit || self.shutdown_received
    }

    /// Handles one line. Malformed input gets a parse error; `initialize`
    /// marks the server initialised and returns its info; the initialized
    /// notification marks it initialised and is not answered; `shutdown`
    /// is acknowledged with `null`; `exit` asks the loop to stop; tool
    /// listing and calls are answered; any other method gets
    /// method-not-found when it is a request and nothing when it is a
    /// notification.
    pub fn handle(&mut self, msg: McpMessage) -> (r: McpReply)
        ensures
            match msg {
                McpMessage::Malformed(e) => *final(self) == *old(self) && (r matches McpReply::Error { code, message }
                    && code == PARSE_ERROR && message@ == "parse error: "@ + e@),
                McpMessage::Call { method, is_notification } => {
                    if method@ == "initialize"@ {
                        final(self).initialised && final(self).shutdown_received == old(self).shutdown_received
                            && final(self).should_exit == old(self).should_exit && r is ServerInfo
                    } else if method@ == "initialized"@ || method@ == "notifications/initialized"@ {
                        final(self).initialised && final(self).shutdown_received == old(self).shutdown_received
                            && final(self).should_exit == old(self).should_exit && r is Silent
                    } else if method@ == "shutdown"@ {
                        final(self).shutdown_received && final(self).initialised == old(self).initialised
                            && final(self).should_exit == old(self).should_exit && r is Null
                    } else if method@ == "exit"@ {
                        final(self).should_exit && final(self).initialised == old(self).initialised
                            && final(self).shutdown_received == old(self).shutdown_received && r is Silent
                    } else if method@ == "tools/list"@ {
                        *final(self) == *old(self) && r is ToolList
                    } else if method@ == "tools/call"@ {
                        *final(self) == *old(self) && r is CallTool
                    } else if is_notification {
                        *final(self) == *old(self) && r is Silent
                    } else {
                        *final(self) == *old(self) && (r matches McpReply::Error { code, message } && code
                            == METHOD_NOT_FOUND && message@ == "method not found: "@ + method@)
                    }
                },
            },
    {
        match msg {
            McpMessage::Malformed(e) => {
                let mut m = owned("parse error: ");
                push_str(&mut m, e.as_str());
                McpReply::Error { code: PARSE_ERROR, message: m }
            },
            McpMessage::Call { method, is_notification } => {
                let v = chars_of(method.as_str());
                if same(&v, "initialize") {
                    self.initialised = true;
                    McpReply::ServerInfo
                } else if same(&v, "initialized") || same(&v, "notifications/initialized") {
                    self.initialised = true;
                    McpReply::Silent
                } else if same(&v, "shutdown") {
                    self.shutdown_received = true;
                    McpReply::Null
                } else if same(&v, "exit") {
                    self.should_exit = true;
                    McpReply::Silent
                } else if same(&v, "tools/list") {
                    McpReply::ToolList
                } else if same(&v, "tools/call") {
                    McpReply::CallTool
                } else if is_notification {
                    McpReply::Silent
                } else {
                    let mut m = owned("method not found: ");
                    push_str(&mut m, method.as_str());
                    McpReply::Error { code: METHOD_NOT_FOUND, message: m }
                }
            },
        }
    }
}

fn same(v: &Vec<char>, s: &str) -> (r: bool)
    ensures
        r == (v@ == s@),
{
    let w = chars_of(s);
    crate::text::chars_eq(v, &w)
}

// ---------------------------------------------------------------------------
// Tools
// ---------------------------------------------------------------------------

/// The tools the server offers.
#[derive(Clone, Copy, Debug, PartialEq, Eq)]
pub enum Tool {
    Parse,
    Verify,
    Format,
    Grammar,
    StdlibList,
    StdlibLookup,
    ApplyPatch,
}

pub open spec fn tool_named(name: Seq<char>) -> Option<Tool> {
    if name == "parse"@ {
        Some(Tool::Parse)
    } else if name == "verify"@ {
        Some(Tool::Verify)
    } else if name == "format"@ {
        Some(Tool::Format)
    } else if name == "grammar"@ {
        Some(Tool::Grammar)
    } else if name == "stdlib_list"@ {
        Some(Tool::StdlibList)
    } else if name == "stdlib_lookup"@ {
        Some(Tool::StdlibLookup)
    } else if name == "apply_patch"@ {
        Some(Tool::ApplyPatch)
    } else {
        None
    }
}

/// A tool's position in the declaration of [`Tool`].
pub open spec fn tool_position(t: Tool) -> int {
    match t {
        Tool::Parse => 0,
        Tool::Verify => 1,
        Tool::Format => 2,
        Tool::Grammar => 3,
        Tool::StdlibList => 4,
        Tool::StdlibLookup => 5,
        Tool::ApplyPatch => 6,
    }
}

proof fn lemma_tool_names()
    ensures
        tool_named("parse"@) == Some(Tool::Parse),
        tool_named("verify"@) == Some(Tool::Verify),
        tool_named("format"@) == Some(Tool::Format),
        tool_named("grammar"@) == Some(Tool::Grammar),
        tool_named("stdlib_list"@) == Some(Tool::StdlibList),
        tool_named("stdlib_lookup"@) == Some(Tool::StdlibLookup),
        tool_named("apply_patch"@) == Some(Tool::ApplyPatch),
{
    reveal_strlit("parse");
    reveal_strlit("verify");
    reveal_strlit("format");
    reveal_strlit("grammar");
    reveal_strlit("stdlib_list");
    reveal_strlit("stdlib_lookup");
    reveal_strlit("apply_patch");
    assert(tool_named("parse"@) == Some(Tool::Parse));
    assert("verify"@ != "parse"@) by { assert("verify"@[0] != "parse"@[0]); }
    assert(tool_named("verify"@) == Some(Tool::Verify));
    assert("format"@ != "parse"@) by { assert("format"@[0] != "parse"@[0]); }
    assert("format"@ != "verify"@) by { assert("format"@[0] != "verify"@[0]); }
    assert(tool_named("format"@) == Some(Tool::Format));
    assert("grammar"@ != "parse"@) by { assert("grammar"@[0] != "parse"@[0]); }
    assert("grammar"@ != "verify"@) by { assert("grammar"@[0] != "verify"@[0]); }
    assert("grammar"@ != "format"@) by { assert("grammar"@[0] != "format"@[0]); }
    assert(tool_named("grammar"@) == Some(Tool::Grammar));
    assert("stdlib_list"@ != "parse"@) by { assert("stdlib_list"@[0] != "parse"@[0]); }
    assert("stdlib_list"@ != "verify"@) by { assert("stdlib_list"@[0] != "verify"@[0]); }
    assert("stdlib_list"@ != "format"@) by { assert("stdlib_list"@[0] != "format"@[0]); }
    assert("stdlib_list"@ != "grammar"@) by { assert("stdlib_list"@[0] != "grammar"@[0]); }
    assert(tool_named("stdlib_list"@) == Some(Tool::StdlibList));
    assert("stdlib_lookup"@ != "parse"@) by { assert("stdlib_lookup"@[0] != "parse"@[0]); }
    assert("stdlib_lookup"@ != "verify"@) by { assert("stdlib_lookup"@[0] != "verify"@[0]); }
    assert("stdlib_lookup"@ != "format"@) by { assert("stdlib_lookup"@[0] != "format"@[0]); }
    assert("stdlib_lookup"@ != "grammar"@) by { assert("stdlib_lookup"@[0] != "grammar"@[0]); }
    assert("stdlib_lookup"@ != "stdlib_list"@) by { assert("stdlib_lookup"@[8] != "stdlib_list"@[8]); }
    assert(tool_named("stdlib_lookup"@) == Some(Tool::StdlibLookup));
    assert("apply_patch"@ != "parse"@) by { assert("apply_patch"@[0] != "parse"@[0]); }
    assert("apply_patch"@ != "verify"@) by { assert("apply_patch"@[0] != "verify"@[0]); }
    assert("apply_patch"@ != "format"@) by { assert("apply_patch"@[0] != "format"@[0]); }
    assert("apply_patch"@ != "grammar"@) by { assert("apply_patch"@[0] != "grammar"@[0]); }
    assert("apply_patch"@ != "stdlib_list"@) by { assert("apply_patch"@[0] != "stdlib_list"@[0]); }
    assert("apply_patch"@ != "stdlib_lookup"@) by { assert("apply_patch"@[0] != "stdlib_lookup"@[0]); }
    assert(tool_named("apply_patch"@) == Some(Tool::ApplyPatch));
}

/// A `tools/call` runs the tool `tools/list` lists under the name it
/// gives: the name of the table's entry `k` dispatches to the tool
/// declared `k`-th, so no two listed names reach the same tool; and a
/// name the table does not list reaches no tool.
pub proof fn law_listed_names_dispatch_to_their_tool(k: int, name: Seq<char>)
    ensures
        0 <= k < tool_table_spec().len() ==> (tool_named(tool_table_spec()[k].0) matches Some(t) && tool_position(t) == k),
        (tool_named(name) is Some) <==> exists|j: int| 0 <= j < tool_table_spec().len() && #[trigger] tool_table_spec()[j].0 == name,
{
    lemma_tool_names();
    reveal_strlit("parse");
    reveal_strlit("verify");
    reveal_strlit("format");
    reveal_strlit("grammar");
    reveal_strlit("stdlib_list");
    reveal_strlit("stdlib_lookup");
    reveal_strlit("apply_patch");
    if k == 0 {
        assert(tool_table_spec()[0].0 == "parse"@);
    }
    if k == 1 {
        assert(tool_table_spec()[1].0 == "verify"@);
    }
    if k == 2 {
        assert(tool_table_spec()[2].0 == "format"@);
    }
    if k == 3 {
        assert(tool_table_spec()[3].0 == "grammar"@);
    }
    if k == 4 {
        assert(tool_table_spec()[4].0 == "stdlib_list"@);
    }
    if k == 5 {
        assert(tool_table_spec()[5].0 == "stdlib_lookup"@);
    }
    if k == 6 {
        assert(tool_table_spec()[6].0 == "apply_patch"@);
    }
    if tool_named(name) is Some {
        if name == "parse"@ {
            assert(tool_table_spec()[0].0 == name);
        } else if name == "verify"@ {
            assert(tool_table_spec()[1].0 == name);
        } else if name == "format"@ {
            assert(tool_table_spec()[2].0 == name);
        } else if name == "grammar"@ {
            assert(tool_table_spec()[3].0 == name);
        } else if name == "stdlib_list"@ {
            assert(tool_table_spec()[4].0 == name);
        } else if name == "stdlib_lookup"@ {
            assert(tool_table_spec()[5].0 == name);
        } else {
            assert(tool_table_spec()[6].0 == name);
        }
    }
}

/// The tool a `tools/call` names, or the invalid-params error for an
/// unknown name.
pub fn dispatch_tool(name: &str) -> (r: Result<Tool, (i64, String)>)
    ensures
        match tool_named(name@) {
            Some(t) => r == Ok::<Tool, (i64, String)>(t),
            None => r matches Err((code, m)) && code == INVALID_PARAMS && m@ == "unknown tool: "@ + name@,
        },
{
    let v = chars_of(name);
    if same(&v, "parse") {
        Ok(Tool::Parse)
    } else if same(&v, "verify") {
        Ok(Tool::Verify)
    } else if same(&v, "format") {
        Ok(Tool::Format)
    } else if same(&v, "grammar") {
        Ok(Tool::Grammar)
    } else if same(&v, "stdlib_list") {
        Ok(Tool::StdlibList)
    } else if same(&v, "stdlib_lookup") {
        Ok(Tool::StdlibLookup)
    } else if same(&v, "apply_patch") {
        Ok(Tool::ApplyPatch)
    } else {
        let mut m = owned("unknown tool: ");
        push_str(&mut m, name);
        Err((INVALID_PARAMS, m))
    }
}

/// One parameter of a tool: its name, its description, and whether a
/// call must give it. Its schema type is [`param_kind`] of the
/// description.
pub struct ToolParam {
    pub name: String,
    pub description: String,
    pub required: bool,
}

/// One tool as `tools/list` describes it.
pub struct ToolSpec {
    pub name: String,
    pub description: String,
    pub params: Vec<ToolParam>,
}

pub open spec fn param_view(p: ToolParam) -> (Seq<char>, Seq<char>, bool) {
    (p.name@, p.description@, p.required)
}

pub open spec fn tool_view(t: ToolSpec) -> (Seq<char>, Seq<char>, Seq<(Seq<char>, Seq<char>, bool)>) {
    (t.name@, t.description@, t.params@.map_values(|p: ToolParam| param_view(p)))
}

/// The tools the server offers, in the order `tools/list` lists them.
pub open spec fn tool_table_spec() -> Seq<(Seq<char>, Seq<char>, Seq<(Seq<char>, Seq<char>, bool)>)> {
    seq![
        ("parse"@, "Lex + parse a Twe source. Returns {ok, ast} on success or {ok: false, stage, line, col, message} on error."@, seq![("source"@, "Twe source code"@, true)]),
        ("verify"@, "Run the strict / verified inferer on Twe source. Returns the canonical verify JSON v2 (with structured `fix` patches on high-confidence diagnostics)."@, seq![("source"@, "Twe source code"@, true), ("file"@, "Optional file path for diagnostic anchoring"@, false), ("warn_deprecated"@, "Boolean — emit deprecation warnings"@, false)]),
        ("format"@, "Pretty-print Twe source in canonical form. Returns {formatted}."@, seq![("source"@, "Twe source code"@, true)]),
        ("grammar"@, "Export the Twe grammar in `gbnf` (default), `json-schema`, or `ebnf` format. Returns {format, grammar}."@, seq![("format"@, "gbnf | json-schema | ebnf"@, false)]),
        ("stdlib_list"@, "Enumerate the stdlib manifest, optionally filtered by category. Returns the same payload as `twec stdlib --json`."@, seq![("category"@, "Filter by category (math, draw, ui, ...)"@, false)]),
        ("stdlib_lookup"@, "Look up one stdlib builtin by canonical name. Returns BuiltinSpec or null."@, seq![("name"@, "Canonical builtin name (e.g. math.sqrt)"@, true)]),
        ("apply_patch"@, "Apply a list of structured edits to a source string. Returns {source}. Edits are 1-based line/col anchors with byte length to replace."@, seq![("source"@, "Source text"@, true), ("edits"@, "Array of {line, col, len, replace}"@, true)])
    ]
}

fn param(name: &str, description: &str, required: bool) -> (r: ToolParam)
    ensures
        param_view(r) == (name@, description@, required),
{
    ToolParam { name: owned(name), description: owned(description), required }
}

fn tool(name: &str, description: &str, params: Vec<ToolParam>) -> (r: ToolSpec)
    ensures
        r.name@ == name@,
        r.description@ == description@,
        r.params@ == params@,
{
    ToolSpec { name: owned(name), description: owned(description), params }
}

/// The table `tools/list` answers with: every tool with its description
/// and parameters.
pub fn tool_table() -> (r: Vec<ToolSpec>)
    ensures
        r@.map_values(|t: ToolSpec| tool_view(t)) == tool_table_spec(),
{
    let mut out: Vec<ToolSpec> = Vec::new();
    let mut ps: Vec<ToolParam> = Vec::new();
    ps.push(param("source", "Twe source code", true));
    let t = tool("parse", "Lex + parse a Twe source. Returns {ok, ast} on success or {ok: false, stage, line, col, message} on error.", ps);
    assert(t.params@.map_values(|p: ToolParam| param_view(p)) =~= seq![("source"@, "Twe source code"@, true)]);
    out.push(t);
    let mut ps: Vec<ToolParam> = Vec::new();
    ps.push(param("source", "Twe source code", true));
    ps.push(param("file", "Optional file path for diagnostic anchoring", false));
    ps.push(param("warn_deprecated", "Boolean — emit deprecation warnings", false));
    let t = tool("verify", "Run the strict / verified inferer on Twe source. Returns the canonical verify JSON v2 (with structured `fix` patches on high-confidence diagnostics).", ps);
    assert(t.params@.map_values(|p: ToolParam| param_view(p)) =~= seq![("source"@, "Twe source code"@, true), ("file"@, "Optional file path for diagnostic anchoring"@, false), ("warn_deprecated"@, "Boolean — emit deprecation warnings"@, false)]);
    out.push(t);
    let mut ps: Vec<ToolParam> = Vec::new();
    ps.push(param("source", "Twe source code", true));
    let t = tool("format", "Pretty-print Twe source in canonical form. Returns {formatted}.", ps);
    assert(t.params@.map_values(|p: ToolParam| param_view(p)) =~= seq![("source"@, "Twe source code"@, true)]);
    out.push(t);
    let mut ps: Vec<ToolParam> = Vec::new();
    ps.push(param("format", "gbnf | json-schema | ebnf", false));
    let t = tool("grammar", "Export the Twe grammar in `gbnf` (default), `json-schema`, or `ebnf` format. Returns {format, grammar}.", ps);
    assert(t.params@.map_values(|p: ToolParam| param_view(p)) =~= seq![("format"@, "gbnf | json-schema | ebnf"@, false)]);
    out.push(t);
    let mut ps: Vec<ToolParam> = Vec::new();
    ps.push(param("category", "Filter by category (math, draw, ui, ...)", false));
    let t = tool("stdlib_list", "Enumerate the stdlib manifest, optionally filtered by category. Returns the same payload as `twec stdlib --json`.", ps);
    assert(t.params@.map_values(|p: ToolParam| param_view(p)) =~= seq![("category"@, "Filter by category (math, draw, ui, ...)"@, false)]);
    out.push(t);
    let mut ps: Vec<ToolParam> = Vec::new();
    ps.push(param("name", "Canonical builtin name (e.g. math.sqrt)", true));
    let t = tool("stdlib_lookup", "Look up one stdlib builtin by canonical name. Returns BuiltinSpec or null.", ps);
    assert(t.params@.map_values(|p: ToolParam| param_view(p)) =~= seq![("name"@, "Canonical builtin name (e.g. math.sqrt)"@, true)]);
    out.push(t);
    let mut ps: Vec<ToolParam> = Vec::new();
    ps.push(param("source", "Source text", true));
    ps.push(param("edits", "Array of {line, col, len, replace}", true));
    let t = tool("apply_patch", "Apply a list of structured edits to a source string. Returns {source}. Edits are 1-based line/col anchors with byte length to replace.", ps);
    assert(t.params@.map_values(|p: ToolParam| param_view(p)) =~= seq![("source"@, "Source text"@, true), ("edits"@, "Array of {line, col, len, replace}"@, true)]);
    out.push(t);
    assert(out@.map_values(|t: ToolSpec| tool_view(t)) =~= tool_table_spec());
    out
}

/// The names `tools/list` gives, in order.
pub proof fn law_tool_table_names()
    ensures
        tool_table_spec().map_values(|t: (Seq<char>, Seq<char>, Seq<(Seq<char>, Seq<char>, bool)>)| t.0) == seq![
            "parse"@,
            "verify"@,
            "format"@,
            "grammar"@,
            "stdlib_list"@,
            "stdlib_lookup"@,
            "apply_patch"@,
        ],
{
    assert(tool_table_spec().map_values(|t: (Seq<char>, Seq<char>, Seq<(Seq<char>, Seq<char>, bool)>)| t.0) =~= seq![
        "parse"@,
        "verify"@,
        "format"@,
        "grammar"@,
        "stdlib_list"@,
        "stdlib_lookup"@,
        "apply_patch"@,
    ]);
}

/// The schema type of a tool parameter, from its description: a
/// description starting with `Boolean` or `Array` names that type;
/// anything else is a string.
pub fn param_kind(description: &str) -> (r: &'static str)
    ensures
        r@ == (if starts_with(description@, "Boolean"@) {
            "boolean"@
        } else if starts_with(description@, "Array"@) {
            "array"@
        } else {
            "string"@
        }),
{
    let v = chars_of(description);
    if has_prefix(&v, "Boolean") {
        "boolean"
    } else if has_prefix(&v, "Array") {
        "array"
    } else {
        "string"
    }
}

fn has_prefix(v: &Vec<char>, p: &str) -> (r: bool)
    ensures
        r == starts_with(v@, p@),
{
    let pv = chars_of(p);
    if pv.len() > v.len() {
        return false;
    }
    let mut i: usize = 0;
    while i < pv.len()
        invariant
            i <= pv@.len() <= v@.len(),
            pv@ == p@,
            forall|k: int| 0 <= k < i ==> v@[k] == pv@[k],
        decreases pv.len() - i,
    {
        if v[i] != pv[i] {
            assert(v@.subrange(0, pv@.len() as int)[i as int] != pv@[i as int]);
            return false;
        }
        i += 1;
    }
    assert(v@.subrange(0, pv@.len() as int) =~= pv@);
    true
}

// ---------------------------------------------------------------------------
// Applying patches
// ---------------------------------------------------------------------------

/// One edit: replace `len` bytes at the 1-based (`line`, `col`) byte
/// position with `replace`.
pub struct Edit {
    pub line: u32,
    pub col: u32,
    pub len: u32,
    pub replace: String,
}

/// The byte offset of the 1-based (`line`, `col`) position, scanning from
/// byte `i` on line `cur` whose first byte is `start`; the text's length
/// when the line does not exist.
pub open spec fn lc_scan(bs: Seq<u8>, i: int, cur: int, start: int, line: int, col: int) -> int
    decreases bs.len() - i,
{
    if i >= bs.len() {
        if cur == line { start + col - 1 } else { bs.len() as int }
    } else if cur == line {
        start + col - 1
    } else if bs[i] == 10u8 {
        lc_scan(bs, i + 1, cur + 1, i + 1, line, col)
    } else {
        lc_scan(bs, i + 1, cur, start, line, col)
    }
}

pub open spec fn line_col_byte(bs: Seq<u8>, line: int, col: int) -> int {
    lc_scan(bs, 0, 1, 0, line, col)
}

proof fn lemma_lc_scan_bound(bs: Seq<u8>, i: int, cur: int, start: int, line: int, col: int)
    requires
        0 <= i <= bs.len(),
        0 <= start <= i,
        1 <= cur <= line,
        col >= 1,
    ensures
        lc_scan(bs, i, cur, start, line, col) <= bs.len() + col - 1,
    decreases bs.len() - i,
{
    if i < bs.len() && cur != line {
        if bs[i] == 10u8 {
            lemma_lc_scan_bound(bs, i + 1, cur + 1, i + 1, line, col);
        } else {
            lemma_lc_scan_bound(bs, i + 1, cur, start, line, col);
        }
    }
}

/// The byte offset of the 1-based (`line`, `col`) position of `src`
/// (the text's length when the line does not exist).
pub fn line_col_to_byte(src: &str, line: u32, col: u32) -> (r: usize)
    requires
        line >= 1,
        col >= 1,
        vstd::utf8::encode_utf8(src@).len() + col <= usize::MAX + 1,
    ensures
        r == line_col_byte(vstd::utf8::encode_utf8(src@), line as int, col as int),
{
    let bytes = src.as_bytes();
    let ghost bs = bytes@;
    assert(bs == vstd::utf8::encode_utf8(src@));
    let mut current_line: u32 = 1;
    let mut line_start: usize = 0;
    let mut i: usize = 0;
    proof { lemma_lc_scan_bound(bs, 0, 1, 0, line as int, col as int); }
    while i < bytes.len()
        invariant
            bs == bytes@,
            bs == vstd::utf8::encode_utf8(src@),
            bs.len() + col <= usize::MAX + 1,
            i <= bs.len(),
            line_start <= i,
            1 <= current_line <= line,
            col >= 1,
            lc_scan(bs, 0, 1, 0, line as int, col as int) == lc_scan(bs, i as int, current_line as int, line_start as int, line as int, col as int),
        decreases bytes.len() - i,
    {
        if current_line == line {
            return line_start + (col as usize - 1);
        }
        if bytes[i] == 10u8 {
            current_line += 1;
            line_start = i + 1;
        }
        i += 1;
    }
    if current_line == line {
        line_start + (col as usize - 1)
    } else {
        bytes.len()
    }
}

/// An edit as a byte range of the text and its replacement's bytes.
pub type ByteEdit = (int, int, Seq<u8>);

/// `e` placed among the edits `s` (sorted by descending start) after every
/// edit that starts at or after it.
pub open spec fn insert_desc(s: Seq<ByteEdit>, e: ByteEdit) -> Seq<ByteEdit>
    decreases s.len(),
{
    if s.len() == 0 {
        seq![e]
    } else if s[0].0 >= e.0 {
        seq![s[0]] + insert_desc(s.drop_first(), e)
    } else {
        seq![e] + s
    }
}

/// The edits stably sorted by descending start.
pub open spec fn sort_desc(s: Seq<ByteEdit>) -> Seq<ByteEdit>
    decreases s.len(),
{
    if s.len() == 0 {
        Seq::empty()
    } else {
        insert_desc(sort_desc(s.drop_last()), s.last())
    }
}

pub open spec fn min_int(a: int, b: int) -> int {
    if a <= b { a } else { b }
}

/// One replacement, its range clamped to the text.
pub open spec fn apply_one(bs: Seq<u8>, e: ByteEdit) -> Seq<u8> {
    let end = min_int(e.1, bs.len() as int);
    let start = min_int(e.0, end);
    bs.subrange(0, start) + e.2 + bs.subrange(end, bs.len() as int)
}

/// The edits applied one after the other.
pub open spec fn apply_all(bs: Seq<u8>, es: Seq<ByteEdit>) -> Seq<u8>
    decreases es.len(),
{
    if es.len() == 0 {
        bs
    } else {
        apply_all(apply_one(bs, es[0]), es.drop_first())
    }
}

/// Every replacement, in turn, cuts its text at character boundaries, on
/// a text whose length a `usize` holds.
pub open spec fn cuts_ok(bs: Seq<u8>, es: Seq<ByteEdit>) -> bool
    decreases es.len(),
{
    if es.len() == 0 {
        true
    } else {
        let end = min_int(es[0].1, bs.len() as int);
        let start = min_int(es[0].0, end);
        &&& bs.len() <= usize::MAX
        &&& vstd::utf8::is_char_boundary(bs, end)
        &&& vstd::utf8::is_char_boundary(bs, start)
        &&& cuts_ok(apply_one(bs, es[0]), es.drop_first())
    }
}

/// The byte edits of `edits` on the text `bs`.
pub open spec fn byte_edits(bs: Seq<u8>, edits: Seq<Edit>) -> Seq<ByteEdit> {
    Seq::new(
        edits.len(),
        |i: int|
            (
                line_col_byte(bs, edits[i].line as int, edits[i].col as int),
                line_col_byte(bs, edits[i].line as int, edits[i].col as int) + edits[i].len,
                vstd::utf8::encode_utf8(edits[i].replace@),
            ),
    )
}

pub proof fn lemma_encode_concat(x: Seq<char>, y: Seq<char>)
    ensures
        vstd::utf8::encode_utf8(x + y) == vstd::utf8::encode_utf8(x) + vstd::utf8::encode_utf8(y),
    decreases x.len(),
{
    if x.len() == 0 {
        assert(x + y =~= y);
        assert(vstd::utf8::encode_utf8(x) =~= Seq::<u8>::empty());
        assert(vstd::utf8::encode_utf8(x) + vstd::utf8::encode_utf8(y) =~= vstd::utf8::encode_utf8(y));
    } else {
        assert((x + y).drop_first() =~= x.drop_first() + y);
        assert((x + y)[0] == x[0]);
        lemma_encode_concat(x.drop_first(), y);
        assert(vstd::utf8::encode_utf8(x + y) =~= vstd::utf8::encode_utf8(x) + vstd::utf8::encode_utf8(y));
    }
}

proof fn lemma_prefix_boundary(bs: Seq<u8>, start: int, end: int)
    requires
        vstd::utf8::valid_utf8(bs),
        0 <= start <= end <= bs.len(),
        vstd::utf8::is_char_boundary(bs, start),
        vstd::utf8::is_char_boundary(bs, end),
    ensures
        vstd::utf8::valid_utf8(bs.subrange(0, end)),
        vstd::utf8::is_char_boundary(bs.subrange(0, end), start),
{
    broadcast use vstd::utf8::valid_utf8_split, vstd::utf8::is_char_boundary_start_end_of_seq,
        vstd::utf8::is_char_boundary_iff_not_is_continuation_byte;

    let pre = bs.subrange(0, end);
    assert(vstd::utf8::valid_utf8(pre));
    if start == end {
        assert(vstd::utf8::is_char_boundary(pre, pre.len() as int));
    } else if start == 0 {
        assert(vstd::utf8::is_char_boundary(pre, 0));
    } else {
        assert(pre[start] == bs[start]);
        assert(vstd::utf8::is_char_boundary(bs, start) <==> !vstd::utf8::is_continuation_byte(bs[start]));
        assert(vstd::utf8::is_char_boundary(pre, start) <==> !vstd::utf8::is_continuation_byte(pre[start]));
    }
}

/// `s` with its bytes `start..end` replaced by `repl`.
fn replace_bytes(s: &String, start: usize, end: usize, repl: &str) -> (r: String)
    requires
        start <= end <= vstd::utf8::encode_utf8(s@).len(),
        vstd::utf8::is_char_boundary(vstd::utf8::encode_utf8(s@), start as int),
        vstd::utf8::is_char_boundary(vstd::utf8::encode_utf8(s@), end as int),
    ensures
        vstd::utf8::encode_utf8(r@) == apply_one(vstd::utf8::encode_utf8(s@), (start as int, end as int, vstd::utf8::encode_utf8(repl@))),
{
    broadcast use vstd::utf8::encode_utf8_valid_utf8;

    let ghost bs = vstd::utf8::encode_utf8(s@);
    let t = s.as_str();
    assert(vstd::utf8::encode_utf8(t@) == bs);
    proof { lemma_prefix_boundary(bs, start as int, end as int); }
    let (ab, c) = t.split_at(end);
    assert(vstd::utf8::encode_utf8(ab@) == bs.subrange(0, end as int));
    let (a, _b) = ab.split_at(start);
    let mut out = owned(a);
    push_str(&mut out, repl);
    push_str(&mut out, c);
    proof {
        lemma_encode_concat(a@, repl@);
        lemma_encode_concat(a@ + repl@, c@);
        assert(vstd::utf8::encode_utf8(a@) =~= bs.subrange(0, start as int));
        assert(vstd::utf8::encode_utf8(out@) =~= apply_one(bs, (start as int, end as int, vstd::utf8::encode_utf8(repl@))));
    }
    out
}


proof fn lemma_insert_desc_at(s: Seq<ByteEdit>, e: ByteEdit, p: int)
    requires
        0 <= p <= s.len(),
        forall|k: int| 0 <= k < p ==> (#[trigger] s[k]).0 >= e.0,
        p < s.len() ==> s[p].0 < e.0,
    ensures
        insert_desc(s, e) == s.insert(p, e),
    decreases s.len(),
{
    if s.len() == 0 {
        assert(s.insert(p, e) =~= seq![e]);
    } else if p == 0 {
        assert(s.insert(0, e) =~= seq![e] + s);
    } else {
        assert forall|k: int| 0 <= k < p - 1 implies (#[trigger] s.drop_first()[k]).0 >= e.0 by {
            assert(s.drop_first()[k] == s[k + 1]);
        }
        lemma_insert_desc_at(s.drop_first(), e, p - 1);
        assert(s.insert(p, e) =~= seq![s[0]] + s.drop_first().insert(p - 1, e));
    }
}

pub open spec fn edit_view(edits: Seq<Edit>, t: (usize, usize, usize)) -> ByteEdit {
    (t.0 as int, t.1 as int, vstd::utf8::encode_utf8(edits[t.2 as int].replace@))
}

pub open spec fn edits_view(edits: Seq<Edit>, v: Seq<(usize, usize, usize)>) -> Seq<ByteEdit> {
    v.map_values(|t: (usize, usize, usize)| edit_view(edits, t))
}

/// One edit as an `apply_patch` call gives it: each field where it is
/// present with the right type, and the edit as it is shown in an error.
pub struct EditArgs {
    pub line: Option<i64>,
    pub col: Option<i64>,
    pub len: Option<i64>,
    pub replace: Option<String>,
    pub shown: String,
}

/// The edit the arguments describe: a missing number reads as 0 and is
/// cut to 32 bits, a missing replacement is empty.
pub open spec fn edit_fields(a: EditArgs) -> (u32, u32, u32, Seq<char>) {
    (
        (match a.line { Some(x) => x, None => 0i64 }) as u32,
        (match a.col { Some(x) => x, None => 0i64 }) as u32,
        (match a.len { Some(x) => x, None => 0i64 }) as u32,
        match a.replace { Some(r) => r@, None => Seq::empty() },
    )
}

/// The index of the first edit whose line or column is 0.
pub open spec fn first_bad_anchor(es: Seq<EditArgs>, i: int) -> Option<int>
    decreases es.len() - i,
{
    if i < 0 || i >= es.len() {
        None
    } else if edit_fields(es[i]).0 == 0 || edit_fields(es[i]).1 == 0 {
        Some(i)
    } else {
        first_bad_anchor(es, i + 1)
    }
}

pub open spec fn edit_fields_of(e: Edit) -> (u32, u32, u32, Seq<char>) {
    (e.line, e.col, e.len, e.replace@)
}

/// The edits of an `apply_patch` call: refused with invalid-params when
/// the `edits` array is missing, or at the first edit whose line or
/// column is 0 (anchors are 1-based); otherwise each edit as
/// [`edit_fields`] reads it, in order.
pub fn decode_edits(edits: Option<&Vec<EditArgs>>) -> (r: Result<Vec<Edit>, (i64, String)>)
    ensures
        match edits {
            None => r matches Err((code, m)) && code == INVALID_PARAMS && m@ == "missing `edits` array"@,
            Some(es) => match first_bad_anchor(es@, 0) {
                Some(k) => r matches Err((code, m)) && code == INVALID_PARAMS && m@
                    == "edit anchor must be 1-based: "@ + es@[k].shown@,
                None => r matches Ok(v) && v@.map_values(|e: Edit| edit_fields_of(e)) == es@.map_values(
                    |a: EditArgs| edit_fields(a),
                ),
            },
        },
{
    let es = match edits {
        None => return Err((INVALID_PARAMS, owned("missing `edits` array"))),
        Some(es) => es,
    };
    let mut out: Vec<Edit> = Vec::new();
    let mut i: usize = 0;
    while i < es.len()
        invariant
            i <= es@.len(),
            edits == Some(es),
            first_bad_anchor(es@, 0) == first_bad_anchor(es@, i as int),
            out@.map_values(|e: Edit| edit_fields_of(e)) == es@.subrange(0, i as int).map_values(|a: EditArgs| edit_fields(a)),
        decreases es.len() - i,
    {
        let a = &es[i];
        let line: i64 = match a.line { Some(x) => x, None => 0 };
        let col: i64 = match a.col { Some(x) => x, None => 0 };
        let len: i64 = match a.len { Some(x) => x, None => 0 };
        let line = line as u32;
        let col = col as u32;
        let len = len as u32;
        assert(edit_fields(es@[i as int]).0 == line && edit_fields(es@[i as int]).1 == col && edit_fields(
            es@[i as int],
        ).2 == len);
        if line == 0 || col == 0 {
            assert(first_bad_anchor(es@, i as int) == Some(i as int));
            let mut m = owned("edit anchor must be 1-based: ");
            push_str(&mut m, a.shown.as_str());
            return Err((INVALID_PARAMS, m));
        }
        let replace = match &a.replace {
            Some(r) => owned(r.as_str()),
            None => String::new(),
        };
        let ghost before = out@;
        assert(first_bad_anchor(es@, i as int) == first_bad_anchor(es@, i + 1));
        out.push(Edit { line, col, len, replace });
        assert(edit_fields_of(out@.last()) == edit_fields(es@[i as int]));
        assert(out@.map_values(|e: Edit| edit_fields_of(e)) =~= before.map_values(|e: Edit| edit_fields_of(e)).push(
            edit_fields_of(out@.last()),
        ));
        assert(es@.subrange(0, i + 1) =~= es@.subrange(0, i as int).push(es@[i as int]));
        assert(out@.map_values(|e: Edit| edit_fields_of(e)) =~= es@.subrange(0, i + 1).map_values(|a: EditArgs| edit_fields(a)));
        i += 1;
    }
    assert(es@.subrange(0, es@.len() as int) =~= es@);
    Ok(out)
}

/// The edits applied as [`apply_edits`] applies them, or `None` where a
/// range, in its turn, would cut the text inside a character.
#[verifier::rlimit(60)]
fn try_apply_edits(src: &str, edits: &Vec<Edit>) -> (r: Option<String>)
    requires
        forall|i: int| 0 <= i < edits@.len() ==> (#[trigger] edits@[i]).line >= 1 && edits@[i].col >= 1
            && vstd::utf8::encode_utf8(src@).len() + edits@[i].col + edits@[i].len <= usize::MAX + 1,
    ensures
        r is Some <==> cuts_ok(vstd::utf8::encode_utf8(src@), sort_desc(byte_edits(vstd::utf8::encode_utf8(src@), edits@))),
        r matches Some(t) ==> vstd::utf8::encode_utf8(t@) == apply_all(
            vstd::utf8::encode_utf8(src@),
            sort_desc(byte_edits(vstd::utf8::encode_utf8(src@), edits@)),
        ),
{
    let ghost bs = vstd::utf8::encode_utf8(src@);
    let ghost be = byte_edits(bs, edits@);
    let mut sorted: Vec<(usize, usize, usize)> = Vec::new();
    let mut i: usize = 0;
    proof {
        assert(be.subrange(0, 0) =~= Seq::<ByteEdit>::empty());
        assert(edits_view(edits@, sorted@) =~= Seq::<ByteEdit>::empty());
    }
    while i < edits.len()
        invariant
            i <= edits@.len(),
            bs == vstd::utf8::encode_utf8(src@),
            be == byte_edits(bs, edits@),
            forall|m: int| 0 <= m < edits@.len() ==> (#[trigger] edits@[m]).line >= 1 && edits@[m].col >= 1
                && bs.len() + edits@[m].col + edits@[m].len <= usize::MAX + 1,
            forall|m: int| 0 <= m < sorted@.len() ==> (#[trigger] sorted@[m]).2 < edits@.len(),
            edits_view(edits@, sorted@) == sort_desc(be.subrange(0, i as int)),
        decreases edits.len() - i,
    {
        let e = &edits[i];
        let start = line_col_to_byte(src, e.line, e.col);
        proof {
            lemma_lc_scan_bound(bs, 0, 1, 0, e.line as int, e.col as int);
        }
        let end = start + e.len as usize;
        let ghost ev = edit_view(edits@, (start, end, i));
        assert(ev == be[i as int]);
        let mut p: usize = 0;
        while p < sorted.len() && sorted[p].0 >= start
            invariant
                p <= sorted@.len(),
                forall|k: int| 0 <= k < p ==> (#[trigger] sorted@[k]).0 >= start,
            decreases sorted.len() - p,
        {
            p += 1;
        }
        let ghost old_view = edits_view(edits@, sorted@);
        proof {
            assert forall|k: int| 0 <= k < p implies (#[trigger] old_view[k]).0 >= ev.0 by {
                assert(old_view[k] == edit_view(edits@, sorted@[k]));
            }
            if p < sorted@.len() {
                assert(old_view[p as int] == edit_view(edits@, sorted@[p as int]));
            }
            lemma_insert_desc_at(old_view, ev, p as int);
        }
        sorted.insert(p, (start, end, i));
        proof {
            assert(edits_view(edits@, sorted@) =~= old_view.insert(p as int, ev));
            assert(be.subrange(0, i + 1).drop_last() =~= be.subrange(0, i as int));
            assert(be.subrange(0, i + 1).last() == ev);
        }
        i += 1;
    }
    assert(be.subrange(0, edits@.len() as int) =~= be);
    let ghost es = edits_view(edits@, sorted@);
    let mut out = owned(src);
    let mut k: usize = 0;
    assert(es.skip(0) =~= es);
    while k < sorted.len()
        invariant
            k <= sorted@.len(),
            es == edits_view(edits@, sorted@),
            forall|m: int| 0 <= m < sorted@.len() ==> (#[trigger] sorted@[m]).2 < edits@.len(),
            apply_all(bs, es) == apply_all(vstd::utf8::encode_utf8(out@), es.skip(k as int)),
            cuts_ok(bs, es) == cuts_ok(vstd::utf8::encode_utf8(out@), es.skip(k as int)),
            bs == vstd::utf8::encode_utf8(src@),
            es == sort_desc(byte_edits(bs, edits@)),
        decreases sorted.len() - k,
    {
        let (start, end, idx) = sorted[k];
        let ghost cur = vstd::utf8::encode_utf8(out@);
        let ghost rest = es.skip(k as int);
        assert(rest[0] == es[k as int]);
        assert(es[k as int] == edit_view(edits@, sorted@[k as int]));
        assert(rest.drop_first() =~= es.skip(k + 1));
        let outb = out.as_str().as_bytes();
        assert(outb@ == cur);
        let len = outb.len();
        assert(len == cur.len());
        let e2 = if end < len { end } else { len };
        let s2 = if start < e2 { start } else { e2 };
        assert(e2 == min_int(rest[0].1, cur.len() as int));
        assert(s2 == min_int(rest[0].0, e2 as int));
        if !out.as_str().is_char_boundary(e2) || !out.as_str().is_char_boundary(s2) {
            assert(rest.len() > 0);
            assert(!cuts_ok(cur, rest));
            return None;
        }
        let next = replace_bytes(&out, s2, e2, edits[idx].replace.as_str());
        assert(vstd::utf8::encode_utf8(next@) == apply_one(cur, rest[0]));
        out = next;
        k += 1;
    }
    Some(out)
}

/// Applies the edits to `src`, right to left: ordered by descending byte
/// offset (edits at the same offset keep their order), each range
/// clamped to the current text, so earlier offsets stay valid. Every
/// range, in turn, must cut the text at character boundaries.
pub fn apply_edits(src: &str, edits: &Vec<Edit>) -> (r: String)
    requires
        forall|i: int| 0 <= i < edits@.len() ==> (#[trigger] edits@[i]).line >= 1 && edits@[i].col >= 1
            && vstd::utf8::encode_utf8(src@).len() + edits@[i].col + edits@[i].len <= usize::MAX + 1,
        cuts_ok(vstd::utf8::encode_utf8(src@), sort_desc(byte_edits(vstd::utf8::encode_utf8(src@), edits@))),
    ensures
        vstd::utf8::encode_utf8(r@) == apply_all(
            vstd::utf8::encode_utf8(src@),
            sort_desc(byte_edits(vstd::utf8::encode_utf8(src@), edits@)),
        ),
{
    match try_apply_edits(src, edits) {
        Some(t) => t,
        None => {
            assert(false);
            owned(src)
        },
    }
}

/// An edit as its fields (line, column, length, replacement).
pub type EditFields = (u32, u32, u32, Seq<char>);

/// The byte edits that edits with the fields `fs` make on the text `bs`.
pub open spec fn fields_byte_edits(bs: Seq<u8>, fs: Seq<EditFields>) -> Seq<ByteEdit> {
    Seq::new(
        fs.len(),
        |i: int|
            (
                line_col_byte(bs, fs[i].0 as int, fs[i].1 as int),
                line_col_byte(bs, fs[i].0 as int, fs[i].1 as int) + fs[i].2,
                vstd::utf8::encode_utf8(fs[i].3),
            ),
    )
}

/// Whether every edit's range, read on a text of `n` bytes, fits a
/// `usize` offset.
pub open spec fn ranges_fit(n: int, fs: Seq<EditFields>) -> bool {
    forall|i: int| 0 <= i < fs.len() ==> n + (#[trigger] fs[i]).1 + fs[i].2 <= usize::MAX + 1
}

fn check_ranges(n: usize, edits: &Vec<Edit>) -> (r: bool)
    ensures
        r == ranges_fit(n as int, edits@.map_values(|e: Edit| edit_fields_of(e))),
{
    let ghost fs = edits@.map_values(|e: Edit| edit_fields_of(e));
    let mut i: usize = 0;
    while i < edits.len()
        invariant
            i <= edits@.len(),
            fs == edits@.map_values(|e: Edit| edit_fields_of(e)),
            forall|k: int| 0 <= k < i ==> n + (#[trigger] fs[k]).1 + fs[k].2 <= usize::MAX + 1,
        decreases edits.len() - i,
    {
        assert(fs[i as int] == edit_fields_of(edits@[i as int]));
        let room: u128 = (usize::MAX - n) as u128 + 1;
        let need: u128 = edits[i].col as u128 + edits[i].len as u128;
        if need > room {
            return false;
        }
        i += 1;
    }
    true
}

proof fn lemma_no_bad_anchor(es: Seq<EditArgs>, i: int)
    requires
        0 <= i,
        first_bad_anchor(es, i) is None,
    ensures
        forall|k: int| i <= k < es.len() ==> (#[trigger] edit_fields(es[k])).0 != 0 && edit_fields(es[k]).1 != 0,
    decreases es.len() - i,
{
    if i < es.len() {
        lemma_no_bad_anchor(es, i + 1);
    }
}

/// The outcome of an `apply_patch` call on `source` with the edits `es`
/// (their anchors all 1-based).
pub open spec fn patch_outcome(source: Seq<char>, es: Seq<EditArgs>) -> Result<Seq<u8>, (i64, Seq<char>)> {
    let bs = vstd::utf8::encode_utf8(source);
    let fs = es.map_values(|a: EditArgs| edit_fields(a));
    if !ranges_fit(bs.len() as int, fs) {
        Err((INVALID_PARAMS, "edit range does not fit the text"@))
    } else if !cuts_ok(bs, sort_desc(fields_byte_edits(bs, fs))) {
        Err((INVALID_PARAMS, "edit does not fall on a character boundary"@))
    } else {
        Ok(apply_all(bs, sort_desc(fields_byte_edits(bs, fs))))
    }
}

/// The `apply_patch` tool: the edits decoded as [`decode_edits`] decodes
/// them (its errors unchanged), then applied to `source` as
/// [`apply_edits`] applies them. Refused with invalid-params, where
/// applying is impossible: when an edit's range does not fit an offset,
/// or when a range, in its turn, would cut the text inside a character.
pub fn tool_apply_patch(source: &str, edits: Option<&Vec<EditArgs>>) -> (r: Result<String, (i64, String)>)
    ensures
        match edits {
            None => r matches Err((code, m)) && code == INVALID_PARAMS && m@ == "missing `edits` array"@,
            Some(es) => match first_bad_anchor(es@, 0) {
                Some(k) => r matches Err((code, m)) && code == INVALID_PARAMS && m@
                    == "edit anchor must be 1-based: "@ + es@[k].shown@,
                None => match patch_outcome(source@, es@) {
                    Ok(bytes) => r matches Ok(t) && vstd::utf8::encode_utf8(t@) == bytes,
                    Err((c, msg)) => r matches Err((code, m)) && code == c && m@ == msg,
                },
            },
        },
{
    let decoded = match decode_edits(edits) {
        Err(e) => return Err(e),
        Ok(v) => v,
    };
    let es = match edits {
        Some(es) => es,
        None => return Err((INVALID_PARAMS, owned("missing `edits` array"))),
    };
    let ghost bs = vstd::utf8::encode_utf8(source@);
    let ghost fs = es@.map_values(|a: EditArgs| edit_fields(a));
    assert(decoded@.map_values(|e: Edit| edit_fields_of(e)) == fs);
    let n = source.as_bytes().len();
    assert(n == bs.len());
    if !check_ranges(n, &decoded) {
        return Err((INVALID_PARAMS, owned("edit range does not fit the text")));
    }
    proof {
        lemma_no_bad_anchor(es@, 0);
        assert forall|i: int| 0 <= i < decoded@.len() implies (#[trigger] decoded@[i]).line >= 1 && decoded@[i].col
            >= 1 && bs.len() + decoded@[i].col + decoded@[i].len <= usize::MAX + 1 by {
            assert(fs[i] == edit_fields_of(decoded@[i]));
            assert(fs[i] == edit_fields(es@[i]));
        }
        assert(byte_edits(bs, decoded@) =~= fields_byte_edits(bs, fs)) by {
            assert forall|i: int| 0 <= i < decoded@.len() implies #[trigger] byte_edits(bs, decoded@)[i]
                == fields_byte_edits(bs, fs)[i] by {
                assert(fs[i] == edit_fields_of(decoded@[i]));
            }
        }
    }
    match try_apply_edits(source, &decoded) {
        Some(t) => Ok(t),
        None => Err((INVALID_PARAMS, owned("edit does not fall on a character boundary"))),
    }
}

/// Edits are applied from the last position back, so each lands where
/// its anchor was in the unedited text: two edits that do not overlap,
/// given in either order, replace their own ranges of the given bytes
/// and leave the text between them untouched.
pub proof fn law_edits_land_at_their_anchors(bs: Seq<u8>, first: ByteEdit, second: ByteEdit)
    requires
        0 <= first.0 <= first.1 <= second.0 <= second.1 <= bs.len(),
        first.0 < second.0,
    ensures
        apply_all(bs, sort_desc(seq![first, second])) == bs.subrange(0, first.0) + first.2 + bs.subrange(
            first.1,
            second.0,
        ) + second.2 + bs.subrange(second.1, bs.len() as int),
        sort_desc(seq![first, second]) == sort_desc(seq![second, first]),
{
    reveal_with_fuel(sort_desc, 3);
    reveal_with_fuel(insert_desc, 3);
    reveal_with_fuel(apply_all, 3);
    assert(seq![first, second].drop_last() =~= seq![first]);
    assert(seq![second, first].drop_last() =~= seq![second]);
    assert(seq![first].drop_last() =~= Seq::<ByteEdit>::empty());
    assert(seq![second].drop_last() =~= Seq::<ByteEdit>::empty());
    assert(insert_desc(seq![first], second) =~= seq![second, first]) by {
        assert(seq![first].drop_first() =~= Seq::<ByteEdit>::empty());
    }
    assert(insert_desc(seq![second], first) =~= seq![second, first]) by {
        assert(seq![second].drop_first() =~= Seq::<ByteEdit>::empty());
    }
    let t = apply_one(bs, second);
    assert(t =~= bs.subrange(0, second.0) + second.2 + bs.subrange(second.1, bs.len() as int));
    let u = apply_one(t, first);
    assert(t.subrange(0, first.0) =~= bs.subrange(0, first.0));
    assert(t.subrange(first.1, t.len() as int) =~= bs.subrange(first.1, second.0) + second.2 + bs.subrange(
        second.1,
        bs.len() as int,
    ));
    assert(seq![second, first].drop_first() =~= seq![first]);
    assert(seq![first].drop_first() =~= Seq::<ByteEdit>::empty());
    assert(u =~= bs.subrange(0, first.0) + first.2 + bs.subrange(first.1, second.0) + second.2 + bs.subrange(
        second.1,
        bs.len() as int,
    ));
}

/// Why a source did not reach the formatter: the lexer's or the parser's
/// error message.
pub enum FrontEndError {
    Lex(String),
    Parse(String),
}

/// The `format` tool: the canonical text of the program `source` parsed
/// to, with its comments and blank lines kept; refused with
/// invalid-params, naming the stage, when it did not lex or parse.
pub fn tool_format(source: &str, parsed: Result<&Program, FrontEndError>) -> (r: Result<String, (i64, String)>)
    requires
        newline_count(source@) < u32::MAX,
    ensures
        match parsed {
            Err(FrontEndError::Lex(m)) => r matches Err((c, msg)) && c == INVALID_PARAMS && msg@ == "lex: "@ + m@,
            Err(FrontEndError::Parse(m)) => r matches Err((c, msg)) && c == INVALID_PARAMS && msg@ == "parse: "@ + m@,
            Ok(p) => r matches Ok(t) && t@ == program_text_with_trivia(p@, trivia_of(source@)),
        },
{
    match parsed {
        Err(FrontEndError::Lex(m)) => {
            let mut msg = owned("lex: ");
            push_str(&mut msg, m.as_str());
            Err((INVALID_PARAMS, msg))
        },
        Err(FrontEndError::Parse(m)) => {
            let mut msg = owned("parse: ");
            push_str(&mut msg, m.as_str());
            Err((INVALID_PARAMS, msg))
        },
        Ok(p) => Ok(print_program_with_trivia(p, source)),
    }
}

} // verus!
