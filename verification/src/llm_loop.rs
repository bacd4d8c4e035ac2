//! The LLM authoring loop: provider abstraction, a canned-response
//! provider for tests, source extraction from model replies, and the
//! follow-up prompt the loop sends after a failed verification.
use vstd::prelude::*;
use std::collections::VecDeque;

use crate::text::{
    chars_of, contains, contains_chars, dec, find, find_chars, json_quote, lemma_find_from_props, owned,
    push_decimal, push_json_str, push_str, skip_ws_back, slice_vec, string_of, trim, trim_bounds,
    trim_end,
};

verus! {

// ---------------------------------------------------------------------------
// Provider trait
// ---------------------------------------------------------------------------

/// One synchronous round-trip with an LLM. `complete` sends `prompt`
/// and returns the model's reply or an error describing why no reply
/// could be produced.
pub trait LlmProvider {
    fn complete(&mut self, prompt: &str) -> Result<String, String>;

    /// Short identifier used in trace files; `"unknown"` unless the
    /// provider names itself.
    fn name(&self) -> (r: &str)
        default_ensures
            r@ == "unknown"@,
    {
        "unknown"
    }
}

/// Deterministic in-memory provider: each `complete` call returns the
/// next queued response, and records the prompt it was given.
pub struct FixtureProvider {
    pub responses: VecDeque<String>,
    pub captured_prompts: Vec<String>,
}

impl FixtureProvider {
    /// A provider that will answer with `responses`, in order.
    pub fn new(responses: Vec<String>) -> (r: Self)
        ensures
            r.responses@ == responses@,
            r.captured_prompts@.len() == 0,
    {
        let mut q: VecDeque<String> = VecDeque::new();
        let mut i: usize = 0;
        while i < responses.len()
            invariant
                i <= responses@.len(),
                q@ == responses@.subrange(0, i as int),
            decreases responses.len() - i,
        {
            q.push_back(responses[i].clone());
            assert(q@ =~= responses@.subrange(0, i + 1));
            i += 1;
        }
        assert(responses@.subrange(0, responses@.len() as int) =~= responses@);
        FixtureProvider { responses: q, captured_prompts: Vec::new() }
    }
}

/// The error a `FixtureProvider` gives once its queue is empty.
pub open spec fn fixture_empty_message() -> Seq<char> {
    "FixtureProvider queue is empty"@
}

impl LlmProvider for FixtureProvider {
    fn complete(&mut self, prompt: &str) -> (r: Result<String, String>)
        ensures
            final(self).captured_prompts@.len() == old(self).captured_prompts@.len() + 1,
            final(self).captured_prompts@.last()@ == prompt@,
            forall|i: int|
                0 <= i < old(self).captured_prompts@.len() ==> final(self).captured_prompts@[i]
                    == old(self).captured_prompts@[i],
            old(self).responses@.len() > 0 ==> r == Ok::<String, String>(old(self).responses@[0])
                && final(self).responses@ == old(self).responses@.drop_first(),
            old(self).responses@.len() == 0 ==> (r matches Err(e) && e@ == fixture_empty_message()),
            old(self).responses@.len() == 0 ==> final(self).responses@.len() == 0,
    {
        self.captured_prompts.push(owned(prompt));
        match self.responses.pop_front() {
            Some(s) => Ok(s),
            None => Err(owned("FixtureProvider queue is empty")),
        }
    }

    fn name(&self) -> (r: &str)
        ensures
            r@ == "fixture"@,
    {
        "fixture"
    }
}

/// A provider that runs an external command: the prompt is written to
/// its stdin and the reply read from its stdout. Running the command is
/// the application's part; this is its configuration.
pub struct CommandProvider {
    pub program: String,
    pub args: Vec<String>,
}

impl CommandProvider {
    pub fn new(program: String, args: Vec<String>) -> (r: Self)
        ensures
            r.program@ == program@,
            r.args@ == args@,
    {
        CommandProvider { program, args }
    }
}

// ---------------------------------------------------------------------------
// Loop configuration and records
// ---------------------------------------------------------------------------

/// Settings for one run of the authoring loop.
pub struct LoopOptions {
    /// Maximum prompt+verify rounds before giving up (the initial
    /// generation included).
    pub max_rounds: u32,
    /// Directory for per-round JSONL traces; `None` disables tracing.
    pub trace_dir: Option<String>,
    /// Path used in verify diagnostics and trace metadata.
    pub source_path: Option<String>,
    /// Whether each prompt is copied into the trace.
    pub log_prompts: bool,
}

impl LoopOptions {
    /// Five rounds, no tracing, no source path, prompts logged.
    pub fn default() -> (r: Self)
        ensures
            r.max_rounds == 5,
            r.trace_dir is None,
            r.source_path is None,
            r.log_prompts,
    {
        LoopOptions { max_rounds: 5, trace_dir: None, source_path: None, log_prompts: true }
    }
}

/// One round of the loop.
pub struct LoopRound {
    pub round: u32,
    pub prompt: String,
    pub response: String,
    pub verify_json: String,
    pub passed: bool,
}

/// Result of running the loop to convergence or to the round limit.
pub struct LoopOutcome {
    pub final_source: String,
    pub passed: bool,
    pub rounds: Vec<LoopRound>,
    pub trace_path: Option<String>,
}

// ---------------------------------------------------------------------------
// Source extraction
// ---------------------------------------------------------------------------

pub open spec fn fence() -> Seq<char> {
    seq!['`', '`', '`']
}

pub open spec fn twe_fence() -> Seq<char> {
    seq!['`', '`', '`', 't', 'w', 'e']
}

/// The body of a fenced block starting right after its opening fence:
/// the text up to the next fence, with trailing whitespace removed.
pub open spec fn fenced_body(body: Seq<char>) -> Option<Seq<char>> {
    match find(body, fence()) {
        Some(e) => Some(trim_end(body.subrange(0, e))),
        None => None,
    }
}

/// First attempt: a block opened by "```twe" (one newline after the
/// fence is skipped).
pub open spec fn extract_tagged(r: Seq<char>) -> Option<Seq<char>> {
    match find(r, twe_fence()) {
        Some(a) => {
            let b0 = r.subrange(a + 6, r.len() as int);
            let b = if b0.len() > 0 && b0[0] == '\n' {
                b0.drop_first()
            } else {
                b0
            };
            fenced_body(b)
        },
        None => None,
    }
}

/// Second attempt: a block opened by a bare "```"; a language tag on
/// the fence line is skipped unless that line itself holds a fence.
pub open spec fn extract_untagged(r: Seq<char>) -> Option<Seq<char>> {
    match find(r, fence()) {
        Some(a) => {
            let b0 = r.subrange(a + 3, r.len() as int);
            let b = match find(b0, seq!['\n']) {
                Some(nl) => if !contains(b0.subrange(0, nl), fence()) {
                    b0.subrange(nl + 1, b0.len() as int)
                } else {
                    b0
                },
                None => b0,
            };
            fenced_body(b)
        },
        None => None,
    }
}

/// The program text an LLM reply carries: the first "```twe" block,
/// else the first "```" block, else the whole reply trimmed.
pub open spec fn extracted_source(r: Seq<char>) -> Seq<char> {
    match extract_tagged(r) {
        Some(x) => x,
        None => match extract_untagged(r) {
            Some(x) => x,
            None => trim(r),
        },
    }
}

fn fenced_body_exec(body: &Vec<char>) -> (r: Option<String>)
    ensures
        r matches Some(s) ==> fenced_body(body@) == Some(s@),
        r is None ==> fenced_body(body@) is None,
{
    let f = vec!['`', '`', '`'];
    assert(f@ =~= fence());
    match find_chars(body, &f) {
        Some(e) => {
            proof { lemma_find_from_props(body@, fence(), 0); }
            let end = skip_ws_back(body, 0, e);
            let s = slice_vec(body, 0, end);
            Some(string_of(&s))
        },
        None => None,
    }
}

/// Pull a program out of an LLM reply: the first ```twe fenced block,
/// else the first ``` block (skipping a language tag line), else the
/// whole reply trimmed.
pub fn extract_twe_source(reply: &str) -> (r: String)
    ensures
        r@ == extracted_source(reply@),
{
    let v = chars_of(reply);
    let n = v.len();
    let tf = vec!['`', '`', '`', 't', 'w', 'e'];
    assert(tf@ =~= twe_fence());
    if let Some(a) = find_chars(&v, &tf) {
        proof { lemma_find_from_props(v@, twe_fence(), 0); }
        let b0 = slice_vec(&v, a + 6, n);
        let b = if b0.len() > 0 && b0[0] == '\n' {
            let b1 = slice_vec(&b0, 1, b0.len());
            assert(b1@ =~= b0@.drop_first());
            b1
        } else {
            b0
        };
        if let Some(s) = fenced_body_exec(&b) {
            return s;
        }
    }
    let f = vec!['`', '`', '`'];
    assert(f@ =~= fence());
    if let Some(a) = find_chars(&v, &f) {
        proof { lemma_find_from_props(v@, fence(), 0); }
        let b0 = slice_vec(&v, a + 3, n);
        let nl = vec!['\n'];
        let b = match find_chars(&b0, &nl) {
            Some(k) => {
                proof { lemma_find_from_props(b0@, seq!['\n'], 0); }
                assert(nl@ =~= seq!['\n']);
                let head = slice_vec(&b0, 0, k);
                if !contains_chars(&head, &f) {
                    slice_vec(&b0, k + 1, b0.len())
                } else {
                    b0
                }
            },
            None => {
                assert(nl@ =~= seq!['\n']);
                b0
            },
        };
        if let Some(s) = fenced_body_exec(&b) {
            return s;
        }
    }
    let (s, e) = trim_bounds(&v, 0, n);
    assert(v@.subrange(0, n as int) =~= v@);
    let t = slice_vec(&v, s, e);
    string_of(&t)
}

// ---------------------------------------------------------------------------
// Follow-up prompt and trace strings
// ---------------------------------------------------------------------------

pub open spec fn followup_head() -> Seq<char> {
    "Your previous Twe program failed verification. Below is the program you produced and the structured diagnostics from `twec verify`. Apply the suggested fixes (each diagnostic carries a `fix.edits` array with anchored replacements you can apply mechanically) and emit a corrected program inside a single ```twe fenced block.\n\nPrevious program:\n```twe\n"@
}

pub open spec fn followup_middle() -> Seq<char> {
    "\n```\n\nVerify diagnostics (JSON v2):\n"@
}

pub open spec fn followup_tail() -> Seq<char> {
    "\n\nReply with the corrected program only — no commentary outside the code fence."@
}

/// The prompt for the next round: the previous program and the
/// verifier's JSON report, framed by fixed instructions.
pub fn build_followup_prompt(prev_source: &str, verify_json: &str) -> (r: String)
    ensures
        r@ == followup_head() + prev_source@ + followup_middle() + verify_json@ + followup_tail(),
{
    let mut s = String::new();
    push_str(&mut s, "Your previous Twe program failed verification. Below is the program you produced and the structured diagnostics from `twec verify`. Apply the suggested fixes (each diagnostic carries a `fix.edits` array with anchored replacements you can apply mechanically) and emit a corrected program inside a single ```twe fenced block.\n\nPrevious program:\n```twe\n");
    push_str(&mut s, prev_source);
    push_str(&mut s, "\n```\n\nVerify diagnostics (JSON v2):\n");
    push_str(&mut s, verify_json);
    push_str(&mut s, "\n\nReply with the corrected program only — no commentary outside the code fence.");
    s
}

/// Appends `value` as a JSON string literal.
pub fn write_json_string(out: &mut String, value: &str)
    ensures
        final(out)@ == old(out)@ + json_quote(value@),
{
    push_json_str(out, value);
}

/// The trace file name for a provider and a timestamp (seconds):
/// `llm_loop_<provider>_<ts>.jsonl`.
pub fn trace_filename(provider_name: &str, ts: u64) -> (r: String)
    ensures
        r@ == "llm_loop_"@ + provider_name@ + "_"@ + dec(ts as nat) + ".jsonl"@,
{
    let mut s = String::new();
    push_str(&mut s, "llm_loop_");
    push_str(&mut s, provider_name);
    push_str(&mut s, "_");
    push_decimal(&mut s, ts);
    push_str(&mut s, ".jsonl");
    s
}

// ---------------------------------------------------------------------------
// The loop's decisions
// ---------------------------------------------------------------------------

/// (round, prompt, response, verify JSON, passed).
pub open spec fn round_view(r: LoopRound) -> (u32, Seq<char>, Seq<char>, Seq<char>, bool) {
    (r.round, r.prompt@, r.response@, r.verify_json@, r.passed)
}

pub open spec fn rounds_view(v: Seq<LoopRound>) -> Seq<(u32, Seq<char>, Seq<char>, Seq<char>, bool)> {
    v.map_values(|r: LoopRound| round_view(r))
}

pub open spec fn opt_view(o: Option<String>) -> Option<Seq<char>> {
    match o {
        Some(s) => Some(s@),
        None => None,
    }
}

/// The loop between rounds: the prompt for the next round and the rounds
/// so far. The caller sends the prompt to the provider, verifies the
/// extracted program, and reports back with `record_round`.
pub struct LoopDriver {
    max_rounds: u32,
    log_prompts: bool,
    prompt: String,
    rounds: Vec<LoopRound>,
    trace_path: Option<String>,
}

/// After a round: go on with the next prompt, or the loop's outcome.
pub enum LoopStep {
    Continue(LoopDriver),
    Done(LoopOutcome),
}

impl LoopDriver {
    pub closed spec fn spec_prompt(&self) -> Seq<char> {
        self.prompt@
    }

    pub closed spec fn spec_rounds(&self) -> Seq<(u32, Seq<char>, Seq<char>, Seq<char>, bool)> {
        rounds_view(self.rounds@)
    }

    pub closed spec fn spec_max_rounds(&self) -> u32 {
        self.max_rounds
    }

    pub closed spec fn spec_log_prompts(&self) -> bool {
        self.log_prompts
    }

    pub closed spec fn spec_trace_path(&self) -> Option<Seq<char>> {
        opt_view(self.trace_path)
    }

    /// Fewer rounds than the limit, numbered from 1, none of them passed.
    pub closed spec fn wf(&self) -> bool {
        &&& self.rounds@.len() < self.max_rounds
        &&& forall|i: int| 0 <= i < self.rounds@.len() ==> (#[trigger] self.rounds@[i]).round == i + 1 && !self.rounds@[i].passed
    }

    /// The loop before its first round: the user's prompt, no rounds.
    pub fn start(initial_prompt: &str, options: &LoopOptions, trace_path: Option<String>) -> (r: LoopDriver)
        requires
            options.max_rounds >= 1,
        ensures
            r.wf(),
            r.spec_prompt() == initial_prompt@,
            r.spec_rounds().len() == 0,
            r.spec_max_rounds() == options.max_rounds,
            r.spec_log_prompts() == options.log_prompts,
            r.spec_trace_path() == opt_view(trace_path),
    {
        let r = LoopDriver {
            max_rounds: options.max_rounds,
            log_prompts: options.log_prompts,
            prompt: owned(initial_prompt),
            rounds: Vec::new(),
            trace_path,
        };
        assert(rounds_view(r.rounds@) =~= Seq::empty());
        r
    }

    /// The prompt for the next round.
    pub fn prompt(&self) -> (r: &String)
        ensures
            r@ == self.spec_prompt(),
    {
        &self.prompt
    }

    /// The rounds so far.
    pub fn rounds(&self) -> (r: &Vec<LoopRound>)
        ensures
            rounds_view(r@) == self.spec_rounds(),
    {
        &self.rounds
    }

    /// Records a round from the provider's `response` and the verifier's
    /// report on the program extracted from it. A passing program, or the
    /// last allowed round, ends the loop with that program; otherwise the
    /// next prompt shows the program and its diagnostics.
    pub fn record_round(self, response: String, verify_json: String, passed: bool) -> (r: LoopStep)
        requires
            self.wf(),
        ensures
            ({
                let n = self.spec_rounds().len();
                let src = extracted_source(response@);
                let rec = ((n + 1) as u32, if self.spec_log_prompts() { self.spec_prompt() } else { Seq::empty() }, response@, verify_json@, passed);
                let all = self.spec_rounds().push(rec);
                match r {
                    LoopStep::Done(o) => {
                        &&& passed || n + 1 == self.spec_max_rounds()
                        &&& o.final_source@ == src
                        &&& o.passed == passed
                        &&& rounds_view(o.rounds@) == all
                        &&& opt_view(o.trace_path) == self.spec_trace_path()
                    },
                    LoopStep::Continue(d) => {
                        &&& !passed && n + 1 < self.spec_max_rounds()
                        &&& d.wf()
                        &&& d.spec_prompt() == followup_head() + src + followup_middle() + verify_json@ + followup_tail()
                        &&& d.spec_rounds() == all
                        &&& d.spec_max_rounds() == self.spec_max_rounds()
                        &&& d.spec_log_prompts() == self.spec_log_prompts()
                        &&& d.spec_trace_path() == self.spec_trace_path()
                    },
                }
            }),
    {
        let LoopDriver { max_rounds, log_prompts, prompt, rounds, trace_path } = self;
        let mut rounds = rounds;
        let ghost r0 = rounds@;
        let source = extract_twe_source(response.as_str());
        let n = rounds.len();
        let round: u32 = (n + 1) as u32;
        let logged = if log_prompts { prompt } else { String::new() };
        let followup = build_followup_prompt(source.as_str(), verify_json.as_str());
        rounds.push(LoopRound { round, prompt: logged, response, verify_json, passed });
        assert(rounds_view(rounds@) =~= rounds_view(r0).push(round_view(rounds@.last())));
        if passed || round == max_rounds {
            LoopStep::Done(LoopOutcome { final_source: source, passed, rounds, trace_path })
        } else {
            LoopStep::Continue(LoopDriver { max_rounds, log_prompts, prompt: followup, rounds, trace_path })
        }
    }
}

/// A finished loop stopped for one of the two documented reasons: the
/// last program passed, or the round limit was reached; it never ran
/// past the limit.
pub proof fn law_loop_stops_on_pass_or_limit(d: LoopDriver, response: String, verify_json: String, passed: bool, o: LoopOutcome)
    requires
        d.wf(),
        ({
            let n = d.spec_rounds().len();
            &&& passed || n + 1 == d.spec_max_rounds()
            &&& o.passed == passed
            &&& rounds_view(o.rounds@) == d.spec_rounds().push(((n + 1) as u32, if d.spec_log_prompts() { d.spec_prompt() } else { Seq::empty() }, response@, verify_json@, passed))
        }),
    ensures
        o.rounds@.len() <= d.spec_max_rounds(),
        o.passed || o.rounds@.len() == d.spec_max_rounds(),
        o.rounds@.last().passed == o.passed,
{
    assert(o.rounds@.len() == rounds_view(o.rounds@).len());
    assert(round_view(o.rounds@.last()) == rounds_view(o.rounds@).last());
}

/// One JSONL trace record of a round (with its trailing newline).
pub open spec fn trace_record(rec: LoopRound, provider_name: Seq<char>, errors: usize, warnings: usize) -> Seq<char> {
    "{\"tool\":\"twec-llm-loop\",\"version\":1,\"provider\":"@ + json_quote(provider_name) + ",\"round\":"@
        + dec(rec.round as nat) + ",\"passed\":"@ + (if rec.passed { "true"@ } else { "false"@ }) + ",\"errors\":"@
        + dec(errors as nat) + ",\"warnings\":"@ + dec(warnings as nat) + ",\"prompt\":"@ + json_quote(rec.prompt@)
        + ",\"response\":"@ + json_quote(rec.response@) + ",\"verify\":"@ + rec.verify_json@ + "}\n"@
}

/// The trace record of `rec`, with the verifier's error and warning counts.
#[verifier::rlimit(40)]
pub fn trace_line(rec: &LoopRound, provider_name: &str, errors: usize, warnings: usize) -> (r: String)
    ensures
        r@ == trace_record(*rec, provider_name@, errors, warnings),
{
    let mut s = String::new();
    push_str(&mut s, "{\"tool\":\"twec-llm-loop\",\"version\":1,\"provider\":");
    write_json_string(&mut s, provider_name);
    push_str(&mut s, ",\"round\":");
    push_decimal(&mut s, rec.round as u64);
    push_str(&mut s, ",\"passed\":");
    if rec.passed {
        push_str(&mut s, "true");
    } else {
        push_str(&mut s, "false");
    }
    push_str(&mut s, ",\"errors\":");
    push_decimal(&mut s, errors as u64);
    push_str(&mut s, ",\"warnings\":");
    push_decimal(&mut s, warnings as u64);
    push_str(&mut s, ",\"prompt\":");
    write_json_string(&mut s, rec.prompt.as_str());
    push_str(&mut s, ",\"response\":");
    write_json_string(&mut s, rec.response.as_str());
    push_str(&mut s, ",\"verify\":");
    push_str(&mut s, rec.verify_json.as_str());
    push_str(&mut s, "}\n");
    assert(s@ =~= trace_record(*rec, provider_name@, errors, warnings));
    s
}

} // verus!
