//! A lightweight tracing profiler: scopes record (name, start, duration)
//! events while profiling is on, and the buffered events render as a
//! Chrome Tracing document (`{"traceEvents":[...]}`).
//!
//! The profiler's state is a `Profiler` value that the program owns and
//! hands to each call; a scope is closed by `Scope::finish`.
use vstd::prelude::*;
use std::time::{Duration, Instant};
use crate::text::{dec, owned, push_char, push_decimal, push_str};

verus! {

#[verifier::external_type_specification]
#[verifier::external_body]
pub struct ExInstant(std::time::Instant);

/// The current instant: calls `Instant::now`. Nothing is claimed of the
/// value, which depends on the clock.
#[verifier::external_body]
fn instant_now() -> Instant {
    Instant::now()
}

/// The time since `start`: calls `Instant::elapsed`. Nothing is claimed
/// of the value, which depends on the clock.
#[verifier::external_body]
fn elapsed_since(start: &Instant) -> Duration {
    start.elapsed()
}

/// `later - earlier`: calls `Instant::duration_since`, which saturates at
/// zero. Nothing is claimed of the value.
#[verifier::external_body]
fn duration_between(later: &Instant, earlier: &Instant) -> Duration {
    later.duration_since(*earlier)
}

/// Whole microseconds of `d`, truncated to 64 bits: calls
/// `Duration::as_micros`. Nothing is claimed of the value.
#[verifier::external_body]
fn whole_micros(d: &Duration) -> u64 {
    d.as_micros() as u64
}

/// One complete event of the trace.
pub struct TraceEvent {
    pub name: String,
    /// Microseconds since profiling was enabled.
    pub ts_us: u64,
    /// Duration in microseconds.
    pub dur_us: u64,
}

/// The profiler's state: the on/off switch, when profiling was enabled,
/// and the buffered events.
pub struct Profiler {
    enabled: bool,
    t0: Option<Instant>,
    events: Vec<TraceEvent>,
}

impl Profiler {
    pub closed spec fn spec_enabled(&self) -> bool {
        self.enabled
    }

    pub closed spec fn spec_started(&self) -> bool {
        self.t0 is Some
    }

    pub closed spec fn spec_events(&self) -> Seq<TraceEvent> {
        self.events@
    }

    /// A profiler that is off, has never been on, and holds no events.
    pub fn new() -> (r: Profiler)
        ensures
            !r.spec_enabled(),
            !r.spec_started(),
            r.spec_events().len() == 0,
    {
        Profiler { enabled: false, t0: None, events: Vec::new() }
    }

    /// The buffered events, oldest first.
    pub fn events(&self) -> (r: &Vec<TraceEvent>)
        ensures
            r@ == self.spec_events(),
    {
        &self.events
    }

    /// Appends a finished event when profiling is on; does nothing when
    /// it is off.
    pub fn record(&mut self, name: String, ts_us: u64, dur_us: u64)
        ensures
            final(self).spec_enabled() == old(self).spec_enabled(),
            final(self).spec_started() == old(self).spec_started(),
            old(self).spec_enabled() ==> final(self).spec_events() == old(self).spec_events().push(
                TraceEvent { name, ts_us, dur_us },
            ),
            !old(self).spec_enabled() ==> final(self).spec_events() == old(self).spec_events(),
    {
        if self.enabled {
            self.events.push(TraceEvent { name, ts_us, dur_us });
        }
    }
}

/// Turns profiling on: the time origin becomes now, and the buffer is
/// emptied.
pub fn enable(p: &mut Profiler)
    ensures
        final(p).spec_enabled(),
        final(p).spec_started(),
        final(p).spec_events().len() == 0,
{
    p.enabled = true;
    p.t0 = Some(instant_now());
    p.events = Vec::new();
}

/// Turns profiling off; the buffered events stay.
pub fn disable(p: &mut Profiler)
    ensures
        !final(p).spec_enabled(),
        final(p).spec_started() == old(p).spec_started(),
        final(p).spec_events() == old(p).spec_events(),
{
    p.enabled = false;
}

pub fn is_enabled(p: &Profiler) -> (r: bool)
    ensures
        r == p.spec_enabled(),
{
    p.enabled
}

/// An open scope: a name and the instant it was opened.
pub struct Scope {
    name: String,
    start: Instant,
}

impl Scope {
    pub closed spec fn spec_name(&self) -> Seq<char> {
        self.name@
    }

    /// Opens a scope named `name` now.
    pub fn new(name: &str) -> (r: Scope)
        ensures
            r.spec_name() == name@,
    {
        Scope { name: owned(name), start: instant_now() }
    }

    /// Closes the scope: while profiling is on, records one event named
    /// after the scope, timed from the profiler's origin (0 if it has
    /// none); while it is off, records nothing.
    pub fn finish(self, p: &mut Profiler)
        ensures
            final(p).spec_enabled() == old(p).spec_enabled(),
            final(p).spec_started() == old(p).spec_started(),
            old(p).spec_enabled() ==> {
                &&& final(p).spec_events().len() == old(p).spec_events().len() + 1
                &&& final(p).spec_events().drop_last() == old(p).spec_events()
                &&& final(p).spec_events().last().name@ == self.spec_name()
                &&& !old(p).spec_started() ==> final(p).spec_events().last().ts_us == 0
            },
            !old(p).spec_enabled() ==> final(p).spec_events() == old(p).spec_events(),
    {
        if !is_enabled(p) {
            return;
        }
        let d = elapsed_since(&self.start);
        let dur_us = whole_micros(&d);
        let ts_us = match &p.t0 {
            Some(t0) => {
                let since = duration_between(&self.start, t0);
                whole_micros(&since)
            },
            None => 0,
        };
        let ghost before = p.events@;
        p.record(self.name, ts_us, dur_us);
        assert(p.events@.drop_last() =~= before);
    }
}

/// Opens a scope only while profiling is on.
pub fn scope(p: &Profiler, name: &str) -> (r: Option<Scope>)
    ensures
        p.spec_enabled() ==> (r matches Some(s) && s.spec_name() == name@),
        !p.spec_enabled() ==> r is None,
{
    if is_enabled(p) {
        Some(Scope::new(name))
    } else {
        None
    }
}

// ---------------------------------------------------------------------------
// Chrome Tracing output
// ---------------------------------------------------------------------------

/// A name with `\` and `"` backslash-escaped.
pub open spec fn escape_name(s: Seq<char>) -> Seq<char>
    decreases s.len(),
{
    if s.len() == 0 {
        Seq::empty()
    } else {
        escape_name(s.drop_last()) + (if s.last() == '\\' {
            seq!['\\', '\\']
        } else if s.last() == '"' {
            seq!['\\', '"']
        } else {
            seq![s.last()]
        })
    }
}

pub open spec fn event_json(e: TraceEvent) -> Seq<char> {
    "{\"name\":\""@ + escape_name(e.name@) + "\",\"cat\":\"twe\",\"ph\":\"X\",\"pid\":1,\"tid\":1,\"ts\":"@
        + dec(e.ts_us as nat) + ",\"dur\":"@ + dec(e.dur_us as nat) + "}"@
}

/// The events' JSON objects joined by commas.
pub open spec fn events_json(evs: Seq<TraceEvent>) -> Seq<char>
    decreases evs.len(),
{
    if evs.len() == 0 {
        Seq::empty()
    } else if evs.len() == 1 {
        event_json(evs[0])
    } else {
        events_json(evs.drop_last()) + ","@ + event_json(evs.last())
    }
}

pub open spec fn chrome_trace(evs: Seq<TraceEvent>) -> Seq<char> {
    "{\"traceEvents\":["@ + events_json(evs) + "]}"@
}

fn push_escaped_name(out: &mut String, name: &str)
    ensures
        final(out)@ == old(out)@ + escape_name(name@),
{
    let n = name.unicode_len();
    let mut i: usize = 0;
    while i < n
        invariant
            n == name@.len(),
            i <= n,
            out@ == old(out)@ + escape_name(name@.subrange(0, i as int)),
        decreases n - i,
    {
        let c = name.get_char(i);
        assert(name@.subrange(0, i + 1).drop_last() =~= name@.subrange(0, i as int));
        if c == '\\' {
            push_char(out, '\\');
            push_char(out, '\\');
        } else if c == '"' {
            push_char(out, '\\');
            push_char(out, '"');
        } else {
            push_char(out, c);
        }
        assert(out@ =~= old(out)@ + escape_name(name@.subrange(0, i + 1)));
        i += 1;
    }
    assert(name@.subrange(0, n as int) =~= name@);
}

fn push_event_json(out: &mut String, e: &TraceEvent)
    ensures
        final(out)@ == old(out)@ + event_json(*e),
{
    push_str(out, "{\"name\":\"");
    push_escaped_name(out, e.name.as_str());
    push_str(out, "\",\"cat\":\"twe\",\"ph\":\"X\",\"pid\":1,\"tid\":1,\"ts\":");
    push_decimal(out, e.ts_us);
    push_str(out, ",\"dur\":");
    push_decimal(out, e.dur_us);
    push_str(out, "}");
    assert(out@ =~= old(out)@ + event_json(*e));
}

/// Renders the buffered events as a Chrome Tracing document and empties
/// the buffer.
pub fn render_chrome_trace(p: &mut Profiler) -> (r: String)
    ensures
        r@ == chrome_trace(old(p).spec_events()),
        final(p).spec_events().len() == 0,
        final(p).spec_enabled() == old(p).spec_enabled(),
        final(p).spec_started() == old(p).spec_started(),
{
    let mut out = String::new();
    push_str(&mut out, "{\"traceEvents\":[");
    let ghost head = out@;
    let mut i: usize = 0;
    while i < p.events.len()
        invariant
            i <= p.events@.len(),
            p.events@ == old(p).events@,
            out@ == head + events_json(p.events@.subrange(0, i as int)),
        decreases p.events.len() - i,
    {
        let ghost sub = p.events@.subrange(0, i + 1);
        assert(sub.drop_last() =~= p.events@.subrange(0, i as int));
        if i > 0 {
            push_str(&mut out, ",");
        }
        push_event_json(&mut out, &p.events[i]);
        assert(sub.last() == p.events@[i as int]);
        assert(i == 0 ==> sub[0] == p.events@[0]);
        assert(out@ =~= head + events_json(sub));
        i += 1;
    }
    assert(p.events@.subrange(0, p.events@.len() as int) =~= p.events@);
    push_str(&mut out, "]}");
    p.events = Vec::new();
    assert(out@ =~= chrome_trace(old(p).spec_events()));
    out
}

} // verus!
