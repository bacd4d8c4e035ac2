//! Decisions of the play loop that do not touch the window: the
//! hot-reload debounce gate and the pause-on-blur switch.
//!
//! A file's modification time is carried as a signed count of
//! nanoseconds from the Unix epoch (negative before it), which keeps
//! two times equal exactly when the times are.
use vstd::prelude::*;

verus! {

/// Consecutive stable polls a changed modification time must survive
/// before the reload fires.
pub const RELOAD_DEBOUNCE_FRAMES: u32 = 6;

/// Debounces hot reload: a changed modification time starts a
/// countdown, a further change restarts it, and the reload fires once
/// the time has stayed put for the whole countdown.
pub struct ReloadGate {
    /// The modification time last loaded (or the initial one).
    reloaded_mtime: Option<i128>,
    /// A changed time and the polls left before it is loaded.
    pending: Option<(i128, u32)>,
}

/// (loaded time, pending change and polls left).
pub type GateState = (Option<i128>, Option<(i128, u32)>);

impl View for ReloadGate {
    type V = GateState;

    closed spec fn view(&self) -> GateState {
        (self.reloaded_mtime, self.pending)
    }
}

/// Gate transition.
pub open spec fn gate_step(s: GateState, cur: Option<i128>) -> (GateState, bool) {
    match cur {
        None => (s, false),
        Some(c) => {
            if s.0 == Some(c) {
                ((s.0, None), false)
            } else {
                match s.1 {
                    None => ((s.0, Some((c, RELOAD_DEBOUNCE_FRAMES))), false),
                    Some((p, frames)) => {
                        if p != c {
                            ((s.0, Some((c, RELOAD_DEBOUNCE_FRAMES))), false)
                        } else if frames > 1 {
                            ((s.0, Some((p, (frames - 1) as u32))), false)
                        } else {
                            ((Some(p), None), true)
                        }
                    },
                }
            }
        },
    }
}

impl ReloadGate {
    /// A gate that has loaded `initial_mtime` and waits for a change.
    pub fn new(initial_mtime: Option<i128>) -> (r: ReloadGate)
        ensures
            r@ == (initial_mtime, None::<(i128, u32)>),
    {
        ReloadGate { reloaded_mtime: initial_mtime, pending: None }
    }

    /// One poll with the file's current modification time (`None` when
    /// the file cannot be read, which counts as no change). Returns
    /// whether to reload now.
    pub fn should_reload(&mut self, cur: Option<i128>) -> (r: bool)
        ensures
            (final(self)@, r) == gate_step(old(self)@, cur),
    {
        let c = match cur {
            None => return false,
            Some(c) => c,
        };
        if self.reloaded_mtime == Some(c) {
            self.pending = None;
            return false;
        }
        match self.pending {
            None => {
                self.pending = Some((c, RELOAD_DEBOUNCE_FRAMES));
                false
            },
            Some((p, frames)) => {
                if p != c {
                    self.pending = Some((c, RELOAD_DEBOUNCE_FRAMES));
                    false
                } else if frames > 1 {
                    self.pending = Some((p, frames - 1));
                    false
                } else {
                    self.pending = None;
                    self.reloaded_mtime = Some(p);
                    true
                }
            },
        }
    }
}

/// The answers of `n` polls that all see the time `cur`.
pub open spec fn feed(s: GateState, cur: i128, n: nat) -> Seq<bool>
    decreases n,
{
    if n == 0 {
        Seq::empty()
    } else {
        let (next, fired) = gate_step(s, Some(cur));
        seq![fired] + feed(next, cur, (n - 1) as nat)
    }
}

proof fn lemma_feed_settled(s: GateState, cur: i128, n: nat)
    requires
        s.0 == Some(cur),
    ensures
        feed(s, cur, n).len() == n,
        forall|i: int| 0 <= i < n ==> !#[trigger] feed(s, cur, n)[i],
    decreases n,
{
    if n > 0 {
        let next = gate_step(s, Some(cur)).0;
        lemma_feed_settled(next, cur, (n - 1) as nat);
        assert forall|i: int| 0 <= i < n implies !#[trigger] feed(s, cur, n)[i] by {
            if i > 0 {
                assert(feed(s, cur, n)[i] == feed(next, cur, (n - 1) as nat)[i - 1]);
            }
        }
    }
}

proof fn lemma_feed_pending(s: GateState, cur: i128, f: u32, n: nat)
    requires
        s.0 != Some(cur),
        s.1 == Some((cur, f)),
        1 <= f,
    ensures
        feed(s, cur, n).len() == n,
        forall|i: int| 0 <= i < n ==> #[trigger] feed(s, cur, n)[i] == (i == f - 1),
    decreases n,
{
    if n > 0 {
        let next = gate_step(s, Some(cur)).0;
        if f > 1 {
            lemma_feed_pending(next, cur, (f - 1) as u32, (n - 1) as nat);
        } else {
            lemma_feed_settled(next, cur, (n - 1) as nat);
        }
        assert forall|i: int| 0 <= i < n implies #[trigger] feed(s, cur, n)[i] == (i == f - 1) by {
            if i > 0 {
                assert(feed(s, cur, n)[i] == feed(next, cur, (n - 1) as nat)[i - 1]);
            }
        }
    }
}

/// A gate that is not already waiting on `cur` and has not loaded it,
/// polled any number of times with `cur`, reloads exactly once: on the
/// poll after the countdown (index `RELOAD_DEBOUNCE_FRAMES`).
pub proof fn law_reload_fires_once_per_stable_change(s: GateState, cur: i128, n: nat)
    requires
        s.0 != Some(cur),
        !(s.1 matches Some((p, _)) && p == cur),
    ensures
        feed(s, cur, n).len() == n,
        forall|i: int| 0 <= i < n ==> #[trigger] feed(s, cur, n)[i] == (i == RELOAD_DEBOUNCE_FRAMES),
{
    if n > 0 {
        let next = gate_step(s, Some(cur)).0;
        assert(next.1 == Some((cur, RELOAD_DEBOUNCE_FRAMES)));
        lemma_feed_pending(next, cur, RELOAD_DEBOUNCE_FRAMES, (n - 1) as nat);
        assert forall|i: int| 0 <= i < n implies #[trigger] feed(s, cur, n)[i] == (i == RELOAD_DEBOUNCE_FRAMES) by {
            if i > 0 {
                assert(feed(s, cur, n)[i] == feed(next, cur, (n - 1) as nat)[i - 1]);
            }
        }
    }
}

/// An unreadable file, or the time already loaded, never fires.
pub proof fn law_reload_quiet_without_change(s: GateState, cur: Option<i128>)
    requires
        cur is None || s.0 == cur,
    ensures
        !gate_step(s, cur).1,
{
}

// ---------------------------------------------------------------------------
// Pause on focus loss
// ---------------------------------------------------------------------------

/// Pauses the game when its window loses focus and resumes it when focus
/// returns, but only a pause it drove itself.
pub struct BlurAutoPause {
    last_focused: bool,
    paused_by_us: bool,
}

/// What the caller does to the game's pause flag.
#[derive(Clone, Copy, Debug, PartialEq, Eq)]
pub enum PauseAction {
    Leave,
    Pause,
    Resume,
}

impl View for BlurAutoPause {
    type V = (bool, bool);

    closed spec fn view(&self) -> (bool, bool) {
        (self.last_focused, self.paused_by_us)
    }
}

/// One frame: (last focused, paused by us), the switch, the focus and
/// the game's pause flag give the next state and the action.
pub open spec fn blur_step(s: (bool, bool), enabled: bool, focused: bool, is_paused: bool) -> ((bool, bool), PauseAction) {
    if !enabled {
        ((focused, false), PauseAction::Leave)
    } else if s.0 && !focused {
        if !is_paused {
            ((focused, true), PauseAction::Pause)
        } else {
            ((focused, s.1), PauseAction::Leave)
        }
    } else if !s.0 && focused && s.1 {
        ((focused, false), PauseAction::Resume)
    } else {
        ((focused, s.1), PauseAction::Leave)
    }
}

impl BlurAutoPause {
    /// Starts as focused, so a start without focus does not pause.
    pub fn new() -> (r: BlurAutoPause)
        ensures
            r@ == (true, false),
    {
        BlurAutoPause { last_focused: true, paused_by_us: false }
    }

    /// One frame: `enabled` is the script's switch, `focused` the
    /// window's focus, `is_paused` the game's pause flag.
    pub fn tick(&mut self, enabled: bool, focused: bool, is_paused: bool) -> (r: PauseAction)
        ensures
            (final(self)@, r) == blur_step(old(self)@, enabled, focused, is_paused),
    {
        if !enabled {
            self.paused_by_us = false;
            self.last_focused = focused;
            return PauseAction::Leave;
        }
        let mut action = PauseAction::Leave;
        if self.last_focused && !focused {
            if !is_paused {
                action = PauseAction::Pause;
                self.paused_by_us = true;
            }
        } else if !self.last_focused && focused && self.paused_by_us {
            action = PauseAction::Resume;
            self.paused_by_us = false;
        }
        self.last_focused = focused;
        action
    }
}

/// A resume only ever undoes a pause this switch made: it needs the
/// flag that only its own pause sets.
pub proof fn law_blur_resumes_only_its_own_pause(s: (bool, bool), enabled: bool, focused: bool, is_paused: bool)
    requires
        blur_step(s, enabled, focused, is_paused).1 == PauseAction::Resume,
    ensures
        s.1,
{
}

} // verus!
