use twec::play::{BlurAutoPause, PauseAction, ReloadGate, RELOAD_DEBOUNCE_FRAMES};

const SECOND: i128 = 1_000_000_000;

fn t0() -> i128 {
    1_000_000 * SECOND
}

#[test]
fn no_change_never_fires() {
    let mut g = ReloadGate::new(Some(t0()));
    for _ in 0..100 {
        assert!(!g.should_reload(Some(t0())));
    }
}

#[test]
fn stable_change_fires_after_debounce() {
    let mut g = ReloadGate::new(Some(t0()));
    let new = t0() + SECOND;
    assert!(!g.should_reload(Some(new)));
    for _ in 0..(RELOAD_DEBOUNCE_FRAMES - 1) {
        assert!(!g.should_reload(Some(new)));
    }
    assert!(g.should_reload(Some(new)));
    for _ in 0..10 {
        assert!(!g.should_reload(Some(new)));
    }
}

#[test]
fn churning_mtime_resets_countdown() {
    let mut g = ReloadGate::new(Some(t0()));
    let mid = t0() + SECOND;
    let later = t0() + 2 * SECOND;
    assert!(!g.should_reload(Some(mid)));
    assert!(!g.should_reload(Some(later)));
    for _ in 0..(RELOAD_DEBOUNCE_FRAMES - 1) {
        assert!(!g.should_reload(Some(later)));
    }
    assert!(g.should_reload(Some(later)));
}

#[test]
fn unreadable_file_does_not_fire() {
    let mut g = ReloadGate::new(Some(t0()));
    for _ in 0..10 {
        assert!(!g.should_reload(None));
    }
}

#[test]
fn revert_to_loaded_mtime_clears_pending() {
    let mut g = ReloadGate::new(Some(t0()));
    let new = t0() + SECOND;
    assert!(!g.should_reload(Some(new)));
    assert!(!g.should_reload(Some(t0())));
    for _ in 0..100 {
        assert!(!g.should_reload(Some(t0())));
    }
}

#[test]
fn gate_without_initial_time_fires_on_first_stable_time() {
    let mut g = ReloadGate::new(None);
    let fired: Vec<bool> = (0..10).map(|_| g.should_reload(Some(t0()))).collect();
    let want: Vec<bool> = (0..10).map(|i| i == 6).collect();
    assert_eq!(fired, want);
}

#[test]
fn blur_pauses_and_resumes_its_own_pause() {
    let mut b = BlurAutoPause::new();
    assert_eq!(b.tick(true, true, false), PauseAction::Leave);
    assert_eq!(b.tick(true, false, false), PauseAction::Pause);
    assert_eq!(b.tick(true, false, true), PauseAction::Leave);
    assert_eq!(b.tick(true, true, true), PauseAction::Resume);
}

#[test]
fn blur_leaves_a_manual_pause_alone() {
    let mut b = BlurAutoPause::new();
    assert_eq!(b.tick(true, false, true), PauseAction::Leave);
    assert_eq!(b.tick(true, true, true), PauseAction::Leave);
}

#[test]
fn blur_disabled_forgets_its_pause() {
    let mut b = BlurAutoPause::new();
    assert_eq!(b.tick(true, false, false), PauseAction::Pause);
    assert_eq!(b.tick(false, false, true), PauseAction::Leave);
    assert_eq!(b.tick(true, true, true), PauseAction::Leave);
}
