use matterless_view::rest::{REST, Rest};

/// Somewhere on the window's clock, in nanoseconds.
const NOW: u64 = 1_000_000_000_000;
const MILLI: u64 = 1_000_000;
const SECOND: u64 = 1_000_000_000;

#[test]
fn a_divider_goes_once_it_has_been_looked_at() {
    let now = NOW;
    let mut rest = Rest::default();
    rest.begin(now, true);
    assert!(!rest.ripened(now + REST - MILLI));
    assert!(rest.ripened(now + REST));
    assert!(!rest.ripened(now + REST * 2));
}

/// A channel opened behind another window has not been read.
#[test]
fn the_clock_does_not_run_while_the_window_is_away() {
    let now = NOW;
    let mut rest = Rest::default();
    rest.begin(now, false);
    assert_eq!(rest.wakes(), None, "nothing to wake for");
    assert!(!rest.ripened(now + REST * 10));
    rest.focus(now + REST * 10, true);
    assert!(!rest.ripened(now + REST * 10));
    assert!(rest.ripened(now + REST * 11));
}

/// Three seconds here, away, three seconds here.
#[test]
fn what_is_owed_survives_looking_away() {
    let now = NOW;
    let mut rest = Rest::default();
    rest.begin(now, true);
    let left = REST - 3 * SECOND;
    rest.focus(now + 3 * SECOND, false);
    assert_eq!(rest, Rest::Paused(left));
    rest.focus(now + 3600 * SECOND, true);
    assert!(!rest.ripened(now + 3600 * SECOND));
    assert!(rest.ripened(now + 3600 * SECOND + left));
}

/// Marking a message unread is asking for the divider.
#[test]
fn a_stopped_clock_never_ripens() {
    let now = NOW;
    let mut rest = Rest::default();
    rest.begin(now, true);
    rest.stop();
    assert_eq!(rest.wakes(), None);
    assert!(!rest.ripened(now + REST * 10));
    rest.focus(now + REST, true);
    assert!(!rest.ripened(now + REST * 10));
}

#[test]
fn a_running_clock_wakes_when_it_runs_out() {
    let mut rest = Rest::default();
    rest.begin(NOW, true);
    assert_eq!(rest.wakes(), Some(NOW + REST));
    assert_eq!(REST, 4 * SECOND);
    // Looking away after the time ran out owes nothing.
    rest.focus(NOW + REST + SECOND, false);
    assert_eq!(rest, Rest::Paused(0));
}
