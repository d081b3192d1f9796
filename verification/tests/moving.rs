use matterless_view::moving::{Moving, Reel, WHEN_UNSAID};

/// Somewhere on the window's clock, in nanoseconds.
const NOW: u64 = 5_000_000_000_000;
const MILLI: u64 = 1_000_000;
const SECOND: u64 = 1_000_000_000;

fn reel(now: u64, delays: [u64; 3]) -> Reel {
    Reel::new(
        4,
        4,
        delays
            .into_iter()
            .map(|ms| (vec![0u8; 64], ms * MILLI))
            .collect(),
        now,
    )
}

/// The frame is the one the clock asks for, and the loop comes round.
#[test]
fn the_clock_decides_which_frame() {
    let now = NOW;
    let reel = reel(now, [100, 100, 100]);
    assert_eq!(reel.at(now), 0);
    assert_eq!(reel.at(now + 50 * MILLI), 0);
    assert_eq!(reel.at(now + 150 * MILLI), 1);
    assert_eq!(reel.at(now + 250 * MILLI), 2);
    assert_eq!(reel.at(now + 350 * MILLI), 0);
    assert_eq!(reel.at(now + 3600 * SECOND), 0);
}

/// A file that asks for no delay at all gets one anyway.
#[test]
fn a_frame_that_asks_for_nothing_still_lasts() {
    let now = NOW;
    let unsaid = reel(now, [0, 0, 0]);
    assert_eq!(unsaid.round(), u128::from(WHEN_UNSAID * 3));
    assert_eq!(unsaid.at(now + 50 * MILLI), 0);
    assert_eq!(unsaid.at(now + 150 * MILLI), 1);
    assert_eq!(reel(now, [10, 10, 10]).round(), u128::from(WHEN_UNSAID * 3));
    assert_eq!(reel(now, [40, 40, 40]).round(), u128::from(120 * MILLI));
}

/// The next wake is when the frame showing runs out, not a frame later.
#[test]
fn it_wakes_when_the_frame_runs_out() {
    let now = NOW;
    let reel = reel(now, [100, 100, 100]);
    let next = reel.next(now).expect("a frame is due");
    let waits = next.saturating_sub(now);
    assert!(
        waits > 90 * MILLI && waits <= 100 * MILLI,
        "waited {waits:?}"
    );
    let part = now + 60 * MILLI;
    let waits = reel.next(part).expect("a frame is due") - part;
    assert!(waits <= 41 * MILLI, "waited {waits:?}");
}

/// What asks for a frame is a frame coming due, not a clock running out.
#[test]
fn a_frame_coming_due_is_what_asks_for_a_draw() {
    let now = NOW;
    let mut moving = Moving::default();
    moving.keep("emoji/wave", reel(now, [100, 100, 100]));
    assert!(
        moving.overdue(now, |_| true),
        "nothing is showing at all yet"
    );
    moving.due(now, |_| true);
    assert!(
        !moving.overdue(now, |_| true),
        "the first frame is up and current"
    );
    assert!(!moving.overdue(now + 50 * MILLI, |_| true));
    assert!(
        moving.overdue(now + 150 * MILLI, |_| true),
        "the second frame is due and the first is still showing"
    );
    assert!(!moving.overdue(now + 60 * SECOND, |_| false));
}

/// A picture of one frame is a picture, not an animation.
#[test]
fn a_single_frame_never_asks_for_a_wake() {
    let now = NOW;
    let still = Reel::new(4, 4, vec![(vec![0u8; 64], 100 * MILLI)], now);
    assert!(still.next(now).is_none());
    let mut moving = Moving::default();
    moving.keep("emoji/one", still);
    assert!(moving.wakes(now, |_| true).is_none());
}

/// Only what is on screen moves, and only what moves is uploaded.
#[test]
fn nothing_off_screen_costs_anything() {
    let now = NOW;
    let mut moving = Moving::default();
    moving.keep("emoji/seen", reel(now, [100, 100, 100]));
    moving.keep("emoji/hidden", reel(now, [100, 100, 100]));

    let due = moving.due(now, |key| key == "emoji/seen");
    assert_eq!(due.len(), 1, "only the one being drawn");
    assert_eq!(due[0].0, "emoji/seen");
    assert!(moving.due(now, |key| key == "emoji/seen").is_empty());
    let wake = moving.wakes(now, |key| key == "emoji/hidden");
    assert!(wake.is_some(), "it would wake if it were drawn");
    assert!(moving.wakes(now, |_| false).is_none());
}

/// The next frame goes up when its time comes.
#[test]
fn the_next_frame_goes_up_when_it_is_due() {
    let now = NOW;
    let mut moving = Moving::default();
    moving.keep("emoji/wave", reel(now, [100, 100, 100]));
    assert_eq!(moving.due(now, |_| true).len(), 1);
    assert!(moving.due(now + 50 * MILLI, |_| true).is_empty());
    assert_eq!(moving.due(now + 150 * MILLI, |_| true).len(), 1);
}

#[test]
fn a_reel_kept_twice_under_one_key_is_held_once() {
    let mut moving = Moving::new();
    assert!(moving.is_empty());
    moving.keep("emoji/a", reel(NOW, [100, 100, 100]));
    moving.keep("emoji/a", reel(NOW, [50, 50, 50]));
    assert_eq!(moving.len(), 1);
    assert!(moving.holds("emoji/a"));
    assert!(!moving.holds("emoji/b"));
}

#[test]
fn a_reel_counts_its_pictures_bytes() {
    let reel = reel(NOW, [100, 100, 100]);
    assert_eq!(reel.bytes(), 3 * 64);
}
