use matterless_view::session::{Act, Driver, Shaping, thread_name, worth_raising};
use matterless_view::session::{DRIVER_TYPES, Drive, another_channel, driver_typed, driving, title};
use matterless_view::session::announcing;
use matterless_view::session::conversation;

/// "Not now" means this one, and only this one.
#[test]
fn a_refused_version_is_not_raised_again_and_a_newer_one_is() {
    assert!(worth_raising(None, "0.3.5"), "nothing was refused");
    assert!(
        !worth_raising(Some("0.3.5"), "0.3.5"),
        "the version just dismissed came straight back"
    );
    assert!(
        worth_raising(Some("0.3.5"), "0.3.6"),
        "refusing one build silenced every build after it"
    );
}

/// A driver with no window, wound by hand.
fn driver(each: u32) -> Driver {
    Driver {
        at: 0,
        each,
        left: each,
        warm: Driver::WARM,
        tick: 0,
        did: 0,
    }
}

/// Winds a whole act and reports what it was called and what it counted.
fn wind(driver: &mut Driver, each: u32) -> (&'static str, u32) {
    let mut done = None;
    for _ in 0..Driver::WARM + each {
        if driver.counting() {
            driver.did += 1;
        }
        done = driver.drew().or(done);
    }
    done.expect("an act that never ended")
}

/// The warm-up is not part of what the act cost.
#[test]
fn only_the_measured_frames_are_counted() {
    let mut driver = driver(50);
    let (what, did) = wind(&mut driver, 50);
    assert_eq!(what, Act::Still.what());
    assert_eq!(did, 50, "the warm-up was counted with the act");
}

/// The clock runs from the act's first frame, warm-up included.
#[test]
fn the_clock_never_stands_still() {
    let mut driver = driver(10);
    let mut ticks = Vec::new();
    for _ in 0..Driver::WARM + 10 {
        ticks.push(driver.tick);
        driver.drew();
    }
    assert_eq!(ticks[0], 0);
    assert_eq!(ticks[1], 1, "held still through the warm-up: {ticks:?}");
    assert_eq!(
        ticks.last(),
        Some(&(Driver::WARM + 9)),
        "the clock stopped somewhere: {ticks:?}"
    );
}

/// Every act is measured, once, in order, and then the run is over.
#[test]
fn a_run_is_every_act_and_then_the_end() {
    let mut driver = driver(5);
    let mut named = Vec::new();
    for _ in 0..Act::EVERY.len() {
        named.push(wind(&mut driver, 5).0);
    }
    let expected: Vec<&str> = Act::EVERY.iter().map(|act| act.what()).collect();
    assert_eq!(named, expected);
    assert!(driver.over(), "the run did not end");
    assert_eq!(driver.act(), None, "an act past the last of them");
    assert_eq!(driver.drew(), None, "it kept going after the end");
}

/// The first frame of an act is the one that puts the window back where
/// every act starts, and no other frame is.
#[test]
fn only_an_acts_first_frame_is_a_fresh_one() {
    let mut driver = driver(5);
    assert!(driver.fresh(), "the very first frame");
    driver.drew();
    assert!(!driver.fresh(), "still fresh a frame later");
    for _ in 0..Driver::WARM + 5 - 1 {
        driver.drew();
    }
    assert!(driver.fresh(), "the next act did not start fresh");
}

#[test]
fn a_new_driver_is_at_the_first_frame_of_the_first_act() {
    let made = Driver::new(7);
    assert_eq!(made, driver(7));
    assert_eq!(made.act(), Some(Act::Still));
    assert!(made.fresh());
    assert!(!made.counting());
}

#[test]
fn the_acts_are_named_in_the_order_a_run_takes_them() {
    let names: Vec<&str> = Act::EVERY.iter().map(|act| act.what()).collect();
    assert_eq!(
        names,
        vec![
            "still",
            "scrolling",
            "switching channel",
            "typing",
            "opening a thread",
            "dragging the edge",
            "dragging the bottom edge",
        ]
    );
}

#[test]
fn a_count_is_handed_back_with_the_act_and_then_forgotten() {
    let mut driver = driver(1);
    for _ in 0..Driver::WARM {
        assert_eq!(driver.drew(), None);
    }
    assert!(driver.counting());
    driver.did = 3;
    assert_eq!(driver.drew(), Some(("still", 3)));
    assert_eq!(driver.did, 0);
    assert_eq!(driver.act(), Some(Act::Scrolling));
    assert_eq!(driver.tick, 0);
}

#[test]
fn a_pass_is_named_for_what_it_shaped() {
    assert_eq!(Shaping::Everything.of("all", "some"), "all");
    assert_eq!(Shaping::WhatShows.of("all", "some"), "some");
}

#[test]
fn a_thread_is_named_after_its_root() {
    assert_eq!(thread_name("p42"), "thread/p42");
    assert_eq!(thread_name(""), "thread/");
}

#[test]
fn only_a_draft_of_nothing_but_the_drivers_word_is_the_drivers() {
    assert!(driver_typed(DRIVER_TYPES, 0));
    assert!(driver_typed("mesure mesure mesure ", 0));
    assert!(driver_typed("  mesure\nmesure", 0));
    assert!(!driver_typed("mesure", 1), "something was attached");
    assert!(!driver_typed("", 0), "nothing was typed");
    assert!(!driver_typed("   ", 0));
    assert!(!driver_typed("mesure measure", 0));
    assert!(!driver_typed("mesures", 0));
    assert!(!driver_typed("mesur", 0));
}

#[test]
fn each_act_keeps_its_own_rhythm() {
    assert_eq!(driving(Act::Still, 17), Drive::Still);
    assert_eq!(driving(Act::Scrolling, 0), Drive::Wheel { down: true });
    assert_eq!(driving(Act::Scrolling, 29), Drive::Wheel { down: true });
    assert_eq!(driving(Act::Scrolling, 30), Drive::Wheel { down: false });
    assert_eq!(driving(Act::Scrolling, 60), Drive::Wheel { down: true });
    assert_eq!(driving(Act::Switching, 40), Drive::Switch);
    assert_eq!(driving(Act::Switching, 41), Drive::Wait);
    assert_eq!(driving(Act::Typing, 90), Drive::Clear);
    assert_eq!(driving(Act::Typing, 91), Drive::Type);
    assert_eq!(driving(Act::Threading, 16), Drive::Thread);
    assert_eq!(driving(Act::Threading, 17), Drive::Wait);
    assert_eq!(driving(Act::Resizing, 0), Drive::Width(900));
    assert_eq!(driving(Act::Resizing, 59), Drive::Width(900 + 59 * 4));
    assert_eq!(driving(Act::Resizing, 60), Drive::Width(900 + 60 * 4));
    assert_eq!(driving(Act::Resizing, 61), Drive::Width(900 + 59 * 4));
    assert_eq!(driving(Act::Resizing, 120), Drive::Width(900));
    assert_eq!(driving(Act::Heightening, 30), Drive::Height(500 + 30 * 4));
}

fn ids(names: &[&str]) -> Vec<String> {
    names.iter().map(|name| name.to_string()).collect()
}

#[test]
fn the_next_channel_walks_on_and_comes_back_round() {
    let every = ids(&["a", "b", "c"]);
    assert_eq!(another_channel(&every, Some("a")), Some("b".to_string()));
    assert_eq!(another_channel(&every, Some("c")), Some("a".to_string()));
    assert_eq!(another_channel(&every, Some("z")), Some("a".to_string()));
    assert_eq!(another_channel(&every, None), Some("a".to_string()));
    assert_eq!(another_channel(&ids(&[]), Some("a")), None);
    assert_eq!(
        another_channel(&ids(&["a"]), Some("a")),
        None,
        "the reader is in one channel and no others"
    );
}

#[test]
fn the_window_is_called_what_is_open() {
    let channels = vec![
        ("c1".to_string(), "Town Square".to_string()),
        ("c2".to_string(), "Off-Topic".to_string()),
    ];
    assert_eq!(title(true, false, Some("c1"), &channels), "Threads");
    assert_eq!(title(false, true, Some("c1"), &channels), "Sample conversation");
    assert_eq!(title(false, false, None, &channels), "");
    assert_eq!(title(false, false, Some("c2"), &channels), "Off-Topic");
    assert_eq!(title(false, false, Some("c9"), &channels), "c9");
}

#[test]
fn what_the_reader_is_looking_at_is_not_announced() {
    let channels = ids(&["c1", "c2", "c1", "c3"]);
    assert_eq!(announcing(&channels, true, Some("c1"), false), (vec![1, 3], false));
    // Behind another window nothing is being read, so everything is.
    assert_eq!(announcing(&channels, false, Some("c1"), false), (vec![0, 1, 2, 3], true));
    // Opened quietly: nothing raised and nothing asked for.
    assert_eq!(announcing(&channels, false, Some("c1"), true), (vec![], false));
    // Nothing left to announce asks for no attention.
    assert_eq!(announcing(&ids(&["c1"]), false, None, false), (vec![0], true));
    assert_eq!(announcing(&ids(&["c1", "c1"]), true, Some("c1"), false), (vec![], false));
    assert_eq!(announcing(&ids(&[]), false, None, false), (vec![], false));
}

#[test]
fn a_reply_is_kept_under_its_thread_and_a_message_under_its_channel() {
    assert_eq!(conversation("c1", ""), "c1");
    assert_eq!(conversation("c1", "p7"), "thread/p7");
}
