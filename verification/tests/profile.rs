use matterless_view::profile::{Card, Profile, Shown, last_online, spell};
use matterless_view::profile::full_name;

fn someone() -> Card {
    Card {
        user_id: "u1".into(),
        username: "ada".into(),
        full_name: "Ada Lovelace".into(),
        nickname: "Analyst".into(),
        status: "online".into(),
        avatar_at: 7,
        email: "ada@example.invalid".into(),
        position: "Analyst".into(),
        last_active: 0,
    }
}

/// Worded as the official card words it.
#[test]
fn last_online_is_worded_as_the_app_words_it() {
    let minute = 60_000;
    let now = 100_000 * minute;
    assert_eq!(last_online("online", now - 7 * minute, now), None);
    assert_eq!(last_online("away", 0, now), None, "nobody said");
    assert_eq!(
        last_online("away", now - 20_000, now).as_deref(),
        Some("Last online just now")
    );
    assert_eq!(
        last_online("offline", now - 7 * minute, now).as_deref(),
        Some("Last online 7 min. ago")
    );
    assert_eq!(
        last_online("offline", now - 150 * minute, now).as_deref(),
        Some("Last online 2 hr. ago")
    );
    assert_eq!(
        last_online("offline", now - 30 * 60 * minute, now).as_deref(),
        Some("Last online yesterday")
    );
    assert_eq!(
        last_online("offline", now - 5 * 24 * 60 * minute, now).as_deref(),
        Some("Last online 5 days ago")
    );
}

#[test]
fn each_unit_starts_where_the_last_one_ends() {
    let minute = 60_000;
    let now = 10_000_000 * minute;
    let said = |minutes: i64| last_online("away", now - minutes * minute, now);
    assert_eq!(said(1).as_deref(), Some("Last online 1 min. ago"));
    assert_eq!(said(59).as_deref(), Some("Last online 59 min. ago"));
    assert_eq!(said(60).as_deref(), Some("Last online 1 hr. ago"));
    assert_eq!(said(1439).as_deref(), Some("Last online 23 hr. ago"));
    assert_eq!(said(1440).as_deref(), Some("Last online yesterday"));
    assert_eq!(said(2879).as_deref(), Some("Last online yesterday"));
    assert_eq!(said(2880).as_deref(), Some("Last online 2 days ago"));
    assert_eq!(said(1440 * 400).as_deref(), Some("Last online 400 days ago"));
    // A clock behind the server's says no time has passed rather than a
    // negative one.
    assert_eq!(
        last_online("away", now + minute, now).as_deref(),
        Some("Last online just now")
    );
    assert_eq!(last_online("", -5, now), None);
}

#[test]
fn numbers_are_spelled_in_decimal() {
    assert_eq!(spell(0), "0");
    assert_eq!(spell(7), "7");
    assert_eq!(spell(10), "10");
    assert_eq!(spell(1234567890), "1234567890");
    assert_eq!(spell(u64::MAX), u64::MAX.to_string());
}

/// The click that opens the card does not also close it.
#[test]
fn the_press_that_opens_the_card_is_not_the_one_that_shuts_it() {
    let mut profile = Profile::default();
    profile.show(someone());
    assert!(profile.opening(), "the press that opened it");
    assert!(
        !profile.opening(),
        "and only that one -- the next click has to be able to shut it"
    );
}

/// Answered once whether or not anything acted on it.
#[test]
fn opening_is_forgotten_even_when_nobody_acts_on_it() {
    let mut profile = Profile::default();
    profile.show(someone());
    profile.put_away();
    assert!(
        !profile.opening(),
        "a card that was shut still claimed to be opening"
    );
    assert!(!profile.open());
}

/// Presence is the dot on the face, never a line of words, and when somebody
/// is not about, the card says when they last were.
#[test]
fn presence_is_on_the_face_and_absence_says_since_when() {
    let now = 1_700_000_000_000;
    let mut profile = Profile::default();
    profile.show(someone());
    assert!(
        profile.lines(now).iter().all(|(said, _)| said != "online"),
        "the status was said in words"
    );
    assert!(
        profile
            .lines(now)
            .iter()
            .all(|(_, shown)| *shown != Shown::LastOnline),
        "somebody who is online has no last-online line"
    );
    let away = Card {
        status: "away".into(),
        last_active: 1_000,
        ..someone()
    };
    profile.show(away);
    let (said, shown) = profile.lines(now).first().cloned().expect("lines");
    assert_eq!(shown, Shown::LastOnline);
    assert!(said.starts_with("Last online"), "{said}");
}

/// Only what the server actually holds.
#[test]
fn an_empty_field_is_left_out_rather_than_drawn_blank() {
    let mut profile = Profile::default();
    profile.show(Card {
        full_name: String::new(),
        nickname: String::new(),
        status: String::new(),
        position: String::new(),
        ..someone()
    });
    assert_eq!(profile.lines(0).len(), 1);
    profile.show(someone());
    assert_eq!(profile.lines(0).len(), 4);
}

#[test]
fn the_card_reads_name_then_handle_then_the_rest() {
    let mut profile = Profile::default();
    profile.show(someone());
    assert_eq!(
        profile.lines(0),
        vec![
            ("Ada Lovelace".to_string(), Shown::Name),
            ("@ada".to_string(), Shown::Handle),
            ("Analyst".to_string(), Shown::Nickname),
            ("Analyst".to_string(), Shown::Position),
        ]
    );
    profile.show(Card {
        full_name: String::new(),
        ..someone()
    });
    assert_eq!(profile.lines(0)[0], ("@ada".to_string(), Shown::Name));
}

#[test]
fn a_shut_card_says_nothing() {
    let profile = Profile::default();
    assert!(!profile.open());
    assert!(profile.lines(0).is_empty());
    let card = Card::default();
    assert!(card.username.is_empty() && card.last_active == 0);
}

#[test]
fn a_real_name_is_first_and_last_with_nothing_round_it() {
    assert_eq!(full_name("Ada", "Lovelace"), "Ada Lovelace");
    assert_eq!(full_name("Ada", ""), "Ada");
    assert_eq!(full_name("", "Lovelace"), "Lovelace");
    assert_eq!(full_name("", ""), "");
    assert_eq!(full_name(" Ada ", " Lovelace "), "Ada   Lovelace");
}
