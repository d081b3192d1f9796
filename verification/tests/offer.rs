use matterless_view::input::{Input, Key};
use matterless_view::offer::{Chose, Offer, Suggestion, parse_index};
use matterless_view::offer::{Face, nameable, person};

fn some(names: &[&str]) -> Vec<Suggestion> {
    names
        .iter()
        .map(|name| Suggestion {
            insert: (*name).to_string(),
            label: (*name).to_string(),
            face: None,
        })
        .collect()
}

fn one(name: &str) -> Option<Chose> {
    Some(Chose::Name(Suggestion {
        insert: name.to_string(),
        label: name.to_string(),
        face: None,
    }))
}

fn struck(key: Key) -> Input {
    Input::key(key)
}

/// The arrows walk the list and wrap.
#[test]
fn the_arrows_walk_the_list_and_wrap() {
    let mut offer = Offer::default();
    offer.show('@', "a", some(&["amy", "ada", "alex"]));
    assert_eq!(offer.chosen, 0);

    offer.react(&struck(Key::Down));
    assert_eq!(offer.chosen, 1);
    offer.react(&struck(Key::Up));
    offer.react(&struck(Key::Up));
    assert_eq!(offer.chosen, 2, "up from the first goes to the last");
    offer.react(&struck(Key::Down));
    assert_eq!(offer.chosen, 0, "and down from the last comes back");
}

/// Return takes the chosen row, and Escape takes none.
#[test]
fn return_takes_the_chosen_row_and_escape_takes_none() {
    let mut offer = Offer::default();
    offer.show('@', "a", some(&["amy", "ada"]));
    offer.react(&struck(Key::Down));

    assert_eq!(offer.react(&struck(Key::Enter)), one("ada"));
    assert_eq!(offer.react(&struck(Key::Tab)), one("ada"));
    assert_eq!(offer.react(&struck(Key::Escape)), Some(Chose::Nothing));
}

/// Typing another letter keeps the row already walked to; typing something
/// else does not.
#[test]
fn a_longer_query_keeps_the_chosen_row() {
    let mut offer = Offer::default();
    offer.show('@', "a", some(&["amy", "ada", "alex"]));
    offer.react(&struck(Key::Down));
    assert_eq!(offer.chosen, 1);

    offer.show('@', "ad", some(&["ada", "adam"]));
    assert_eq!(offer.chosen, 1, "the same question, more of it typed");

    offer.show('@', "b", some(&["ben", "bea"]));
    assert_eq!(offer.chosen, 0, "a different question starts at the top");
}

/// A list shorter than the row already chosen never points past its end.
#[test]
fn a_shrinking_list_never_points_past_itself() {
    let mut offer = Offer::default();
    offer.show('@', "a", some(&["amy", "ada", "alex"]));
    offer.react(&struck(Key::Down));
    offer.react(&struck(Key::Down));
    assert_eq!(offer.chosen, 2);

    offer.show('@', "amy", some(&["amy"]));
    assert_eq!(offer.chosen, 0);
    assert_eq!(offer.react(&struck(Key::Enter)), one("amy"));
}

/// Nothing found is nothing shown.
#[test]
fn nothing_found_is_not_open() {
    let mut offer = Offer::default();
    offer.show('@', "zzz", Vec::new());
    assert!(!offer.open());
    assert_eq!(offer.react(&struck(Key::Enter)), None);
}

#[test]
fn another_sigil_starts_at_the_top() {
    let mut offer = Offer::default();
    offer.show('@', "a", some(&["amy", "ada", "alex"]));
    offer.react(&struck(Key::Down));
    offer.show('~', "a", some(&["art", "all"]));
    assert_eq!(offer.chosen, 0);
}

#[test]
fn a_put_away_list_answers_nothing() {
    let mut offer = Offer::default();
    offer.show('@', "a", some(&["amy", "ada"]));
    assert!(offer.open());
    offer.put_away();
    assert!(!offer.open());
    assert_eq!(offer.react(&struck(Key::Enter)), None);
}

#[test]
fn at_most_six_rows_are_shown() {
    let mut offer = Offer::default();
    offer.show('@', "a", some(&["a1", "a2", "a3", "a4", "a5", "a6", "a7", "a8"]));
    assert_eq!(offer.shown(), 6);
    offer.show('@', "a", some(&["a1", "a2"]));
    assert_eq!(offer.shown(), 2);
}

#[test]
fn a_press_on_a_row_takes_it() {
    let mut offer = Offer::default();
    offer.show('@', "a", some(&["amy", "ada"]));
    let mut input = Input::quiet();
    input.clicked = Some("offer/row/1".into());
    assert_eq!(offer.react(&input), one("ada"));
}

#[test]
fn an_index_is_read_as_usize_parsing_reads_it() {
    assert_eq!(parse_index("0"), Some(0));
    assert_eq!(parse_index("42"), Some(42));
    assert_eq!(parse_index("+7"), Some(7));
    assert_eq!(parse_index(""), None);
    assert_eq!(parse_index("+"), None);
    assert_eq!(parse_index("-1"), None);
    assert_eq!(parse_index("1a"), None);
    assert_eq!(parse_index("99999999999999999999999"), None);
    assert_eq!(parse_index("007"), Some(7));
}

#[test]
fn a_person_is_read_by_their_name_and_mentioned_by_their_handle() {
    let amy = person("Amy", "Jones", "amy", "u1", 3);
    assert_eq!(amy.insert, "amy");
    assert_eq!(amy.label, "Amy Jones  amy");
    assert_eq!(
        amy.face,
        Some(Face {
            user_id: "u1".into(),
            avatar_at: 3
        })
    );
    assert_eq!(person("", "", "bot", "u2", 0).label, "bot");
    assert_eq!(person("Cher", "", "cher", "u3", 0).label, "Cher  cher");
    assert_eq!(person(" ", " ", "x", "u4", 0).label, "x");
}

#[test]
fn only_open_and_private_channels_can_be_named() {
    assert!(nameable("O"));
    assert!(nameable("P"));
    assert!(!nameable("D"));
    assert!(!nameable("G"));
    assert!(!nameable(""));
    assert!(!nameable("OP"));
}
