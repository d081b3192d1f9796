use matterless_view::input::{Input, Key};
use matterless_view::picker::{Choice, mark_of, owns, step};
use matterless_view::picker::{Group, Picker, asked_for, custom_room};

#[test]
fn the_picker_owns_its_panel_tiles_tabs_and_bar() {
    assert!(owns("picker"));
    assert!(owns("picker/12"));
    assert!(owns("picker/tab/3"));
    assert!(owns("picker/scrollbar"));
    assert!(!owns("pickers"));
    assert!(!owns("menu/picker"));
    assert!(!owns(""));
    assert!(!owns("picke"));
}

fn table(name: &str) -> Option<String> {
    match name {
        "smile" => Some("\u{1f604}".to_string()),
        "grinning" => Some("\u{1f600}".to_string()),
        _ => None,
    }
}

#[test]
fn a_tab_shows_its_representative() {
    let mark = mark_of("Smileys", &["grinning", "smile"], table);
    assert_eq!(
        mark,
        Choice {
            name: "smile".into(),
            unicode: Some("\u{1f604}".into()),
            id: None
        }
    );
}

#[test]
fn a_tab_falls_back_to_its_first_and_then_to_its_name() {
    // The table cannot draw a wave, so the group's first is shown.
    let mark = mark_of("People", &["grinning"], table);
    assert_eq!(mark.name, "grinning");
    assert_eq!(mark.unicode.as_deref(), Some("\u{1f600}"));
    // A group with no representative and nothing drawable is its own name.
    let mark = mark_of("Custom", &["parrot"], table);
    assert_eq!(
        mark,
        Choice {
            name: "Custom".into(),
            unicode: None,
            id: None
        }
    );
    let mark = mark_of("Flags", &[], table);
    assert_eq!(mark.name, "Flags");
    assert!(mark.unicode.is_none());
}

#[test]
fn the_arrows_walk_the_grid_and_stop_at_its_ends() {
    let right = Input::key(Key::Right);
    let left = Input::key(Key::Left);
    let down = Input::key(Key::Down);
    let up = Input::key(Key::Up);
    assert_eq!(step(0, 20, &right), (1, true));
    assert_eq!(step(19, 20, &right), (19, true), "never past the last");
    assert_eq!(step(0, 20, &left), (0, true), "never before the first");
    assert_eq!(step(3, 20, &down), (11, true));
    assert_eq!(step(15, 20, &down), (19, true), "a short last row");
    assert_eq!(step(11, 20, &up), (3, true));
    assert_eq!(step(5, 20, &up), (0, true));
    assert_eq!(step(4, 20, &Input::quiet()), (4, false));
    assert_eq!(step(0, 0, &right), (0, true));
    assert_eq!(step(0, 0, &down), (0, true));
}

#[test]
fn every_arrow_in_one_frame_is_taken_in_turn() {
    let mut input = Input::quiet();
    input.struck = vec![Key::Down, Key::Right];
    // Right first, then down.
    assert_eq!(step(0, 40, &input), (9, true));
    input.struck = vec![Key::Enter];
    assert_eq!(step(2, 40, &input), (2, false));
}

#[test]
fn the_press_that_opens_the_picker_does_not_shut_it() {
    let mut picker = Picker::default();
    assert!(!picker.open());
    picker.show("p1");
    assert!(picker.open());
    assert_eq!(picker.for_post.as_deref(), Some("p1"));
    assert!(picker.opening(), "the press that opened it");
    assert!(!picker.opening(), "and only that one");
    picker.put_away();
    assert!(!picker.open());
    assert!(!picker.opening());
}

fn names(of: &[(&str, Option<&str>)]) -> Vec<(String, Option<String>)> {
    of.iter()
        .map(|(name, character)| (name.to_string(), character.map(str::to_string)))
        .collect()
}

fn group(name: &str, of: &[(&str, Option<&str>)]) -> Group {
    Group {
        name: name.into(),
        names: names(of),
        mark: Choice {
            name: format!("{name} mark"),
            unicode: None,
            id: None,
        },
    }
}

fn groups() -> Vec<Group> {
    vec![
        group("Smileys", &[("smile", Some("S")), ("grin", Some("G"))]),
        group("Blank", &[("nothing", None)]),
        group("Food", &[("apple", Some("A")), ("pear", None), ("plum", Some("P"))]),
    ]
}

fn customs() -> Vec<(String, String)> {
    vec![("parrot".to_string(), "e1".to_string())]
}

#[test]
fn the_arrows_move_the_chosen_tile() {
    let mut picker = Picker::default();
    picker.show("p1");
    let many: Vec<(String, Option<String>)> =
        (0..30).map(|at| (format!("e{at}"), Some("x".to_string()))).collect();
    assert!(picker.ask("e", &Vec::new(), &Vec::new(), &many));
    assert!(picker.stepped(&Input::key(Key::Down)));
    assert_eq!(picker.chosen, 8);
    assert!(!picker.stepped(&Input::quiet()));
    assert_eq!(picker.chosen, 8);
    picker.show("p2");
    assert_eq!(picker.chosen, 0, "a fresh picker starts at the first tile");
}

#[test]
fn with_nothing_typed_it_offers_every_group_in_turn() {
    let mut picker = Picker::default();
    picker.show("p1");
    assert!(picker.ask("", &customs(), &groups(), &Vec::new()));
    assert_eq!(picker.tile("picker/0").as_deref(), Some("parrot"), "their own first");
    assert_eq!(picker.tile("picker/1").as_deref(), Some("smile"));
    assert_eq!(picker.tile("picker/3").as_deref(), Some("apple"));
    assert_eq!(picker.tile("picker/4").as_deref(), Some("plum"));
    assert_eq!(picker.tile("picker/5"), None, "what cannot be drawn takes no cell");
    // A tab for each group that put something in, at where it starts.
    assert_eq!(picker.tab_row("picker/tab/0"), Some(0));
    assert_eq!(picker.tab_row("picker/tab/1"), Some(0));
    assert_eq!(picker.tab_row("picker/tab/2"), None, "the blank group has no tab");
    assert_eq!(picker.pictures(), vec!["e1".to_string()]);
    assert_eq!(picker.entered().as_deref(), Some("parrot"));
    // The same question again changes nothing.
    picker.stepped(&Input::key(Key::Right));
    assert!(!picker.ask("", &customs(), &groups(), &Vec::new()));
    assert_eq!(picker.chosen, 1);
}

#[test]
fn a_search_offers_what_matched_and_no_groups() {
    let mut picker = Picker::default();
    picker.show("p1");
    let matched = names(&[("plum", Some("P")), ("pear", None), ("peach", Some("C"))]);
    assert!(picker.ask("p", &customs(), &groups(), &matched));
    assert_eq!(picker.tile("picker/1").as_deref(), Some("plum"));
    assert_eq!(picker.tile("picker/2").as_deref(), Some("peach"));
    assert_eq!(picker.tile("picker/3"), None);
    assert_eq!(picker.tab_row("picker/tab/0"), None);
    assert_eq!(picker.tile("picker/tab/0"), None);
}

#[test]
fn a_search_is_cut_to_what_can_be_walked() {
    let mut picker = Picker::default();
    picker.show("p1");
    let many: Vec<(String, Option<String>)> =
        (0..500).map(|at| (format!("e{at}"), Some("x".to_string()))).collect();
    picker.ask("e", &customs(), &Vec::new(), &many);
    assert!(picker.tile("picker/319").is_some());
    assert!(picker.tile("picker/320").is_none(), "forty rows and no more");
}

#[test]
fn a_query_is_asked_trimmed_and_in_lower_case() {
    assert_eq!(asked_for("  Bong \t"), "bong");
    assert_eq!(asked_for("ÉCLAIR"), "éclair");
    assert_eq!(asked_for("   "), "");
    assert_eq!(custom_room(true), 8);
    assert_eq!(custom_room(false), 320);
}

#[test]
fn a_tab_falls_back_to_the_first_name_that_can_be_drawn() {
    // The table draws neither a wave nor a parrot, but it can draw a smile:
    // the tab shows that rather than going blank.
    let mark = mark_of("People", &["parrot", "smile", "grinning"], table);
    assert_eq!(
        mark,
        Choice {
            name: "smile".into(),
            unicode: Some("\u{1f604}".into()),
            id: None
        }
    );
    let mark = mark_of("Custom", &["parrot", "nothing", "grinning"], table);
    assert_eq!(mark.name, "grinning");
    assert!(mark.unicode.is_some());
}

#[test]
fn it_offers_something_before_anything_is_typed() {
    let mut picker = Picker::default();
    picker.show("p1");
    picker.ask("", &Vec::new(), &groups(), &Vec::new());
    assert!(!picker.found().is_empty());
    assert!(picker.found().iter().all(|one| one.unicode.is_some()));
}
