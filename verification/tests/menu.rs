use matterless_view::input::{Input, Key};
use matterless_view::menu::{Item, Menu, Tint, asking};

fn items() -> Vec<Item> {
    vec![
        Item::new("unread", "Mark as Unread").marked("\u{e0b1}"),
        Item::new("mute", "Mute Channel").marked("\u{e0b2}"),
        Item::rule(),
        Item::new("leave", "Leave Channel").tinted(Tint::Flag),
    ]
}

fn menu() -> Menu {
    let mut menu = Menu::default();
    menu.show("c1", items());
    menu
}

fn pressed(name: &str) -> Input {
    let mut input = Input::quiet();
    input.clicked = Some(name.to_string());
    input.hovered = Some(name.to_string());
    input
}

fn hovering(name: &str) -> Input {
    let mut input = Input::quiet();
    input.hovered = Some(name.to_string());
    input
}

/// A rule is not something to land on.
#[test]
fn a_rule_is_not_a_target() {
    let menu = menu();
    let targets: Vec<&str> = menu
        .items
        .iter()
        .filter(|item| item.pressable())
        .map(|item| item.id.as_str())
        .collect();
    assert_eq!(targets, vec!["unread", "mute", "leave"], "three rows and no rule");
    assert!(!Item::rule().pressable());
}

/// A click anywhere that is not a row shuts it.
#[test]
fn a_click_anywhere_else_shuts_it() {
    let mut menu = menu();
    assert_eq!(menu.react(&pressed("menu/elsewhere")), None);
    assert!(!menu.open());
    let mut menu = self::menu();
    assert_eq!(menu.react(&pressed("sidebar/c2")), None);
    assert!(!menu.open());
}

/// A shut menu offers nothing.
#[test]
fn a_shut_menu_is_not_there() {
    let mut menu = menu();
    menu.put_away();
    assert!(!menu.open());
    assert!(menu.items.is_empty());
    assert_eq!(menu.react(&pressed("menu/leave")), None);
}

/// Pressing a row that asks a question does not fire it.
#[test]
fn a_row_that_asks_first_does_not_fire_on_the_first_press() {
    let mut menu = Menu::default();
    menu.show(
        "p1",
        vec![Item::new("delete", "Delete\u{2026}").asks(vec![
            Item::new("delete.now", "Delete").tinted(Tint::Danger),
            Item::new("delete.keep", "Keep"),
        ])],
    );
    assert_eq!(menu.react(&pressed("menu/delete")), None, "it asked instead of firing");
    assert!(menu.open(), "and stayed open to be answered");
    assert_eq!(menu.armed(), Some("delete"));

    assert_eq!(
        menu.react(&pressed("menu/delete.now")),
        Some(("p1".to_string(), "delete.now".to_string()))
    );
    assert!(!menu.open());
}

/// A nested list is only there while the pointer is on its way to it.
#[test]
fn a_nested_list_follows_the_pointer() {
    let mut menu = Menu::default();
    menu.show(
        "c1",
        vec![
            Item::new("move", "Move to\u{2026}").nests(vec![
                Item::new("move.a", "Work"),
                Item::new("move.b", "Play"),
            ]),
            Item::new("mute", "Mute Channel"),
        ],
    );
    assert_eq!(menu.nested(), None, "shut until hovered");

    menu.react(&hovering("menu/move"));
    assert_eq!(menu.nested(), Some("move"));
    menu.react(&hovering("menu/move.a"));
    assert_eq!(menu.nested(), Some("move"), "kept open on the way into it");

    menu.react(&hovering("menu/mute"));
    assert_eq!(menu.nested(), None);
}

#[test]
fn a_plain_row_fires_and_shuts() {
    let mut menu = menu();
    assert_eq!(
        menu.react(&pressed("menu/mute")),
        Some(("c1".to_string(), "mute".to_string()))
    );
    assert!(!menu.open());
}

#[test]
fn escape_shuts_it_and_chooses_nothing() {
    let mut menu = menu();
    assert_eq!(menu.react(&Input::key(Key::Escape)), None);
    assert!(!menu.open());
}

#[test]
fn a_question_is_worded_for_its_row() {
    assert_eq!(asking("remind"), "Remind me in");
    assert_eq!(asking("nothing-like-it"), "");
}

#[test]
fn an_open_menu_places_a_box_for_each_row_but_no_rule() {
    assert!(Menu::default().box_names().is_empty(), "a shut menu places nothing");
    assert_eq!(
        menu().box_names(),
        vec!["menu/elsewhere", "menu", "menu/unread", "menu/mute", "menu/leave"]
    );
}

#[test]
fn answers_and_nested_rows_are_boxed_only_while_they_show() {
    let mut menu = Menu::default();
    menu.show(
        "p1",
        vec![
            Item::new("delete", "Delete").asks(vec![
                Item::new("delete.now", "Delete"),
                Item::new("delete.keep", "Keep"),
            ]),
            Item::new("move", "Move to").nests(vec![Item::new("move.a", "Work")]),
        ],
    );
    assert_eq!(menu.box_names(), vec!["menu/elsewhere", "menu", "menu/delete", "menu/move"]);
    menu.react(&pressed("menu/delete"));
    assert_eq!(
        menu.box_names(),
        vec![
            "menu/elsewhere",
            "menu",
            "menu/delete",
            "menu/delete.now",
            "menu/delete.keep",
            "menu/move",
        ]
    );
    menu.react(&hovering("menu/move"));
    assert_eq!(
        menu.box_names(),
        vec![
            "menu/elsewhere",
            "menu",
            "menu/delete",
            "menu/delete.now",
            "menu/delete.keep",
            "menu/move",
            "menu/move/nest",
            "menu/move.a",
        ]
    );
}
