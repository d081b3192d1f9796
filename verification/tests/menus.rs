use matterless_view::menu::{Item, Tint};
use matterless_view::menus::{
    Category, Marks, channel_menu, learned, spelling_about, spelling_menu, spelling_of,
};
use matterless_view::menus::{ChannelChoice, SpellChoice, channel_choice, spelling_choice};

fn marks() -> Marks {
    Marks {
        unread: "U".into(),
        favourite: "F".into(),
        bell_off: "B".into(),
        folder: "D".into(),
        link: "L".into(),
        add_people: "A".into(),
        leave: "X".into(),
    }
}

fn category(id: &str, kind: &str, team: &str, holds: &[&str]) -> Category {
    Category {
        id: id.into(),
        display_name: format!("{id} shown"),
        kind: kind.into(),
        team_id: team.into(),
        holds: holds.iter().map(|one| one.to_string()).collect(),
    }
}

fn ids(items: &[Item]) -> Vec<&str> {
    items.iter().map(|item| item.id.as_str()).collect()
}

#[test]
fn a_channel_menu_offers_what_applies_to_a_channel() {
    let categories = vec![
        category("fav", "favorites", "t1", &[]),
        category("chan", "channels", "t1", &["c1"]),
        category("dms", "direct_messages", "t1", &[]),
        category("mine", "custom", "t1", &[]),
        category("other", "custom", "t2", &[]),
    ];
    let items = channel_menu("c1", "t1", "O", false, &categories, &marks());
    assert_eq!(
        ids(&items),
        vec![
            "channel.unread",
            "channel.move.fav",
            "channel.mute",
            "",
            "channel.move",
            "",
            "channel.link",
            "channel.add",
            "",
            "channel.leave",
        ]
    );
    assert_eq!(items[1].label, "Favorite");
    assert_eq!(items[2].label, "Mute Channel");
    assert_eq!(items[1].glyph, "F");
    assert!(items[3].rule);
    // Everywhere it could go, minus wherever it already is.
    let targets: Vec<&str> = items[4].children.iter().map(|c| c.id.as_str()).collect();
    assert_eq!(targets, vec!["channel.move.fav", "channel.move.mine"]);
    assert_eq!(items[4].children[1].label, "mine shown");
    assert!(!items[4].inline);
    assert_eq!(items[9].tint, Tint::Flag);
}

#[test]
fn a_favourite_is_offered_the_way_back_and_a_conversation_no_membership() {
    let categories = vec![
        category("fav", "favorites", "t1", &["d1"]),
        category("chan", "channels", "t1", &[]),
    ];
    let items = channel_menu("d1", "t1", "D", true, &categories, &marks());
    assert_eq!(
        ids(&items),
        vec![
            "channel.unread",
            "channel.move.chan",
            "channel.mute",
            "",
            "channel.move",
            "",
            "channel.link",
        ]
    );
    assert_eq!(items[1].label, "Remove from Favorites");
    assert_eq!(items[2].label, "Unmute Channel");
}

#[test]
fn with_nowhere_to_move_it_there_is_no_move_row() {
    let items = channel_menu("g1", "t1", "G", false, &Vec::new(), &marks());
    assert_eq!(
        ids(&items),
        vec!["channel.unread", "channel.mute", "", "channel.link"]
    );
}

#[test]
fn a_misspelling_offers_its_suggestions_and_a_way_to_keep_it() {
    let items = spelling_menu(&vec!["there".to_string(), "three".to_string()]);
    assert_eq!(
        ids(&items),
        vec!["spell.use.there", "spell.use.three", "", "spell.learn"]
    );
    assert_eq!(items[0].label, "there");
    assert_eq!(items[3].label, "Add to Dictionary");
    let none = spelling_menu(&Vec::new());
    assert_eq!(ids(&none), vec!["spell.none", "", "spell.learn"]);
    assert_eq!(none[0].label, "No suggestions");
}

#[test]
fn a_spelling_choice_comes_back_to_its_word() {
    let about = spelling_about("composer", 2, 14, 19, "teh");
    assert_eq!(about, "composer\u{1f}2\u{1f}14\u{1f}19\u{1f}teh");
    assert_eq!(
        spelling_of(&about),
        Some(("composer".to_string(), 2, 14, 19, "teh".to_string()))
    );
    assert_eq!(spelling_of("composer\u{1f}2\u{1f}14\u{1f}teh"), None);
    assert_eq!(spelling_of("composer\u{1f}x\u{1f}14\u{1f}19\u{1f}teh"), None);
    assert_eq!(spelling_of(""), None);
    let edge = spelling_about("", 0, usize::MAX, 0, "");
    assert_eq!(spelling_of(&edge), Some((String::new(), 0, usize::MAX, 0, String::new())));
}

#[test]
fn a_word_is_taught_once_whatever_its_case() {
    let mut kept = vec!["Verus".to_string()];
    learned(&mut kept, "verus");
    assert_eq!(kept, vec!["Verus".to_string()]);
    learned(&mut kept, "Matterless");
    assert_eq!(kept, vec!["Verus".to_string(), "Matterless".to_string()]);
    learned(&mut kept, "MATTERLESS");
    assert_eq!(kept.len(), 2);
    learned(&mut kept, "Ünïcode");
    learned(&mut kept, "üNÏCODE");
    assert_eq!(kept.len(), 4, "only ASCII case is ignored");
}

#[test]
fn a_channel_row_is_read_back_as_what_it_offers() {
    assert_eq!(channel_choice("channel.unread"), Some(ChannelChoice::Unread));
    assert_eq!(channel_choice("channel.mute"), Some(ChannelChoice::Mute));
    assert_eq!(channel_choice("channel.link"), Some(ChannelChoice::Link));
    assert_eq!(channel_choice("channel.add"), Some(ChannelChoice::Add));
    assert_eq!(channel_choice("channel.leave"), Some(ChannelChoice::Leave));
    assert_eq!(
        channel_choice("channel.move.cat9"),
        Some(ChannelChoice::Move("cat9".into()))
    );
    assert_eq!(channel_choice("channel.move"), None, "the list itself asks nothing");
    assert_eq!(channel_choice("channel.nothing"), None);
    assert_eq!(channel_choice("unread"), None);
    // Every row the menu builds is one of them.
    let categories = vec![
        category("fav", "favorites", "t1", &[]),
        category("chan", "channels", "t1", &["c1"]),
        category("mine", "custom", "t1", &[]),
    ];
    let items = channel_menu("c1", "t1", "O", false, &categories, &marks());
    for item in &items {
        if !item.rule && item.children.is_empty() {
            assert!(channel_choice(&item.id).is_some(), "{}", item.id);
        }
        for child in &item.children {
            assert!(matches!(channel_choice(&child.id), Some(ChannelChoice::Move(_))));
        }
    }
}

#[test]
fn a_spelling_row_is_read_back_as_what_it_offers() {
    assert_eq!(spelling_choice("spell.learn"), Some(SpellChoice::Learn));
    assert_eq!(spelling_choice("spell.use.there"), Some(SpellChoice::Use("there".into())));
    assert_eq!(spelling_choice("spell.use."), Some(SpellChoice::Use(String::new())));
    assert_eq!(spelling_choice("spell.none"), None);
    assert_eq!(spelling_choice("channel.mute"), None);
}
