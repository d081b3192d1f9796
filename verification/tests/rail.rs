use matterless_view::input::Input;
use matterless_view::text::is_white;
use matterless_view::rail::{
    DIRECTS, ICON_FETCHED, Kind, Rail, SETTINGS, Tile, UNREAD, icon_key, initials, rail_tiles,
};

fn rail() -> Rail {
    Rail {
        teams: vec![
            Tile {
                id: "t1".into(),
                name: "Voyager".into(),
                unread: 0,
                mentions: 0,
                kind: Kind::Team,
            },
            Tile {
                id: "t2".into(),
                name: "Northwind".into(),
                unread: 3,
                mentions: 1,
                kind: Kind::Team,
            },
        ],
        chosen: Some("t1".into()),
    }
}

/// Neither the envelope nor the unread button is a team, and neither has
/// an icon to fetch.
#[test]
fn only_a_team_asks_for_a_picture() {
    let mut rail = rail();
    rail.teams.push(Tile {
        id: DIRECTS.into(),
        name: "Direct messages".into(),
        unread: 2,
        mentions: 0,
        kind: Kind::Directs,
    });
    rail.teams.insert(
        0,
        Tile {
            id: UNREAD.into(),
            name: "Unread".into(),
            unread: 0,
            mentions: 0,
            kind: Kind::Unread,
        },
    );
    let wanted = rail.wants();
    assert_eq!(wanted.len(), 2, "only the two real teams");
    assert!(
        wanted
            .iter()
            .all(|(key, _, _)| key != "team/directs" && key != "team/unread")
    );
}

/// A name has to become something that fits on a square, whatever it is.
#[test]
fn a_name_becomes_something_that_fits() {
    assert_eq!(initials("Northwind"), "N");
    assert_eq!(initials("Voyager Team"), "VT");
    assert_eq!(initials("one two three"), "OT");
    assert_eq!(initials(""), "?");
    assert_eq!(initials("   "), "?");
}

#[test]
fn initials_come_in_capitals_whatever_the_name_was_written_in() {
    assert_eq!(initials("voyager team"), "VT");
    assert_eq!(initials("  élan\tvital "), "ÉV");
    assert_eq!(initials("straße"), "S");
    assert_eq!(initials("\u{3000}x\u{2003}y"), "XY");
}

#[test]
fn the_wanted_icons_are_keyed_and_sized_for_a_square() {
    let wanted = rail().wants();
    assert_eq!(
        wanted,
        vec![
            ("team/t1".to_string(), ICON_FETCHED, ICON_FETCHED),
            ("team/t2".to_string(), ICON_FETCHED, ICON_FETCHED),
        ]
    );
    assert_eq!(ICON_FETCHED, 30);
    assert_eq!(icon_key("abc"), "team/abc");
}

#[test]
fn a_press_on_a_square_chooses_its_team() {
    let rail = rail();
    let mut input = Input::quiet();
    assert_eq!(rail.react(&input), None);
    input.clicked = Some("rail/t2".into());
    assert_eq!(rail.react(&input), Some("t2".to_string()));
    input.clicked = Some("rail/".into());
    assert_eq!(rail.react(&input), Some(String::new()));
    input.clicked = Some("menu/t2".into());
    assert_eq!(rail.react(&input), None);
    input.clicked = Some("rail".into());
    assert_eq!(rail.react(&input), None);
}

#[test]
fn only_the_gear_belongs_at_the_foot() {
    assert!(Kind::Settings.at_the_foot());
    assert!(!Kind::Team.at_the_foot());
    assert!(!Kind::Directs.at_the_foot());
    assert!(!Kind::Unread.at_the_foot());
    assert_eq!(SETTINGS, "settings");
}

#[test]
fn white_space_is_what_unicode_says_it_is() {
    for c in [' ', '\t', '\n', '\u{b}', '\u{c}', '\r', '\u{85}', '\u{a0}', '\u{1680}', '\u{2000}', '\u{200a}', '\u{2028}', '\u{2029}', '\u{202f}', '\u{205f}', '\u{3000}'] {
        assert!(is_white(c), "{c:?}");
        assert_eq!(is_white(c), c.is_whitespace());
    }
    for c in ['a', '\u{200b}', '\u{180e}', '\u{feff}', '\u{0}', '_'] {
        assert!(!is_white(c), "{c:?}");
        assert_eq!(is_white(c), c.is_whitespace());
    }
}

#[test]
fn an_empty_rail_wants_nothing() {
    assert!(Rail::default().wants().is_empty());
    assert!(Rail::default().chosen.is_none());
}

#[test]
fn a_square_says_what_it_is() {
    let rail = rail();
    assert_eq!(rail.explains("rail/directs").as_deref(), Some("Direct messages"));
    assert_eq!(rail.explains("rail/unread").as_deref(), Some("Unread channels"));
    assert_eq!(rail.explains("rail/t2").as_deref(), Some("Northwind"));
    assert_eq!(rail.explains("rail/t9"), None);
    assert_eq!(rail.explains("sidebar/t1"), None);
}

fn team(id: &str, name: &str, shown: &str) -> (String, String, String) {
    (id.to_string(), name.to_string(), shown.to_string())
}

fn row(
    team: Option<&str>,
    muted: bool,
    direct: bool,
    unread: i64,
    mentions: i64,
) -> (Option<String>, bool, bool, i64, i64) {
    (team.map(str::to_string), muted, direct, unread, mentions)
}

#[test]
fn the_rail_is_the_unread_button_the_teams_the_directs_and_the_gear() {
    let tiles = rail_tiles(
        &vec![team("t1", "voyager", "Voyager"), team("t2", "enterprise", "")],
        &vec![],
    );
    let ids: Vec<&str> = tiles.iter().map(|tile| tile.id.as_str()).collect();
    assert_eq!(ids, vec![UNREAD, "t1", "t2", DIRECTS, SETTINGS]);
    let names: Vec<&str> = tiles.iter().map(|tile| tile.name.as_str()).collect();
    assert_eq!(names, vec!["Unread", "Voyager", "enterprise", "Direct messages", "Settings"]);
    let kinds: Vec<Kind> = tiles.iter().map(|tile| tile.kind).collect();
    assert_eq!(
        kinds,
        vec![Kind::Unread, Kind::Team, Kind::Team, Kind::Directs, Kind::Settings]
    );
    assert!(tiles.iter().all(|tile| tile.unread == 0 && tile.mentions == 0));
}

#[test]
fn what_waits_is_summed_per_team_and_muted_rows_add_nothing() {
    let tiles = rail_tiles(
        &vec![team("t1", "voyager", "Voyager"), team("t2", "enterprise", "Enterprise")],
        &vec![
            row(Some("t1"), false, false, 3, 1),
            row(Some("t1"), false, false, 2, 0),
            row(Some("t2"), true, false, 40, 4),
            row(Some("t2"), false, false, 5, 2),
            row(None, false, true, 7, 7),
            row(None, true, true, 100, 100),
            row(Some("elsewhere"), false, false, 9, 9),
            row(None, false, false, 11, 11),
        ],
    );
    assert_eq!(tiles.len(), 5);
    assert_eq!((tiles[0].unread, tiles[0].mentions), (0, 0));
    assert_eq!((tiles[1].unread, tiles[1].mentions), (5, 1));
    assert_eq!((tiles[2].unread, tiles[2].mentions), (5, 2));
    assert_eq!((tiles[3].unread, tiles[3].mentions), (7, 7));
    assert_eq!((tiles[4].unread, tiles[4].mentions), (0, 0));
}

#[test]
fn a_count_goes_to_the_first_team_with_its_id() {
    let tiles = rail_tiles(
        &vec![team("t1", "one", ""), team("t1", "again", "")],
        &vec![row(Some("t1"), false, false, 4, 2)],
    );
    assert_eq!((tiles[1].unread, tiles[1].mentions), (4, 2));
    assert_eq!((tiles[2].unread, tiles[2].mentions), (0, 0));
    assert_eq!(tiles[2].name, "again");
}
