use matterless_view::sidebar::{Channel, Entry, Group, Me, sidebar_entries};

fn me() -> Me {
    Me {
        name: "ada".to_string(),
        status: "online".to_string(),
        live: true,
        offline: None,
        version: "1.2.3".to_string(),
    }
}

fn me_row() -> Entry {
    Entry::Me {
        name: "ada".to_string(),
        status: "online".to_string(),
        live: true,
        offline: None,
        version: "1.2.3".to_string(),
    }
}

fn channel(id: &str, kind: &str, unread: i64, muted: bool, last_post_at: i64) -> Channel {
    Channel {
        id: id.to_string(),
        display_name: format!("#{id}"),
        channel_type: kind.to_string(),
        counterpart_id: Some(format!("{id}-person")),
        counterpart_avatar_at: 7,
        unread,
        mentions: unread / 2,
        muted,
        last_post_at,
    }
}

fn group(team_id: &str, team_name: &str, name: &str, kind: &str, channels: Vec<Channel>) -> Group {
    Group {
        team_id: team_id.to_string(),
        team_name: team_name.to_string(),
        display_name: name.to_string(),
        category_type: kind.to_string(),
        channels,
    }
}

fn ids(entries: &[Entry]) -> Vec<String> {
    entries
        .iter()
        .map(|entry| match entry {
            Entry::Me { .. } => "me".to_string(),
            Entry::Threads { .. } => "threads".to_string(),
            Entry::Drafts { count } => format!("drafts {count}"),
            Entry::Team { label, .. } => format!("team {label}"),
            Entry::Heading { label, .. } => format!("heading {label}"),
            Entry::Channel { id, .. } => id.clone(),
        })
        .collect()
}

#[test]
fn without_a_reader_nothing_is_counted_or_lifted() {
    let groups = vec![group("t1", "Voyager", "Channels", "channels", vec![
        channel("a", "O", 4000, false, 5),
    ])];
    let entries = sidebar_entries(&me(), "", (3, 1), 2, true, "Unreads", &groups);
    assert_eq!(ids(&entries), vec!["me", "team Voyager", "heading Channels", "a"]);
    assert_eq!(entries[0], me_row());
    match &entries[3] {
        Entry::Channel { unread, mentions, .. } => assert_eq!((*unread, *mentions), (0, 0)),
        other => panic!("not a channel: {other:?}"),
    }
}

#[test]
fn a_reader_has_a_threads_row_and_drafts_only_when_there_are_some() {
    let none = sidebar_entries(&me(), "u1", (3, 1), 0, false, "Unreads", &vec![]);
    assert_eq!(none, vec![me_row(), Entry::Threads { unread: 3, mentions: 1 }]);
    let two = sidebar_entries(&me(), "u1", (0, 0), 2, false, "Unreads", &vec![]);
    assert_eq!(
        two,
        vec![me_row(), Entry::Threads { unread: 0, mentions: 0 }, Entry::Drafts { count: 2 }]
    );
}

#[test]
fn waiting_rows_are_lifted_newest_first_and_muted_ones_stay() {
    let groups = vec![
        group("t1", "Voyager", "Favorites", "favorites", vec![
            channel("old", "O", 1, false, 10),
            channel("quiet", "O", 0, false, 99),
        ]),
        group("t1", "Voyager", "Channels", "channels", vec![
            channel("new", "O", 2, false, 30),
            channel("muted", "O", 9, true, 50),
            channel("tie", "O", 1, false, 10),
        ]),
    ];
    let entries = sidebar_entries(&me(), "u1", (0, 0), 0, true, "Unreads", &groups);
    assert_eq!(ids(&entries), vec![
        "me",
        "threads",
        "heading Unreads",
        "new",
        "old",
        "tie",
        "team Voyager",
        "heading Favorites",
        "quiet",
        "heading Channels",
        "muted",
    ]);
}

#[test]
fn nothing_is_lifted_unless_asked() {
    let groups = vec![group("t1", "Voyager", "Channels", "channels", vec![
        channel("a", "O", 2, false, 1),
    ])];
    let entries = sidebar_entries(&me(), "u1", (0, 0), 0, false, "Unreads", &groups);
    assert_eq!(ids(&entries), vec!["me", "threads", "team Voyager", "heading Channels", "a"]);
    match &entries[4] {
        Entry::Channel { unread, mentions, .. } => assert_eq!((*unread, *mentions), (2, 1)),
        other => panic!("not a channel: {other:?}"),
    }
}

#[test]
fn a_team_is_named_once_and_empty_groups_are_left_out() {
    let groups = vec![
        group("t1", "Voyager", "Favorites", "favorites", vec![channel("a", "O", 0, false, 1)]),
        group("t1", "Voyager", "Empty", "custom", vec![]),
        group("t1", "Voyager", "Channels", "channels", vec![channel("b", "O", 0, false, 1)]),
        group("t2", "Enterprise", "Channels", "channels", vec![channel("c", "O", 0, false, 1)]),
        group("", "", "Direct Messages", "direct_messages", vec![channel("d", "D", 0, false, 1)]),
    ];
    let entries = sidebar_entries(&me(), "u1", (0, 0), 0, true, "Unreads", &groups);
    assert_eq!(ids(&entries), vec![
        "me",
        "threads",
        "team Voyager",
        "heading Favorites",
        "a",
        "heading Channels",
        "b",
        "team Enterprise",
        "heading Channels",
        "c",
        "heading Direct Messages",
        "d",
    ]);
    assert_eq!(entries[10], Entry::Heading { label: "Direct Messages".to_string(), directs: true });
    assert_eq!(entries[5], Entry::Heading { label: "Channels".to_string(), directs: false });
    assert_eq!(entries[7], Entry::Team { id: "t2".to_string(), label: "Enterprise".to_string() });
}

#[test]
fn a_row_says_what_kind_of_conversation_it_is() {
    let groups = vec![group("t1", "Voyager", "Mixed", "custom", vec![
        channel("one", "D", 0, false, 1),
        channel("many", "G", 0, false, 1),
        channel("closed", "P", 0, false, 1),
        channel("open", "O", 0, true, 1),
    ])];
    let entries = sidebar_entries(&me(), "u1", (0, 0), 0, false, "Unreads", &groups);
    let rows: Vec<(bool, bool, Option<String>, bool, i64)> = entries[4..]
        .iter()
        .map(|entry| match entry {
            Entry::Channel { direct, private, counterpart, muted, counterpart_avatar_at, .. } => {
                (*direct, *private, counterpart.clone(), *muted, *counterpart_avatar_at)
            }
            other => panic!("not a channel: {other:?}"),
        })
        .collect();
    assert_eq!(rows, vec![
        (true, false, Some("one-person".to_string()), false, 7),
        (true, false, None, false, 7),
        (false, true, None, false, 7),
        (false, false, None, true, 7),
    ]);
    match &entries[4] {
        Entry::Channel { id, label, .. } => assert_eq!((id.as_str(), label.as_str()), ("one", "#one")),
        other => panic!("not a channel: {other:?}"),
    }
}
