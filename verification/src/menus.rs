//! The menus the window offers: what a right-click on a channel lists, what a
//! right-click on a misspelled word lists, and how the spelling menu's choice
//! carries its word back.
//!
//! Where a menu opens and how it is drawn are the window's; which rows it has
//! is decided here.

use crate::menu::{Item, Tint};
use crate::offer::{decimal, is_digit, parse_index, unsigned, value_of};
use crate::open::ascii_lower;
use crate::profile::{digit, spell, spelled};
use crate::input::starts_with;
use crate::session::same_text;
use vstd::prelude::*;
use vstd::string::*;

verus! {

/// A row with nothing under it, as the contracts speak of it.
pub struct LeafView {
    pub id: Seq<char>,
    pub label: Seq<char>,
    pub glyph: Seq<char>,
    pub tint: Tint,
    pub rule: bool,
}

/// A row, as the contracts speak of it, with the rows it leads to.
pub struct RowView {
    pub leaf: LeafView,
    pub inline: bool,
    pub children: Seq<LeafView>,
}

/// A row's own part.
pub open spec fn leaf_of(item: Item) -> LeafView {
    LeafView {
        id: item.id@,
        label: item.label@,
        glyph: item.glyph@,
        tint: item.tint,
        rule: item.rule,
    }
}

/// A row and the rows under it.
pub open spec fn row_of(item: Item) -> RowView {
    RowView {
        leaf: leaf_of(item),
        inline: item.inline,
        children: item.children@.map_values(|child: Item| leaf_of(child)),
    }
}

/// Rows, as the contracts speak of them.
pub open spec fn rows_of(items: Seq<Item>) -> Seq<RowView> {
    items.map_values(|item: Item| row_of(item))
}

/// A row that does something and leads nowhere.
pub open spec fn leaf(id: Seq<char>, label: Seq<char>, glyph: Seq<char>) -> LeafView {
    LeafView { id, label, glyph, tint: Tint::Ink, rule: false }
}

/// A row that does something and leads nowhere.
pub open spec fn plain(id: Seq<char>, label: Seq<char>, glyph: Seq<char>) -> RowView {
    RowView { leaf: leaf(id, label, glyph), inline: false, children: seq![] }
}

/// A separator.
pub open spec fn rule() -> RowView {
    RowView { leaf: LeafView { id: seq![], label: seq![], glyph: seq![], tint: Tint::Ink, rule: true }, inline: false, children: seq![] }
}

/// A sidebar category, as the channel menu reads it: which team it belongs
/// to, what kind it is, and which channels it holds.
#[derive(Debug, Clone)]
pub struct Category {
    pub id: String,
    pub display_name: String,
    /// `favorites`, `channels`, `direct_messages` or `custom`.
    pub kind: String,
    pub team_id: String,
    /// The channels in it.
    pub holds: Vec<String>,
}

/// A category, as the contracts speak of it.
pub struct CategoryView {
    pub id: Seq<char>,
    pub display_name: Seq<char>,
    pub kind: Seq<char>,
    pub team_id: Seq<char>,
    pub holds: Seq<Seq<char>>,
}

impl View for Category {
    type V = CategoryView;

    open spec fn view(&self) -> CategoryView {
        CategoryView {
            id: self.id@,
            display_name: self.display_name@,
            kind: self.kind@,
            team_id: self.team_id@,
            holds: self.holds@.map_values(|held: String| held@),
        }
    }
}

/// Categories, as the contracts speak of them.
pub open spec fn categories_of(categories: Seq<Category>) -> Seq<CategoryView> {
    categories.map_values(|category: Category| category@)
}

/// The marks a channel menu's rows carry, in the icon font.
#[derive(Debug, Clone)]
pub struct Marks {
    pub unread: String,
    pub favourite: String,
    pub bell_off: String,
    pub folder: String,
    pub link: String,
    pub add_people: String,
    pub leave: String,
}

/// The first category of `kind` in `team`, if there is one.
pub open spec fn first_of_kind(categories: Seq<CategoryView>, kind: Seq<char>, team: Seq<char>) -> Option<
    CategoryView,
>
    decreases categories.len(),
{
    if categories.len() == 0 {
        None
    } else if categories[0].kind == kind && categories[0].team_id == team {
        Some(categories[0])
    } else {
        first_of_kind(categories.drop_first(), kind, team)
    }
}

/// Whether a category is of `kind` and belongs to `team`.
pub open spec fn of_kind_in(category: CategoryView, kind: Seq<char>, team: Seq<char>) -> bool {
    category.kind == kind && category.team_id == team
}

/// The category a row looks up by kind is one of the channel's own team: it
/// is among the categories, of that kind and that team, and none of that kind
/// and team comes before it; where there is none, no category is of that kind
/// in that team. So the Favorite row (and Remove from Favorites) moves a
/// channel only into a category of its own team.
pub proof fn lemma_a_kind_is_looked_up_in_the_team(
    categories: Seq<CategoryView>,
    kind: Seq<char>,
    team: Seq<char>,
)
    ensures
        match first_of_kind(categories, kind, team) {
            Some(c) => exists|i: int|
                0 <= i < categories.len() && #[trigger] categories[i] == c && of_kind_in(c, kind, team)
                    && forall|j: int| 0 <= j < i ==> !of_kind_in(#[trigger] categories[j], kind, team),
            None => forall|i: int| 0 <= i < categories.len() ==> !of_kind_in(#[trigger] categories[i], kind, team),
        },
    decreases categories.len(),
{
    if categories.len() > 0 {
        let rest = categories.drop_first();
        lemma_a_kind_is_looked_up_in_the_team(rest, kind, team);
        if !of_kind_in(categories[0], kind, team) {
            match first_of_kind(rest, kind, team) {
                Some(c) => {
                    let i = choose|i: int|
                        0 <= i < rest.len() && #[trigger] rest[i] == c && of_kind_in(c, kind, team)
                            && forall|j: int| 0 <= j < i ==> !of_kind_in(#[trigger] rest[j], kind, team);
                    assert(categories[i + 1] == rest[i]);
                    assert forall|j: int| 0 <= j < i + 1 implies !of_kind_in(#[trigger] categories[j], kind, team) by {
                        if j > 0 {
                            assert(categories[j] == rest[j - 1]);
                        }
                    }
                },
                None => {
                    assert forall|i: int| 0 <= i < categories.len() implies !of_kind_in(#[trigger] categories[i], kind, team) by {
                        if i > 0 {
                            assert(categories[i] == rest[i - 1]);
                        }
                    }
                },
            }
        } else {
            assert(categories[0] == categories[0]);
        }
    }
}

/// The row after "Mark as Unread" favours the channel or takes it out of the
/// favourites where its team has both a favourites and an everyday category,
/// and that row moves it into a category of its own team, one of those two
/// kinds: into the favourites when it is not there, out to the everyday one
/// when it is. Where the team lacks either kind, that row is the one that
/// mutes.
pub proof fn lemma_favouring_stays_in_the_team(
    channel: Seq<char>,
    team: Seq<char>,
    channel_type: Seq<char>,
    muted: bool,
    categories: Seq<CategoryView>,
    marks: Marks,
)
    ensures
        ({
            let rows = channel_rows(channel, team, channel_type, muted, categories, marks);
            let both = (exists|i: int|
                0 <= i < categories.len() && of_kind_in(
                    #[trigger] categories[i],
                    "favorites"@,
                    team,
                )) && (exists|j: int|
                0 <= j < categories.len() && of_kind_in(#[trigger] categories[j], "channels"@, team));
            &&& rows.len() > 1
            &&& both ==> exists|i: int|
                0 <= i < categories.len() && (#[trigger] categories[i]).team_id == team
                    && rows[1].leaf.id == move_id(categories[i].id) && (categories[i].kind
                    == "favorites"@ || categories[i].kind == "channels"@) && (categories[i].kind
                    == "favorites"@ <==> rows[1].leaf.label == "Favorite"@)
            &&& !both ==> rows[1].leaf.id == "channel.mute"@
        }),
{
    lemma_a_kind_is_looked_up_in_the_team(categories, "favorites"@, team);
    lemma_a_kind_is_looked_up_in_the_team(categories, "channels"@, team);
    reveal_strlit("favorites");
    reveal_strlit("channels");
    reveal_strlit("Favorite");
    reveal_strlit("Remove from Favorites");
    let favourites = first_of_kind(categories, "favorites"@, team);
    let everyday = first_of_kind(categories, "channels"@, team);
    let rows = channel_rows(channel, team, channel_type, muted, categories, marks);
    if favourites is Some && everyday is Some {
        let f = favourites->0;
        let e = everyday->0;
        let fi = choose|i: int|
            0 <= i < categories.len() && #[trigger] categories[i] == f && of_kind_in(f, "favorites"@, team)
                && forall|j: int| 0 <= j < i ==> !of_kind_in(#[trigger] categories[j], "favorites"@, team);
        let ei = choose|i: int|
            0 <= i < categories.len() && #[trigger] categories[i] == e && of_kind_in(e, "channels"@, team)
                && forall|j: int| 0 <= j < i ==> !of_kind_in(#[trigger] categories[j], "channels"@, team);
        assert(of_kind_in(categories[fi], "favorites"@, team));
        assert(of_kind_in(categories[ei], "channels"@, team));
        assert("favorites"@.len() == 9 && "channels"@.len() == 8);
        assert("Favorite"@.len() == 8 && "Remove from Favorites"@.len() == 21);
        if f.holds.contains(channel) {
            assert(rows[1].leaf.id == move_id(categories[ei].id));
        } else {
            assert(rows[1].leaf.id == move_id(categories[fi].id));
        }
    } else {
        reveal_strlit("channel.mute");
        if favourites is None {
            assert(!(exists|i: int|
                0 <= i < categories.len() && of_kind_in(
                    #[trigger] categories[i],
                    "favorites"@,
                    team,
                )));
        } else {
            assert(!(exists|j: int|
                0 <= j < categories.len() && of_kind_in(#[trigger] categories[j], "channels"@, team)));
        }
    }
}

/// What a row that moves a channel into a category is called.
pub open spec fn move_id(category: Seq<char>) -> Seq<char> {
    "channel.move."@ + category
}

/// Everywhere a channel could be moved to, minus wherever it already is: the
/// categories of its team that are not for direct messages and do not hold
/// it, in order.
pub open spec fn moves_for(categories: Seq<CategoryView>, team: Seq<char>, channel: Seq<char>) -> Seq<
    LeafView,
>
    decreases categories.len(),
{
    if categories.len() == 0 {
        seq![]
    } else {
        let before = moves_for(categories.drop_last(), team, channel);
        let c = categories.last();
        if c.team_id == team && c.kind != "direct_messages"@ && !c.holds.contains(channel) {
            before.push(leaf(move_id(c.id), c.display_name, seq![]))
        } else {
            before
        }
    }
}

/// Whether a channel can be moved into a category: one of its own team, not
/// the one for direct messages, and not one it is in already.
pub open spec fn can_move_into(category: CategoryView, team: Seq<char>, channel: Seq<char>) -> bool {
    category.team_id == team && category.kind != "direct_messages"@ && !category.holds.contains(channel)
}

/// "Move to" offers exactly the categories a channel can be moved into, in
/// their order: every row moves it into one of them, under that category's
/// name, and every one of them has its row.
pub proof fn lemma_moves_are_the_categories_it_can_go_to(
    categories: Seq<CategoryView>,
    team: Seq<char>,
    channel: Seq<char>,
)
    ensures
        forall|k: int|
            0 <= k < moves_for(categories, team, channel).len() ==> exists|i: int|
                0 <= i < categories.len() && can_move_into(#[trigger] categories[i], team, channel)
                    && #[trigger] moves_for(categories, team, channel)[k] == leaf(
                    move_id(categories[i].id),
                    categories[i].display_name,
                    seq![],
                ),
        forall|i: int|
            0 <= i < categories.len() && can_move_into(#[trigger] categories[i], team, channel)
                ==> exists|k: int|
                0 <= k < moves_for(categories, team, channel).len() && #[trigger] moves_for(
                    categories,
                    team,
                    channel,
                )[k] == leaf(move_id(categories[i].id), categories[i].display_name, seq![]),
    decreases categories.len(),
{
    if categories.len() > 0 {
        let init = categories.drop_last();
        let n = categories.len() - 1;
        lemma_moves_are_the_categories_it_can_go_to(init, team, channel);
        let before = moves_for(init, team, channel);
        let all = moves_for(categories, team, channel);
        let c = categories.last();
        assert(c == categories[n]);
        assert forall|k: int| 0 <= k < all.len() implies exists|i: int|
            0 <= i < categories.len() && can_move_into(#[trigger] categories[i], team, channel)
                && #[trigger] all[k] == leaf(move_id(categories[i].id), categories[i].display_name, seq![]) by {
            if k < before.len() {
                assert(all[k] == before[k]);
                let i = choose|i: int|
                    0 <= i < init.len() && can_move_into(#[trigger] init[i], team, channel)
                        && #[trigger] before[k] == leaf(move_id(init[i].id), init[i].display_name, seq![]);
                assert(categories[i] == init[i]);
            } else {
                assert(can_move_into(categories[n], team, channel));
            }
        }
        assert forall|i: int| 0 <= i < categories.len() && can_move_into(#[trigger] categories[i], team, channel)
            implies exists|k: int|
            0 <= k < all.len() && #[trigger] all[k] == leaf(move_id(categories[i].id), categories[i].display_name, seq![]) by {
            if i < n {
                assert(categories[i] == init[i]);
                let k = choose|k: int|
                    0 <= k < before.len() && #[trigger] before[k] == leaf(move_id(init[i].id), init[i].display_name, seq![]);
                assert(all[k] == before[k]);
            } else {
                assert(all[before.len() as int] == leaf(move_id(c.id), c.display_name, seq![]));
            }
        }
    }
}

/// Whether a channel of this type is a conversation rather than a channel:
/// a direct message or a group message, with no membership to manage.
pub open spec fn conversation(channel_type: Seq<char>) -> bool {
    channel_type == "D"@ || channel_type == "G"@
}

/// The rows a right-click on a channel offers: mark it unread; favourite it
/// or take it out of the favourites, when the team has both kinds of
/// category; mute or unmute it; move it to any other category of its team;
/// copy a link to it; and, for a channel rather than a conversation, add
/// members or leave.
pub open spec fn channel_rows(
    channel: Seq<char>,
    team: Seq<char>,
    channel_type: Seq<char>,
    muted: bool,
    categories: Seq<CategoryView>,
    marks: Marks,
) -> Seq<RowView> {
    let favourites = first_of_kind(categories, "favorites"@, team);
    let everyday = first_of_kind(categories, "channels"@, team);
    let favourite = favourites is Some && favourites->0.holds.contains(channel);
    let unread = seq![plain("channel.unread"@, "Mark as Unread"@, marks.unread@)];
    let favouring = if favourites is Some && everyday is Some {
        seq![
            plain(
                move_id(
                    if favourite {
                        everyday->0.id
                    } else {
                        favourites->0.id
                    },
                ),
                if favourite {
                    "Remove from Favorites"@
                } else {
                    "Favorite"@
                },
                marks.favourite@,
            ),
        ]
    } else {
        seq![]
    };
    let muting = seq![
        plain(
            "channel.mute"@,
            if muted {
                "Unmute Channel"@
            } else {
                "Mute Channel"@
            },
            marks.bell_off@,
        ),
    ];
    let targets = moves_for(categories, team, channel);
    let moving = if targets.len() > 0 {
        seq![
            rule(),
            RowView {
                leaf: leaf("channel.move"@, "Move to\u{2026}"@, marks.folder@),
                inline: false,
                children: targets,
            },
        ]
    } else {
        seq![]
    };
    let linking = seq![rule(), plain("channel.link"@, "Copy Link"@, marks.link@)];
    let membership = if conversation(channel_type) {
        seq![]
    } else {
        seq![
            plain("channel.add"@, "Add Members"@, marks.add_people@),
            rule(),
            RowView {
                leaf: LeafView { tint: Tint::Flag, ..leaf("channel.leave"@, "Leave Channel"@, marks.leave@) },
                inline: false,
                children: seq![],
            },
        ]
    };
    unread + favouring + muting + moving + linking + membership
}

/// Whether `holds` has `id` in it.
fn holds(held: &Vec<String>, id: &str) -> (found: bool)
    ensures
        found == held@.map_values(|h: String| h@).contains(id@),
{
    let ghost all = held@.map_values(|h: String| h@);
    let mut i: usize = 0;
    while i < held.len()
        invariant
            i <= held@.len(),
            all == held@.map_values(|h: String| h@),
            forall|j: int| 0 <= j < i ==> all[j] != id@,
        decreases held@.len() - i,
    {
        if same_text(held[i].as_str(), id) {
            assert(all[i as int] == id@);
            return true;
        }
        i = i + 1;
    }
    false
}

/// The first category of `kind` in `team`, if there is one.
fn of_kind<'a>(categories: &'a Vec<Category>, kind: &str, team: &str) -> (found: Option<&'a Category>)
    ensures
        match found {
            Some(c) => first_of_kind(categories_of(categories@), kind@, team@) == Some(c@),
            None => first_of_kind(categories_of(categories@), kind@, team@) is None,
        },
{
    let ghost all = categories_of(categories@);
    let mut i: usize = 0;
    assert(all.skip(0) =~= all);
    while i < categories.len()
        invariant
            i <= categories@.len(),
            all == categories_of(categories@),
            first_of_kind(all, kind@, team@) == first_of_kind(all.skip(i as int), kind@, team@),
        decreases categories@.len() - i,
    {
        let c = &categories[i];
        assert(all.skip(i as int)[0] == c@);
        assert(all.skip(i as int).drop_first() =~= all.skip(i + 1));
        if same_text(c.kind.as_str(), kind) && same_text(c.team_id.as_str(), team) {
            return Some(c);
        }
        i = i + 1;
    }
    assert(all.skip(i as int) =~= Seq::<CategoryView>::empty());
    None
}

/// A row that does something, with its mark.
fn marked_row(id: &str, label: &str, glyph: &str) -> (item: Item)
    ensures
        row_of(item) == plain(id@, label@, glyph@),
        item.children@.len() == 0,
{
    let item = Item::new(id, label).marked(glyph);
    assert(item.children@.map_values(|child: Item| leaf_of(child)) =~= Seq::<LeafView>::empty());
    item
}

/// A separator.
fn rule_row() -> (item: Item)
    ensures
        row_of(item) == rule(),
{
    let item = Item::rule();
    assert(item.id@ =~= Seq::<char>::empty());
    assert(item.label@ =~= Seq::<char>::empty());
    assert(item.glyph@ =~= Seq::<char>::empty());
    assert(item.children@.map_values(|child: Item| leaf_of(child)) =~= Seq::<LeafView>::empty());
    item
}

/// Everywhere a channel could be moved to, as rows.
fn moves(categories: &Vec<Category>, team: &str, channel: &str) -> (targets: Vec<Item>)
    ensures
        targets@.map_values(|item: Item| leaf_of(item)) == moves_for(
            categories_of(categories@),
            team@,
            channel@,
        ),
{
    let ghost all = categories_of(categories@);
    let mut targets: Vec<Item> = Vec::new();
    let mut i: usize = 0;
    while i < categories.len()
        invariant
            i <= categories@.len(),
            all == categories_of(categories@),
            targets@.map_values(|item: Item| leaf_of(item)) == moves_for(all.take(i as int), team@, channel@),
        decreases categories@.len() - i,
    {
        let c = &categories[i];
        assert(all.take(i + 1).drop_last() =~= all.take(i as int));
        assert(all.take(i + 1).last() == c@);
        proof {
            reveal_strlit("direct_messages");
        }
        if same_text(c.team_id.as_str(), team) && !same_text(c.kind.as_str(), "direct_messages") && !holds(&c.holds, channel) {
            proof {
                reveal_strlit("channel.move.");
            }
            let id = String::from_str("channel.move.").concat(c.id.as_str());
            let item = Item::new(id.as_str(), c.display_name.as_str());
            assert(id@ == move_id(c.id@));
            assert(item.glyph@ =~= Seq::<char>::empty());
            assert(leaf_of(item) == leaf(move_id(c.id@), c.display_name@, seq![]));
            let ghost before = targets@;
            targets.push(item);
            assert(targets@.map_values(|item: Item| leaf_of(item)) =~= before.map_values(
                |item: Item| leaf_of(item),
            ).push(leaf(move_id(c.id@), c.display_name@, seq![])));
        }
        i = i + 1;
    }
    assert(all.take(i as int) =~= all);
    targets
}

/// The menu a right-click on a channel offers. Rows that cannot apply are
/// left out rather than drawn dead: a direct message has no members to add
/// and cannot be left, and a row that never becomes available is a worse
/// answer than no row.
pub fn channel_menu(
    channel: &str,
    team: &str,
    channel_type: &str,
    muted: bool,
    categories: &Vec<Category>,
    marks: &Marks,
) -> (items: Vec<Item>)
    ensures
        rows_of(items@) == channel_rows(
            channel@,
            team@,
            channel_type@,
            muted,
            categories_of(categories@),
            *marks,
        ),
{
    let ghost all = categories_of(categories@);
    let ghost wanted = channel_rows(channel@, team@, channel_type@, muted, all, *marks);
    let favourites = of_kind(categories, "favorites", team);
    let everyday = of_kind(categories, "channels", team);
    let favourite = match favourites {
        Some(f) => holds(&f.holds, channel),
        None => false,
    };
    let mut items: Vec<Item> = Vec::new();
    items.push(marked_row("channel.unread", "Mark as Unread", marks.unread.as_str()));
    match (favourites, everyday) {
        (Some(f), Some(e)) => {
            let into = if favourite {
                e.id.as_str()
            } else {
                f.id.as_str()
            };
            let id = String::from_str("channel.move.").concat(into);
            let label = if favourite {
                "Remove from Favorites"
            } else {
                "Favorite"
            };
            items.push(marked_row(id.as_str(), label, marks.favourite.as_str()));
        },
        _ => {},
    }
    let mute = if muted {
        "Unmute Channel"
    } else {
        "Mute Channel"
    };
    items.push(marked_row("channel.mute", mute, marks.bell_off.as_str()));
    let targets = moves(categories, team, channel);
    if targets.len() > 0 {
        items.push(rule_row());
        let moving = Item::new("channel.move", "Move to\u{2026}").marked(marks.folder.as_str()).nests(
            targets,
        );
        items.push(moving);
    }
    items.push(rule_row());
    items.push(marked_row("channel.link", "Copy Link", marks.link.as_str()));
    proof {
        reveal_strlit("D");
        reveal_strlit("G");
    }
    if !(same_text(channel_type, "D") || same_text(channel_type, "G")) {
        items.push(marked_row("channel.add", "Add Members", marks.add_people.as_str()));
        items.push(rule_row());
        let leave = marked_row("channel.leave", "Leave Channel", marks.leave.as_str()).tinted(Tint::Flag);
        items.push(leave);
    }
    assert(rows_of(items@) =~= wanted);
    items
}


/// The rows a misspelled word's menu offers: each suggestion, or a row
/// saying there are none; then a rule, and a row that adds the word to the
/// dictionary.
pub open spec fn spelling_rows(offered: Seq<Seq<char>>) -> Seq<RowView> {
    let suggestions = if offered.len() == 0 {
        seq![plain("spell.none"@, "No suggestions"@, seq![])]
    } else {
        Seq::new(offered.len(), |i: int| plain("spell.use."@ + offered[i], offered[i], seq![]))
    };
    suggestions + seq![rule(), plain("spell.learn"@, "Add to Dictionary"@, seq![])]
}

/// A row that does something and has no mark.
fn bare_row(id: &str, label: &str) -> (item: Item)
    ensures
        row_of(item) == plain(id@, label@, seq![]),
{
    let item = Item::new(id, label);
    assert(item.glyph@ =~= Seq::<char>::empty());
    assert(item.children@.map_values(|child: Item| leaf_of(child)) =~= Seq::<LeafView>::empty());
    item
}

/// The menu a right-click on a misspelled word offers, given the speller's
/// suggestions for it.
pub fn spelling_menu(offered: &Vec<String>) -> (items: Vec<Item>)
    ensures
        rows_of(items@) == spelling_rows(offered@.map_values(|one: String| one@)),
{
    let ghost said = offered@.map_values(|one: String| one@);
    let mut items: Vec<Item> = Vec::new();
    let mut i: usize = 0;
    while i < offered.len()
        invariant
            i <= offered@.len(),
            said == offered@.map_values(|one: String| one@),
            items@.len() == i,
            rows_of(items@) == Seq::new(i as nat, |j: int| plain("spell.use."@ + said[j], said[j], seq![])),
        decreases offered@.len() - i,
    {
        let id = String::from_str("spell.use.").concat(offered[i].as_str());
        assert(said[i as int] == offered@[i as int]@);
        let item = bare_row(id.as_str(), offered[i].as_str());
        assert(row_of(item) == plain("spell.use."@ + said[i as int], said[i as int], seq![]));
        let ghost had = items@;
        items.push(item);
        assert(items@ =~= had.push(item));
        assert forall|j: int| 0 <= j < i + 1 implies #[trigger] rows_of(items@)[j] == plain(
            "spell.use."@ + said[j],
            said[j],
            seq![],
        ) by {
            if j < i {
                assert(rows_of(items@)[j] == row_of(had[j]));
                assert(rows_of(had)[j] == row_of(had[j]));
            }
        }
        assert(rows_of(items@) =~= Seq::new((i + 1) as nat, |j: int| plain("spell.use."@ + said[j], said[j], seq![])));
        i = i + 1;
    }
    if items.len() == 0 {
        items.push(bare_row("spell.none", "No suggestions"));
    }
    items.push(rule_row());
    items.push(bare_row("spell.learn", "Add to Dictionary"));
    assert(rows_of(items@) =~= spelling_rows(said));
    items
}

/// What separates the parts of a spelling menu's subject.
pub open spec fn unit() -> char {
    '\u{1f}'
}

/// What a spelling menu is about, handed back with its choice: which box,
/// which line of it, where the word starts and ends, and the word, joined by
/// the unit separator.
pub open spec fn spelling_subject(
    name: Seq<char>,
    line: nat,
    start: nat,
    end: nat,
    word: Seq<char>,
) -> Seq<char> {
    name + seq![unit()] + spelled(line) + seq![unit()] + spelled(start) + seq![unit()] + spelled(end)
        + seq![unit()] + word
}

/// What a spelling menu is about.
pub fn spelling_about(name: &str, line: usize, start: usize, end: usize, word: &str) -> (about:
    String)
    ensures
        about@ == spelling_subject(name@, line as nat, start as nat, end as nat, word@),
{
    let gap = "\u{1f}";
    proof {
        reveal_strlit("\u{1f}");
    }
    assert(gap@ =~= seq![unit()]);
    let mut about = String::from_str(name);
    about.append(gap);
    about.append(spell(line as u64).as_str());
    about.append(gap);
    about.append(spell(start as u64).as_str());
    about.append(gap);
    about.append(spell(end as u64).as_str());
    about.append(gap);
    about.append(word);
    about
}

/// The parts of `text` between unit separators, as `str::split` finds them.
pub open spec fn fields(text: Seq<char>) -> Seq<Seq<char>>
    decreases text.len(),
{
    if text.len() == 0 {
        seq![seq![]]
    } else {
        let before = fields(text.drop_last());
        if text.last() == unit() {
            before.push(seq![])
        } else {
            before.update(before.len() - 1, before.last().push(text.last()))
        }
    }
}

/// Text split into fields always has at least one.
proof fn lemma_fields_are_never_none(text: Seq<char>)
    ensures
        fields(text).len() >= 1,
    decreases text.len(),
{
    if text.len() > 0 {
        lemma_fields_are_never_none(text.drop_last());
    }
}

/// The parts of a piece of text between unit separators.
fn split_fields(text: &str) -> (parts: Vec<String>)
    ensures
        parts@.map_values(|p: String| p@) == fields(text@),
{
    let n = text.unicode_len();
    let mut parts: Vec<String> = Vec::new();
    parts.push(String::new());
    assert(parts@.map_values(|p: String| p@) =~= fields(text@.take(0)));
    let mut i: usize = 0;
    while i < n
        invariant
            n == text@.len(),
            i <= n,
            parts@.map_values(|p: String| p@) == fields(text@.take(i as int)),
        decreases n - i,
    {
        let c = text.get_char(i);
        let ghost before = text@.take(i as int);
        assert(text@.take(i + 1).drop_last() =~= before);
        assert(text@.take(i + 1).last() == c);
        proof {
            lemma_fields_are_never_none(before);
        }
        if c == '\u{1f}' {
            parts.push(String::new());
            assert(parts@.map_values(|p: String| p@) =~= fields(before).push(seq![]));
        } else {
            let ghost had = parts@;
            let last = parts.len() - 1;
            assert(had.map_values(|p: String| p@)[last as int] == fields(before)[last as int]);
            let mut part = parts.remove(last);
            let one = text.substring_char(i, i + 1);
            assert(one@ =~= seq![c]);
            part.append(one);
            assert(part@ =~= fields(before).last().push(c));
            parts.push(part);
            assert(parts@ =~= had.take(last as int).push(part));
            assert forall|j: int| 0 <= j < last implies parts@[j]@ == fields(before)[j] by {
                assert(had.map_values(|p: String| p@)[j] == fields(before)[j]);
            }
            assert(parts@.map_values(|p: String| p@) =~= fields(before).update(
                fields(before).len() - 1,
                fields(before).last().push(c),
            ));
        }
        i = i + 1;
    }
    assert(text@.take(n as int) =~= text@);
    parts
}

/// What a spelling menu's subject says: the box, the line, where the word
/// starts and ends, and the word -- when it has exactly five parts and the
/// three in the middle are numbers.
pub open spec fn spelling_read(about: Seq<char>) -> Option<(Seq<char>, nat, nat, nat, Seq<char>)> {
    let parts = fields(about);
    if parts.len() != 5 {
        None
    } else {
        match (decimal(parts[1]), decimal(parts[2]), decimal(parts[3])) {
            (Some(line), Some(start), Some(end)) => Some((parts[0], line, start, end, parts[4])),
            _ => None,
        }
    }
}

/// What a spelling menu's subject says, if it says anything.
pub fn spelling_of(about: &str) -> (read: Option<(String, usize, usize, usize, String)>)
    ensures
        match read {
            Some((name, line, start, end, word)) => spelling_read(about@) == Some(
                (name@, line as nat, start as nat, end as nat, word@),
            ),
            None => spelling_read(about@) is None,
        },
{
    let parts = split_fields(about);
    let ghost seen = parts@.map_values(|p: String| p@);
    if parts.len() != 5 {
        return None;
    }
    assert(seen[1] == parts@[1]@ && seen[2] == parts@[2]@ && seen[3] == parts@[3]@);
    let line = match parse_index(parts[1].as_str()) {
        Some(line) => line,
        None => return None,
    };
    let start = match parse_index(parts[2].as_str()) {
        Some(start) => start,
        None => return None,
    };
    let end = match parse_index(parts[3].as_str()) {
        Some(end) => end,
        None => return None,
    };
    assert(seen[0] == parts@[0]@ && seen[4] == parts@[4]@);
    Some((parts[0].clone(), line, start, end, parts[4].clone()))
}

/// Digits written out are worth the number they were written from.
proof fn lemma_spelled_reads_back(n: nat)
    ensures
        value_of(spelled(n)) == n,
        spelled(n).len() > 0,
        forall|i: int| 0 <= i < spelled(n).len() ==> is_digit(#[trigger] spelled(n)[i]),
        spelled(n)[0] != '+',
    decreases n,
{
    let d = n % 10;
    assert(digit(d) as int - '0' as int == d) by {
        assert(seq!['0', '1', '2', '3', '4', '5', '6', '7', '8', '9'][d as int] as int == '0' as int
            + d);
    }
    assert(is_digit(digit(d)));
    if n >= 10 {
        lemma_spelled_reads_back(n / 10);
        let front = spelled(n / 10);
        let all = spelled(n);
        assert(all == front.push(digit(d)));
        assert(all.drop_last() =~= front);
        assert(all.last() == digit(d));
        assert(value_of(all) == value_of(all.drop_last()) * 10 + ((all.last() as int) - ('0' as int)) as nat);
        assert(value_of(all) == value_of(front) * 10 + d);
        assert((n / 10) * 10 + n % 10 == n) by (nonlinear_arith);
        assert forall|i: int| 0 <= i < spelled(n).len() implies is_digit(#[trigger] spelled(n)[i]) by {
            if i < front.len() {
                assert(spelled(n)[i] == front[i]);
            }
        }
    } else {
        let all = spelled(n);
        assert(all == seq![digit(n)]);
        assert(n % 10 == n);
        assert(all.drop_last() =~= Seq::<char>::empty());
        assert(value_of(Seq::<char>::empty()) == 0);
        assert(all.last() == digit(d));
        assert(value_of(all) == value_of(all.drop_last()) * 10 + ((all.last() as int) - ('0' as int)) as nat);
    }
}

/// A number written out in decimal reads back as itself.
proof fn lemma_decimal_reads_back(n: nat)
    requires
        n <= usize::MAX,
    ensures
        decimal(spelled(n)) == Some(n),
{
    lemma_spelled_reads_back(n);
    assert(unsigned(spelled(n)) == spelled(n));
}

/// Fields of text joined by separators are those texts, when none of them
/// holds a separator.
proof fn lemma_fields_of_joined(front: Seq<char>, part: Seq<char>)
    requires
        !part.contains(unit()),
    ensures
        fields(front + seq![unit()] + part) == fields(front).push(part),
    decreases part.len(),
{
    if part.len() == 0 {
        let joined = front + seq![unit()];
        assert(joined.drop_last() =~= front);
        assert(joined.last() == unit());
        assert(front + seq![unit()] + part =~= joined);
        assert(part =~= Seq::<char>::empty());
        assert(fields(joined) == fields(front).push(seq![]));
    } else {
        let shorter = part.drop_last();
        assert(!shorter.contains(unit())) by {
            if shorter.contains(unit()) {
                let i = choose|i: int| 0 <= i < shorter.len() && shorter[i] == unit();
                assert(part[i] == unit());
            }
        }
        lemma_fields_of_joined(front, shorter);
        let joined = front + seq![unit()] + part;
        assert(joined.drop_last() =~= front + seq![unit()] + shorter);
        assert(joined.last() == part.last());
        assert(part.last() != unit()) by {
            assert(part[part.len() - 1] == part.last());
        }
        assert(fields(front).push(shorter).update(fields(front).len() as int, shorter.push(part.last()))
            =~= fields(front).push(part)) by {
            assert(shorter.push(part.last()) =~= part);
        }
    }
}

/// Text with no separator in it is one field.
proof fn lemma_one_field(part: Seq<char>)
    requires
        !part.contains(unit()),
    ensures
        fields(part) == seq![part],
    decreases part.len(),
{
    if part.len() > 0 {
        let shorter = part.drop_last();
        assert(!shorter.contains(unit())) by {
            if shorter.contains(unit()) {
                let i = choose|i: int| 0 <= i < shorter.len() && shorter[i] == unit();
                assert(part[i] == unit());
            }
        }
        lemma_one_field(shorter);
        assert(part.last() != unit()) by {
            assert(part[part.len() - 1] == part.last());
        }
        assert(shorter.push(part.last()) =~= part);
    } else {
        assert(part =~= Seq::<char>::empty());
    }
}

/// A spelling menu's subject reads back as what it was made from, as long
/// as neither the box's name nor the word holds the separator: the choice
/// always comes back to the word it was offered for.
pub proof fn lemma_spelling_reads_back(
    name: Seq<char>,
    line: nat,
    start: nat,
    end: nat,
    word: Seq<char>,
)
    requires
        !name.contains(unit()),
        !word.contains(unit()),
        line <= usize::MAX,
        start <= usize::MAX,
        end <= usize::MAX,
    ensures
        spelling_read(spelling_subject(name, line, start, end, word)) == Some(
            (name, line, start, end, word),
        ),
{
    lemma_decimal_reads_back(line);
    lemma_decimal_reads_back(start);
    lemma_decimal_reads_back(end);
    lemma_spelled_reads_back(line);
    lemma_spelled_reads_back(start);
    lemma_spelled_reads_back(end);
    assert forall|n: nat| #![trigger spelled(n)] n <= usize::MAX implies !spelled(n).contains(unit()) by {
        lemma_spelled_reads_back(n);
        if spelled(n).contains(unit()) {
            let i = choose|i: int| 0 <= i < spelled(n).len() && spelled(n)[i] == unit();
            assert(is_digit(spelled(n)[i]));
        }
    }
    lemma_one_field(name);
    let a = name;
    lemma_fields_of_joined(a, spelled(line));
    let b = a + seq![unit()] + spelled(line);
    lemma_fields_of_joined(b, spelled(start));
    let c = b + seq![unit()] + spelled(start);
    lemma_fields_of_joined(c, spelled(end));
    let d = c + seq![unit()] + spelled(end);
    lemma_fields_of_joined(d, word);
    assert(d + seq![unit()] + word =~= spelling_subject(name, line, start, end, word));
}

/// Whether two words are the same word when ASCII case is ignored, as
/// `str::eq_ignore_ascii_case` has it.
pub open spec fn same_ignoring_case(a: Seq<char>, b: Seq<char>) -> bool {
    a.len() == b.len() && forall|i: int| 0 <= i < a.len() ==> ascii_lower(#[trigger] a[i]) == ascii_lower(b[i])
}

/// Whether two words are the same word when ASCII case is ignored.
fn same_word_ignoring_case(a: &str, b: &str) -> (same: bool)
    ensures
        same == same_ignoring_case(a@, b@),
{
    let n = a.unicode_len();
    if n != b.unicode_len() {
        return false;
    }
    let mut i: usize = 0;
    while i < n
        invariant
            n == a@.len(),
            n == b@.len(),
            i <= n,
            forall|j: int| 0 <= j < i ==> ascii_lower(#[trigger] a@[j]) == ascii_lower(b@[j]),
        decreases n - i,
    {
        let x = a.get_char(i);
        let y = b.get_char(i);
        let lx: u32 = if 'A' <= x && x <= 'Z' {
            (x as u32) + 32
        } else {
            x as u32
        };
        let ly: u32 = if 'A' <= y && y <= 'Z' {
            (y as u32) + 32
        } else {
            y as u32
        };
        if lx != ly {
            return false;
        }
        i = i + 1;
    }
    true
}

/// The reader's own words once `word` has been taught: kept as they were,
/// with the word added at the end unless it is already there in some case.
pub open spec fn taught(kept: Seq<Seq<char>>, word: Seq<char>) -> Seq<Seq<char>> {
    if exists|i: int| 0 <= i < kept.len() && same_ignoring_case(#[trigger] kept[i], word) {
        kept
    } else {
        kept.push(word)
    }
}

/// Teaches the reader's own words one more.
pub fn learned(kept: &mut Vec<String>, word: &str)
    ensures
        final(kept)@.map_values(|w: String| w@) == taught(old(kept)@.map_values(|w: String| w@), word@),
{
    let ghost all = kept@.map_values(|w: String| w@);
    let mut i: usize = 0;
    while i < kept.len()
        invariant
            i <= kept@.len(),
            all == kept@.map_values(|w: String| w@),
            forall|j: int| 0 <= j < i ==> !same_ignoring_case(#[trigger] all[j], word@),
        decreases kept@.len() - i,
    {
        if same_word_ignoring_case(kept[i].as_str(), word) {
            assert(same_ignoring_case(all[i as int], word@));
            return;
        }
        i = i + 1;
    }
    kept.push(String::from_str(word));
    assert(kept@.map_values(|w: String| w@) =~= all.push(word@));
}


/// What a row of the channel menu asks for, as the contracts speak of it.
pub enum ChannelAsk {
    /// Move the channel into this category.
    Move(Seq<char>),
    Unread,
    Mute,
    Link,
    Add,
    Leave,
}

/// What a row of the channel menu asks for.
#[derive(Debug, Clone, PartialEq, Eq)]
pub enum ChannelChoice {
    /// Move the channel into the category with this id.
    Move(String),
    /// Mark it unread.
    Unread,
    /// Mute it, or unmute it.
    Mute,
    /// Copy a link to it.
    Link,
    /// Add members to it.
    Add,
    /// Leave it.
    Leave,
}

/// What a channel menu's row asks for, as the contracts speak of it.
pub open spec fn asked_of(choice: ChannelChoice) -> ChannelAsk {
    match choice {
        ChannelChoice::Move(category) => ChannelAsk::Move(category@),
        ChannelChoice::Unread => ChannelAsk::Unread,
        ChannelChoice::Mute => ChannelAsk::Mute,
        ChannelChoice::Link => ChannelAsk::Link,
        ChannelChoice::Add => ChannelAsk::Add,
        ChannelChoice::Leave => ChannelAsk::Leave,
    }
}

/// What a chosen id asks of a channel: anything of the channel menu's, by
/// the part after `channel.`; nothing for an id that is not the channel
/// menu's or that it does not know.
pub open spec fn channel_asked(id: Seq<char>) -> Option<ChannelAsk> {
    if id.len() >= 8 && id.take(8) == "channel."@ {
        let rest = id.skip(8);
        if rest.len() >= 5 && rest.take(5) == "move."@ {
            Some(ChannelAsk::Move(rest.skip(5)))
        } else if rest == "unread"@ {
            Some(ChannelAsk::Unread)
        } else if rest == "mute"@ {
            Some(ChannelAsk::Mute)
        } else if rest == "link"@ {
            Some(ChannelAsk::Link)
        } else if rest == "add"@ {
            Some(ChannelAsk::Add)
        } else if rest == "leave"@ {
            Some(ChannelAsk::Leave)
        } else {
            None
        }
    } else {
        None
    }
}

/// What a chosen id asks of a channel, if it is one of the channel menu's.
pub fn channel_choice(chosen: &str) -> (choice: Option<ChannelChoice>)
    ensures
        match choice {
            Some(c) => channel_asked(chosen@) == Some(asked_of(c)),
            None => channel_asked(chosen@) is None,
        },
{
    proof {
        reveal_strlit("channel.");
        reveal_strlit("move.");
    }
    if !starts_with(chosen, "channel.") {
        return None;
    }
    let n = chosen.unicode_len();
    let rest = chosen.substring_char(8, n);
    assert(rest@ == chosen@.skip(8));
    if starts_with(rest, "move.") {
        let m = rest.unicode_len();
        let category = rest.substring_char(5, m);
        assert(category@ == rest@.skip(5));
        return Some(ChannelChoice::Move(String::from_str(category)));
    }
    if same_text(rest, "unread") {
        Some(ChannelChoice::Unread)
    } else if same_text(rest, "mute") {
        Some(ChannelChoice::Mute)
    } else if same_text(rest, "link") {
        Some(ChannelChoice::Link)
    } else if same_text(rest, "add") {
        Some(ChannelChoice::Add)
    } else if same_text(rest, "leave") {
        Some(ChannelChoice::Leave)
    } else {
        None
    }
}

/// The row the channel menu builds for moving into `category` is read back
/// as a move into it.
proof fn lemma_a_move_is_read_back(category: Seq<char>)
    ensures
        channel_asked(move_id(category)) == Some(ChannelAsk::Move(category)),
{
    reveal_strlit("channel.move.");
    reveal_strlit("channel.");
    reveal_strlit("move.");
    let id = move_id(category);
    assert(id.take(8) =~= "channel."@);
    assert(id.skip(8).take(5) =~= "move."@);
    assert(id.skip(8).skip(5) =~= category);
}

/// Every row the channel menu offers is one the window knows how to act on:
/// each row that does something asks for what it says, and each row of the
/// list of places to move to asks to move into that place. The id a row
/// carries and the choice it is read back as cannot disagree.
pub proof fn lemma_every_channel_row_is_understood(
    channel: Seq<char>,
    team: Seq<char>,
    channel_type: Seq<char>,
    muted: bool,
    categories: Seq<CategoryView>,
    marks: Marks,
)
    ensures
        ({
            let rows = channel_rows(channel, team, channel_type, muted, categories, marks);
            &&& forall|i: int|
                0 <= i < rows.len() && !(#[trigger] rows[i]).leaf.rule && rows[i].children.len() == 0
                    ==> channel_asked(rows[i].leaf.id) is Some
            &&& forall|i: int, k: int|
                0 <= i < rows.len() && 0 <= k < (#[trigger] rows[i]).children.len() ==> exists|
                    category: Seq<char>,
                | #[trigger] channel_asked(rows[i].children[k].id) == Some(ChannelAsk::Move(category))
        }),
{
    reveal_strlit("channel.");
    reveal_strlit("channel.unread");
    reveal_strlit("channel.mute");
    reveal_strlit("channel.link");
    reveal_strlit("channel.add");
    reveal_strlit("channel.leave");
    reveal_strlit("unread");
    reveal_strlit("mute");
    reveal_strlit("link");
    reveal_strlit("add");
    reveal_strlit("leave");
    reveal_strlit("move.");
    assert("channel.unread"@.take(8) =~= "channel."@ && "channel.unread"@.skip(8) =~= "unread"@);
    assert("channel.mute"@.take(8) =~= "channel."@ && "channel.mute"@.skip(8) =~= "mute"@);
    assert("channel.link"@.take(8) =~= "channel."@ && "channel.link"@.skip(8) =~= "link"@);
    assert("channel.add"@.take(8) =~= "channel."@ && "channel.add"@.skip(8) =~= "add"@);
    assert("channel.leave"@.take(8) =~= "channel."@ && "channel.leave"@.skip(8) =~= "leave"@);
    assert("unread"@.take(5) != "move."@) by {
        assert("unread"@.take(5)[0] != "move."@[0]);
    }
    assert("mute"@.len() < 5 && "link"@.len() < 5 && "add"@.len() < 5);
    assert("leave"@.take(5) != "move."@) by {
        assert("leave"@.take(5)[0] != "move."@[0]);
    }
    let favourites = first_of_kind(categories, "favorites"@, team);
    let everyday = first_of_kind(categories, "channels"@, team);
    if favourites is Some && everyday is Some {
        lemma_a_move_is_read_back(favourites->0.id);
        lemma_a_move_is_read_back(everyday->0.id);
    }
    let targets = moves_for(categories, team, channel);
    lemma_moves_are_read_back(categories, team, channel);
    let rows = channel_rows(channel, team, channel_type, muted, categories, marks);
    assert forall|i: int, k: int|
        0 <= i < rows.len() && 0 <= k < (#[trigger] rows[i]).children.len() implies exists|
            category: Seq<char>,
        | #[trigger] channel_asked(rows[i].children[k].id) == Some(ChannelAsk::Move(category)) by {
        assert(rows[i].children == targets);
        assert(channel_asked(targets[k].id) == Some(ChannelAsk::Move(targets[k].id.skip(13))));
    }
}

/// Every place the channel menu offers to move to is read back as a move.
proof fn lemma_moves_are_read_back(categories: Seq<CategoryView>, team: Seq<char>, channel: Seq<char>)
    ensures
        forall|k: int|
            0 <= k < moves_for(categories, team, channel).len() ==> channel_asked(
                #[trigger] moves_for(categories, team, channel)[k].id,
            ) == Some(ChannelAsk::Move(moves_for(categories, team, channel)[k].id.skip(13))),
    decreases categories.len(),
{
    reveal_strlit("channel.move.");
    if categories.len() > 0 {
        let before = categories.drop_last();
        lemma_moves_are_read_back(before, team, channel);
        let c = categories.last();
        lemma_a_move_is_read_back(c.id);
        assert(move_id(c.id).skip(13) =~= c.id);
    }
}

/// What a row of the spelling menu asks for, as the contracts speak of it.
pub enum SpellAsk {
    /// Put this word in place of the misspelled one.
    Use(Seq<char>),
    /// Keep the word, and teach it to the dictionary.
    Learn,
}

/// What a row of the spelling menu asks for.
#[derive(Debug, Clone, PartialEq, Eq)]
pub enum SpellChoice {
    /// Put this word in place of the misspelled one.
    Use(String),
    /// Keep the word, and teach it to the dictionary.
    Learn,
}

/// What a chosen id asks of a misspelled word: `spell.learn` teaches it,
/// `spell.use.` and a word puts that word in its place, and anything else
/// asks nothing.
pub open spec fn spell_asked(id: Seq<char>) -> Option<SpellAsk> {
    if id == "spell.learn"@ {
        Some(SpellAsk::Learn)
    } else if id.len() >= 10 && id.take(10) == "spell.use."@ {
        Some(SpellAsk::Use(id.skip(10)))
    } else {
        None
    }
}

/// What a chosen id asks of a misspelled word, if anything.
pub fn spelling_choice(chosen: &str) -> (choice: Option<SpellChoice>)
    ensures
        match choice {
            Some(SpellChoice::Learn) => spell_asked(chosen@) == Some(SpellAsk::Learn),
            Some(SpellChoice::Use(with)) => spell_asked(chosen@) == Some(SpellAsk::Use(with@)),
            None => spell_asked(chosen@) is None,
        },
{
    proof {
        reveal_strlit("spell.use.");
    }
    if same_text(chosen, "spell.learn") {
        return Some(SpellChoice::Learn);
    }
    if !starts_with(chosen, "spell.use.") {
        return None;
    }
    let n = chosen.unicode_len();
    let with = chosen.substring_char(10, n);
    assert(with@ == chosen@.skip(10));
    Some(SpellChoice::Use(String::from_str(with)))
}

/// Every suggestion the spelling menu offers is read back as that word, its
/// last row as teaching the word, and the row saying there is nothing to
/// offer as asking nothing.
pub proof fn lemma_every_spelling_row_is_understood(offered: Seq<Seq<char>>)
    ensures
        ({
            let rows = spelling_rows(offered);
            &&& forall|i: int|
                0 <= i < offered.len() ==> spell_asked(#[trigger] rows[i].leaf.id) == Some(
                    SpellAsk::Use(offered[i]),
                )
            &&& spell_asked(rows.last().leaf.id) == Some(SpellAsk::Learn)
            &&& offered.len() == 0 ==> spell_asked(rows[0].leaf.id) is None
        }),
{
    reveal_strlit("spell.use.");
    reveal_strlit("spell.learn");
    reveal_strlit("spell.none");
    let rows = spelling_rows(offered);
    assert forall|i: int| 0 <= i < offered.len() implies spell_asked(#[trigger] rows[i].leaf.id)
        == Some(SpellAsk::Use(offered[i])) by {
        let id = "spell.use."@ + offered[i];
        assert(rows[i].leaf.id == id);
        assert(id != "spell.learn"@) by {
            assert(id[6] != "spell.learn"@[6]);
        }
        assert(id.take(10) =~= "spell.use."@);
        assert(id.skip(10) =~= offered[i]);
    }
    if offered.len() == 0 {
        assert(rows[0].leaf.id == "spell.none"@);
        assert("spell.none"@.take(10) != "spell.use."@) by {
            assert("spell.none"@[6] != "spell.use."@[6]);
        }
    }
}

} // verus!
