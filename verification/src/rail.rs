//! The teams, down the far left: what each square is, which pictures the
//! strip asks for, which square a press chose, and what a team's name is
//! reduced to on a square.
//!
//! Where each square sits is a matter of pixels and is left to the window.

use crate::input::Input;
use crate::input::starts_with;
use crate::session::same_text;
use crate::text::{is_white, white};
use vstd::prelude::*;
use vstd::string::*;

verus! {

/// What the direct-messages button answers to.
pub const DIRECTS: &'static str = "directs";

/// What the unread button answers to.
pub const UNREAD: &'static str = "unread";

/// What the gear answers to.
pub const SETTINGS: &'static str = "settings";

/// The size a team's icon is fetched at, which is the size of a square.
pub const ICON_FETCHED: u32 = 30;

/// What a square on the rail is.
#[derive(Debug, Clone, Copy, PartialEq, Eq, Structural)]
pub enum Kind {
    /// A team: an icon to fetch, and its initials until that arrives.
    Team,
    /// Direct messages, which are not a team and have no icon of their own.
    Directs,
    /// The conversations with something waiting: a thing to do rather than a
    /// place to be.
    Unread,
    /// What this copy of the program has been told to do.
    Settings,
}

impl Kind {
    /// Whether this square belongs at the foot of the strip: only the gear
    /// does, being about the program rather than a place in it.
    pub fn at_the_foot(self) -> (foot: bool)
        ensures
            foot <==> self is Settings,
    {
        matches!(self, Kind::Settings)
    }
}

/// One square on the rail.
#[derive(Debug, Clone, PartialEq, Eq)]
pub struct Tile {
    pub id: String,
    pub name: String,
    /// What is waiting in it, which the corner shows as a dot or a count.
    pub unread: i64,
    pub mentions: i64,
    pub kind: Kind,
}

/// A square, as the contracts speak of it.
pub struct TileView {
    pub id: Seq<char>,
    pub name: Seq<char>,
    pub unread: i64,
    pub mentions: i64,
    pub kind: Kind,
}

impl View for Tile {
    type V = TileView;

    open spec fn view(&self) -> TileView {
        TileView {
            id: self.id@,
            name: self.name@,
            unread: self.unread,
            mentions: self.mentions,
            kind: self.kind,
        }
    }
}

/// The teams, and which one the reader is in.
#[derive(Debug)]
pub struct Rail {
    pub teams: Vec<Tile>,
    pub chosen: Option<String>,
}

impl Default for Rail {
    fn default() -> (rail: Rail)
        ensures
            rail.teams@.len() == 0,
            rail.chosen is None,
    {
        Rail { teams: Vec::new(), chosen: None }
    }
}

/// What a team's icon is called in the atlas comes after this.
pub open spec fn icon_prefix() -> Seq<char> {
    seq!['t', 'e', 'a', 'm', '/']
}

/// What the squares on the rail are called past the rail's own name.
pub open spec fn rail_prefix() -> Seq<char> {
    seq!['r', 'a', 'i', 'l', '/']
}

/// What a team's icon is called in the atlas.
pub fn icon_key(team_id: &str) -> (key: String)
    ensures
        key@ == icon_prefix() + team_id@,
{
    let prefix = String::from_str("team/");
    proof {
        reveal_strlit("team/");
    }
    assert(prefix@ == icon_prefix());
    prefix.concat(team_id)
}

/// The icons a run of squares asks for, in order: one for each team, and none
/// for a square that is not one.
pub open spec fn icons_of(teams: Seq<TileView>) -> Seq<Seq<char>>
    decreases teams.len(),
{
    if teams.len() == 0 {
        Seq::empty()
    } else {
        let before = icons_of(teams.drop_last());
        if teams.last().kind is Team {
            before.push(icon_prefix() + teams.last().id)
        } else {
            before
        }
    }
}

/// The part of `name` after `prefix`, for a name that begins with it.
pub open spec fn after_prefix(prefix: Seq<char>, name: Seq<char>) -> Option<Seq<char>> {
    if prefix.len() <= name.len() && name.take(prefix.len() as int) == prefix {
        Some(name.skip(prefix.len() as int))
    } else {
        None
    }
}

/// Only a team asks for a picture: every icon a run of squares asks for is
/// the icon of one of its squares that is a team, and a run with no team in
/// it asks for none.
pub proof fn lemma_only_teams_are_fetched(teams: Seq<TileView>)
    ensures
        forall|k: int|
            0 <= k < icons_of(teams).len() ==> exists|i: int|
                0 <= i < teams.len() && (#[trigger] teams[i]).kind is Team && #[trigger] icons_of(
                    teams,
                )[k] == icon_prefix() + teams[i].id,
        (forall|i: int| 0 <= i < teams.len() ==> !(#[trigger] teams[i].kind is Team)) ==> icons_of(
            teams,
        ).len() == 0,
    decreases teams.len(),
{
    if teams.len() > 0 {
        let before = teams.drop_last();
        lemma_only_teams_are_fetched(before);
        assert forall|k: int| 0 <= k < icons_of(teams).len() implies exists|i: int|
            0 <= i < teams.len() && (#[trigger] teams[i]).kind is Team && #[trigger] icons_of(
                teams,
            )[k] == icon_prefix() + teams[i].id by {
            if k < icons_of(before).len() {
                let i = choose|i: int|
                    0 <= i < before.len() && (#[trigger] before[i]).kind is Team && #[trigger] icons_of(
                        before,
                    )[k] == icon_prefix() + before[i].id;
                assert(teams[i] == before[i]);
            } else {
                assert(teams[teams.len() - 1] == teams.last());
            }
        }
        if forall|i: int| 0 <= i < teams.len() ==> !(#[trigger] teams[i].kind is Team) {
            assert forall|i: int| 0 <= i < before.len() implies !(#[trigger] before[i].kind is Team) by {
                assert(before[i] == teams[i]);
            }
            assert(!(teams[teams.len() - 1].kind is Team));
        }
    }
}

impl Rail {
    /// The squares, as the contracts speak of them.
    pub open spec fn tiles(&self) -> Seq<TileView> {
        self.teams@.map_values(|tile: Tile| tile@)
    }

    /// Which team was chosen by this frame's press, if one was: whatever a
    /// press on a square named after `rail/` names.
    pub fn react(&self, input: &Input) -> (chose: Option<String>)
        ensures
            match input@.clicked {
                None => chose is None,
                Some(clicked) => match after_prefix(rail_prefix(), clicked) {
                    None => chose is None,
                    Some(id) => chose matches Some(c) && c@ == id,
                },
            },
    {
        let clicked = match input.clicked() {
            Some(name) => name,
            None => return None,
        };
        proof {
            reveal_strlit("rail/");
        }
        let prefix = "rail/";
        assert(prefix@ == rail_prefix());
        if !starts_with(clicked, prefix) {
            return None;
        }
        let n = clicked.unicode_len();
        Some(String::from_str(clicked.substring_char(5, n)))
    }

    /// What a square is, said in words for the pointer resting on it: the
    /// envelope is what it stands for, the unread button too, and a team is
    /// its name. Nothing for a name that is not one of the rail's squares.
    pub fn explains(&self, name: &str) -> (said: Option<String>)
        ensures
            match said {
                Some(s) => after_prefix(rail_prefix(), name@) matches Some(id) && (
                    (id == DIRECTS@ && s@ == "Direct messages"@)
                    || (id == UNREAD@ && s@ == "Unread channels"@)
                    || (id != DIRECTS@ && id != UNREAD@ && exists|i: int|
                        0 <= i < self.tiles().len() && (#[trigger] self.tiles()[i]).id == id
                            && s@ == self.tiles()[i].name && forall|j: int|
                            0 <= j < i ==> (#[trigger] self.tiles()[j]).id != id)),
                None => after_prefix(rail_prefix(), name@) matches Some(id) ==> id != DIRECTS@ && id
                    != UNREAD@ && forall|i: int|
                    0 <= i < self.tiles().len() ==> (#[trigger] self.tiles()[i]).id != id,
            },
    {
        proof {
            reveal_strlit("rail/");
        }
        let prefix = "rail/";
        assert(prefix@ == rail_prefix());
        if !starts_with(name, prefix) {
            return None;
        }
        let n = name.unicode_len();
        let id = name.substring_char(5, n);
        assert(id@ == name@.skip(5));
        if same_text(id, DIRECTS) {
            return Some(String::from_str("Direct messages"));
        }
        if same_text(id, UNREAD) {
            return Some(String::from_str("Unread channels"));
        }
        assert(after_prefix(rail_prefix(), name@) == Some(id@));
        let mut i: usize = 0;
        while i < self.teams.len()
            invariant
                i <= self.teams@.len(),
                after_prefix(rail_prefix(), name@) == Some(id@),
                id@ != DIRECTS@,
                id@ != UNREAD@,
                forall|j: int| 0 <= j < i ==> (#[trigger] self.tiles()[j]).id != id@,
            decreases self.teams@.len() - i,
        {
            assert(self.tiles()[i as int] == self.teams@[i as int]@);
            if same_text(self.teams[i].id.as_str(), id) {
                return Some(self.teams[i].name.clone());
            }
            i = i + 1;
        }
        None
    }

    /// The pictures it wants, so the caller can fetch them: a team's icon at
    /// the size of a square, for each team and nothing else.
    pub fn wants(&self) -> (wanted: Vec<(String, u32, u32)>)
        ensures
            wanted@.len() == icons_of(self.tiles()).len(),
            forall|i: int|
                0 <= i < wanted@.len() ==> {
                    &&& (#[trigger] wanted@[i]).0@ == icons_of(self.tiles())[i]
                    &&& wanted@[i].1 == ICON_FETCHED
                    &&& wanted@[i].2 == ICON_FETCHED
                },
    {
        let mut wanted: Vec<(String, u32, u32)> = Vec::new();
        let mut i: usize = 0;
        while i < self.teams.len()
            invariant
                i <= self.teams@.len(),
                wanted@.len() == icons_of(self.tiles().take(i as int)).len(),
                forall|j: int|
                    0 <= j < wanted@.len() ==> {
                        &&& (#[trigger] wanted@[j]).0@ == icons_of(self.tiles().take(i as int))[j]
                        &&& wanted@[j].1 == ICON_FETCHED
                        &&& wanted@[j].2 == ICON_FETCHED
                    },
            decreases self.teams@.len() - i,
        {
            let ghost before = self.tiles().take(i as int);
            assert(self.tiles().take(i + 1).drop_last() =~= before);
            assert(self.tiles().take(i + 1).last() == self.teams@[i as int]@);
            let team = &self.teams[i];
            if team.kind == Kind::Team {
                let key = icon_key(team.id.as_str());
                wanted.push((key, ICON_FETCHED, ICON_FETCHED));
            }
            i = i + 1;
        }
        assert(self.tiles().take(self.teams@.len() as int) =~= self.tiles());
        wanted
    }
}

/// The name a team goes by on the rail: the one it is shown by, or its own
/// name where that is empty.
pub open spec fn shown_name(name: Seq<char>, display: Seq<char>) -> Seq<char> {
    if display.len() == 0 {
        name
    } else {
        display
    }
}

/// Whether no team before `i` has the id of team `i`: a count goes to the
/// first team with the id its row names.
pub open spec fn first_of_its_id(teams: Seq<(String, String, String)>, i: int) -> bool {
    forall|j: int| 0 <= j < i ==> #[trigger] teams[j].0@ != teams[i].0@
}

/// What a sidebar row adds: its unread count, or its mentions.
pub open spec fn count_of(row: (Option<String>, bool, bool, i64, i64), mentions: bool) -> int {
    if mentions {
        row.4 as int
    } else {
        row.3 as int
    }
}

/// Whether a sidebar row counts toward team `i`: a channel that is not muted,
/// not a direct conversation, and in that team.
pub open spec fn counts_toward(
    teams: Seq<(String, String, String)>,
    i: int,
    row: (Option<String>, bool, bool, i64, i64),
) -> bool {
    &&& !row.1
    &&& !row.2
    &&& row.0 matches Some(team) && team@ == teams[i].0@
    &&& first_of_its_id(teams, i)
}

/// What is waiting in team `i`, summed over the rows.
pub open spec fn team_sum(
    teams: Seq<(String, String, String)>,
    i: int,
    rows: Seq<(Option<String>, bool, bool, i64, i64)>,
    mentions: bool,
) -> int
    decreases rows.len(),
{
    if rows.len() == 0 {
        0
    } else {
        team_sum(teams, i, rows.drop_last(), mentions) + if counts_toward(teams, i, rows.last()) {
            count_of(rows.last(), mentions)
        } else {
            0
        }
    }
}

/// What is waiting in the direct conversations that are not muted.
pub open spec fn direct_sum(rows: Seq<(Option<String>, bool, bool, i64, i64)>, mentions: bool) -> int
    decreases rows.len(),
{
    if rows.len() == 0 {
        0
    } else {
        direct_sum(rows.drop_last(), mentions) + if !rows.last().1 && rows.last().2 {
            count_of(rows.last(), mentions)
        } else {
            0
        }
    }
}

/// Whether every running total, row by row, is an `i64`.
pub open spec fn sums_fit(
    teams: Seq<(String, String, String)>,
    rows: Seq<(Option<String>, bool, bool, i64, i64)>,
) -> bool {
    &&& forall|k: int, i: int, mentions: bool|
        0 <= k <= rows.len() && 0 <= i < teams.len() ==> i64::MIN <= #[trigger] team_sum(
            teams,
            i,
            rows.take(k),
            mentions,
        ) <= i64::MAX
    &&& forall|k: int, mentions: bool|
        0 <= k <= rows.len() ==> i64::MIN <= #[trigger] direct_sum(rows.take(k), mentions)
            <= i64::MAX
}

/// Square `k` of the rail built from `teams` (id, name, the name shown) and
/// the sidebar's `rows`: the unread button, each team, direct messages, and
/// the gear.
pub open spec fn tile_at(
    teams: Seq<(String, String, String)>,
    rows: Seq<(Option<String>, bool, bool, i64, i64)>,
    k: int,
) -> TileView {
    if k == 0 {
        TileView { id: UNREAD@, name: "Unread"@, unread: 0, mentions: 0, kind: Kind::Unread }
    } else if k <= teams.len() {
        TileView {
            id: teams[k - 1].0@,
            name: shown_name(teams[k - 1].1@, teams[k - 1].2@),
            unread: team_sum(teams, k - 1, rows, false) as i64,
            mentions: team_sum(teams, k - 1, rows, true) as i64,
            kind: Kind::Team,
        }
    } else if k == teams.len() + 1 {
        TileView {
            id: DIRECTS@,
            name: "Direct messages"@,
            unread: direct_sum(rows, false) as i64,
            mentions: direct_sum(rows, true) as i64,
            kind: Kind::Directs,
        }
    } else {
        TileView { id: SETTINGS@, name: "Settings"@, unread: 0, mentions: 0, kind: Kind::Settings }
    }
}

/// The first team whose id is `id`, if any.
fn first_team(teams: &Vec<(String, String, String)>, id: &str) -> (at: Option<usize>)
    ensures
        match at {
            Some(p) => p < teams@.len() && teams@[p as int].0@ == id@ && forall|q: int|
                0 <= q < p ==> #[trigger] teams@[q].0@ != id@,
            None => forall|q: int| 0 <= q < teams@.len() ==> #[trigger] teams@[q].0@ != id@,
        },
{
    let mut p: usize = 0;
    while p < teams.len()
        invariant
            p <= teams@.len(),
            forall|q: int| 0 <= q < p ==> #[trigger] teams@[q].0@ != id@,
        decreases teams@.len() - p,
    {
        if same_text(teams[p].0.as_str(), id) {
            return Some(p);
        }
        p = p + 1;
    }
    None
}

/// The squares of the rail: the unread button first, then each team under
/// the name it is shown by, with what is waiting in its channels, then direct
/// messages with what is waiting in them, then the gear. A muted row adds
/// nothing anywhere, and a channel whose team is not known adds to no team.
pub fn rail_tiles(
    teams: &Vec<(String, String, String)>,
    rows: &Vec<(Option<String>, bool, bool, i64, i64)>,
) -> (tiles: Vec<Tile>)
    requires
        teams@.len() + 3 <= usize::MAX,
        sums_fit(teams@, rows@),
    ensures
        tiles@.len() == teams@.len() + 3,
        forall|k: int| 0 <= k < tiles@.len() ==> #[trigger] tiles@[k]@ == tile_at(teams@, rows@, k),
{
    let n = teams.len();
    let mut unread: Vec<i64> = Vec::new();
    let mut mentions: Vec<i64> = Vec::new();
    let mut i: usize = 0;
    while i < n
        invariant
            n == teams@.len(),
            i <= n,
            unread@.len() == i,
            mentions@.len() == i,
            forall|j: int| 0 <= j < i ==> #[trigger] unread@[j] == 0 && mentions@[j] == 0,
        decreases n - i,
    {
        unread.push(0);
        mentions.push(0);
        i = i + 1;
    }
    let mut direct_unread: i64 = 0;
    let mut direct_mentions: i64 = 0;
    let mut r: usize = 0;
    assert(rows@.take(0) =~= Seq::<(Option<String>, bool, bool, i64, i64)>::empty());
    while r < rows.len()
        invariant
            n == teams@.len(),
            r <= rows@.len(),
            unread@.len() == n,
            mentions@.len() == n,
            sums_fit(teams@, rows@),
            forall|j: int|
                0 <= j < n ==> #[trigger] unread@[j] == team_sum(
                    teams@,
                    j,
                    rows@.take(r as int),
                    false,
                ) && mentions@[j] == team_sum(teams@, j, rows@.take(r as int), true),
            direct_unread == direct_sum(rows@.take(r as int), false),
            direct_mentions == direct_sum(rows@.take(r as int), true),
        decreases rows@.len() - r,
    {
        let ghost before = rows@.take(r as int);
        let ghost after = rows@.take(r + 1);
        assert(after.drop_last() =~= before);
        assert(after.last() == rows@[r as int]);
        assert(i64::MIN <= direct_sum(after, false) <= i64::MAX);
        assert(i64::MIN <= direct_sum(after, true) <= i64::MAX);
        let row = &rows[r];
        if !row.1 {
            if row.2 {
                direct_unread = direct_unread + row.3;
                direct_mentions = direct_mentions + row.4;
            } else {
                match &row.0 {
                    Some(team) => {
                        match first_team(teams, team.as_str()) {
                            Some(at) => {
                                assert(counts_toward(teams@, at as int, *row));
                                assert(i64::MIN <= team_sum(teams@, at as int, after, false)
                                    <= i64::MAX);
                                assert(i64::MIN <= team_sum(teams@, at as int, after, true)
                                    <= i64::MAX);
                                let u = unread[at] + row.3;
                                let m = mentions[at] + row.4;
                                unread.set(at, u);
                                mentions.set(at, m);
                                assert forall|j: int| 0 <= j < n && j != at implies !counts_toward(
                                    teams@,
                                    j,
                                    *row,
                                ) by {
                                    if counts_toward(teams@, j, *row) {
                                        if j < at {
                                            assert(teams@[j].0@ != team@);
                                        } else {
                                            assert(teams@[at as int].0@ != teams@[j].0@);
                                        }
                                    }
                                }
                            },
                            None => {
                                assert forall|j: int| 0 <= j < n implies !counts_toward(
                                    teams@,
                                    j,
                                    *row,
                                ) by {
                                    assert(teams@[j].0@ != team@);
                                }
                            },
                        }
                    },
                    None => {},
                }
            }
        }
        r = r + 1;
    }
    assert(rows@.take(rows@.len() as int) =~= rows@);
    let mut tiles: Vec<Tile> = Vec::new();
    tiles.push(
        Tile {
            id: String::from_str(UNREAD),
            name: String::from_str("Unread"),
            unread: 0,
            mentions: 0,
            kind: Kind::Unread,
        },
    );
    let mut i: usize = 0;
    while i < n
        invariant
            n == teams@.len(),
            i <= n,
            unread@.len() == n,
            mentions@.len() == n,
            forall|j: int|
                0 <= j < n ==> #[trigger] unread@[j] == team_sum(teams@, j, rows@, false)
                    && mentions@[j] == team_sum(teams@, j, rows@, true),
            tiles@.len() == i + 1,
            forall|k: int| 0 <= k < tiles@.len() ==> #[trigger] tiles@[k]@ == tile_at(teams@, rows@, k),
        decreases n - i,
    {
        let team = &teams[i];
        let name = if team.2.as_str().is_empty() {
            team.1.clone()
        } else {
            team.2.clone()
        };
        tiles.push(
            Tile {
                id: team.0.clone(),
                name,
                unread: unread[i],
                mentions: mentions[i],
                kind: Kind::Team,
            },
        );
        i = i + 1;
    }
    tiles.push(
        Tile {
            id: String::from_str(DIRECTS),
            name: String::from_str("Direct messages"),
            unread: direct_unread,
            mentions: direct_mentions,
            kind: Kind::Directs,
        },
    );
    tiles.push(
        Tile {
            id: String::from_str(SETTINGS),
            name: String::from_str("Settings"),
            unread: 0,
            mentions: 0,
            kind: Kind::Settings,
        },
    );
    tiles
}

/// The first letter of each word of `text`, in order, where a word is a run
/// of characters that are not white space.
pub open spec fn word_starts(text: Seq<char>) -> Seq<char>
    decreases text.len(),
{
    if text.len() == 0 {
        Seq::empty()
    } else {
        let before = text.drop_last();
        let c = text.last();
        if !white(c) && (before.len() == 0 || white(before.last())) {
            word_starts(before).push(c)
        } else {
            word_starts(before)
        }
    }
}

/// At most the first two of `letters`.
pub open spec fn first_two(letters: Seq<char>) -> Seq<char> {
    if letters.len() <= 2 {
        letters
    } else {
        letters.take(2)
    }
}

/// What `str::to_uppercase` makes of a piece of text: Unicode's own upper
/// case, character by character, which the standard library's tables decide.
pub uninterp spec fn upper(text: Seq<char>) -> Seq<char>;

/// `str::to_uppercase`. Claimed of it: the result is `upper` of its argument,
/// a function of the text alone, and no shorter than it -- a character may
/// grow into several when its case changes, as the documentation says, but
/// none is dropped.
#[verifier::external_body]
fn upper_case(text: &str) -> (loud: String)
    ensures
        loud@ == upper(text@),
        loud@.len() >= text@.len(),
{
    text.to_uppercase()
}

/// What a square says for a team called `name`: the first letter of each of
/// its first two words, in upper case, or a question mark for a name with no
/// word in it.
pub open spec fn initials_of(name: Seq<char>) -> Seq<char> {
    let letters = first_two(word_starts(name));
    if letters.len() == 0 {
        seq!['?']
    } else {
        upper(letters)
    }
}

/// A team name reduced to what fits on a square.
///
/// Never empty: a blank square says nothing about which team it is, and a
/// team without a name is still a team the reader can press.
pub fn initials(name: &str) -> (said: String)
    ensures
        said@ == initials_of(name@),
        said@.len() > 0,
{
    let n = name.unicode_len();
    let mut letters = String::new();
    let mut i: usize = 0;
    let mut after_white = true;
    while i < n
        invariant
            n == name@.len(),
            i <= n,
            letters@ == first_two(word_starts(name@.take(i as int))),
            after_white == (i == 0 || white(name@[i - 1])),
        decreases n - i,
    {
        let c = name.get_char(i);
        let ghost before = name@.take(i as int);
        assert(name@.take(i + 1).drop_last() =~= before);
        assert(name@.take(i + 1).last() == c);
        let white_here = is_white(c);
        if !white_here && after_white {
            if letters.as_str().unicode_len() < 2 {
                let one = name.substring_char(i, i + 1);
                assert(one@ =~= seq![c]);
                letters.append(one);
                assert(letters@ =~= first_two(word_starts(before).push(c)));
            } else {
                assert(first_two(word_starts(before).push(c)) =~= first_two(word_starts(before)));
            }
        }
        after_white = white_here;
        i = i + 1;
    }
    assert(name@.take(n as int) =~= name@);
    if letters.as_str().unicode_len() == 0 {
        let unknown = String::from_str("?");
        proof {
            reveal_strlit("?");
        }
        assert(unknown@ =~= seq!['?']);
        unknown
    } else {
        upper_case(letters.as_str())
    }
}

} // verus!
