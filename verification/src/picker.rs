//! Choosing an emoji to react with: which hit boxes are the picker's, what a
//! group's tab shows, and where the arrows move the selection on the grid.
//!
//! The emoji tables, the search and the drawing are the window's.

use crate::input::Input;
use crate::input::Key;
use crate::input::named;
use crate::input::slug;
use crate::input::slug_of;
use crate::session::same_text;
use vstd::prelude::*;
use vstd::string::*;

verus! {

/// What the picker's hit boxes are called.
pub const NAME: &'static str = "picker";

/// How many tiles a row of the grid holds.
pub const COLUMNS: usize = 8;

/// Whether a hit box belongs to the picker: the panel and the field in it,
/// every tile, every group tab, and the bar.
pub open spec fn owned(name: Seq<char>) -> bool {
    ||| name == "picker"@
    ||| slug_of("picker"@, name) is Some
    ||| slug_of("picker/tab"@, name) is Some
    ||| name == "picker/scrollbar"@
}

/// Whether a hit box belongs to the picker, so that a press anywhere else can
/// put the picker away.
pub fn owns(name: &str) -> (mine: bool)
    ensures
        mine == owned(name@),
{
    same_text(name, NAME) || slug(NAME, name).is_some() || slug("picker/tab", name).is_some()
        || same_text(name, "picker/scrollbar")
}

/// The picker owns every hit box it places and nothing of anybody else's:
/// its panel and field (`picker`), its bar, every tile and every group tab
/// (each `picker/` and something more); and any name it owns begins with its
/// own.
pub proof fn lemma_the_picker_owns_its_boxes(more: Seq<char>, name: Seq<char>)
    ensures
        owned("picker"@),
        owned("picker/scrollbar"@),
        more.len() > 0 ==> owned("picker/"@ + more),
        owned(name) ==> name.len() >= 6 && name.take(6) == "picker"@,
{
    reveal_strlit("picker");
    reveal_strlit("picker/");
    reveal_strlit("picker/tab");
    reveal_strlit("picker/scrollbar");
    if more.len() > 0 {
        let whole = "picker/"@ + more;
        assert(whole.take(6) =~= "picker"@);
        assert(whole[6] == '/');
        assert(slug_of("picker"@, whole) is Some);
    }
    if owned(name) {
        if slug_of("picker/tab"@, name) is Some {
            assert(name.take(10).take(6) =~= name.take(6));
            assert("picker/tab"@.take(6) =~= "picker"@);
        }
        if name == "picker/scrollbar"@ {
            assert(name.take(6) =~= "picker"@);
        }
    }
}

/// One offered emoji.
#[derive(Debug, Clone, PartialEq, Eq)]
pub struct Choice {
    pub name: String,
    /// The character, for a standard one. `None` means it is a picture.
    pub unicode: Option<String>,
    /// The id its picture is behind, for a custom one.
    pub id: Option<String>,
}

/// An emoji, as the contracts speak of it.
pub struct ChoiceView {
    pub name: Seq<char>,
    pub unicode: Option<Seq<char>>,
    pub id: Option<Seq<char>>,
}

impl View for Choice {
    type V = ChoiceView;

    open spec fn view(&self) -> ChoiceView {
        ChoiceView { name: self.name@, unicode: named(self.unicode), id: named(self.id) }
    }
}

impl Choice {
    /// A copy of it.
    pub fn copy(&self) -> (copy: Choice)
        ensures
            copy@ == self@,
    {
        Choice {
            name: self.name.clone(),
            unicode: match &self.unicode {
                Some(u) => Some(u.clone()),
                None => None,
            },
            id: match &self.id {
                Some(i) => Some(i.clone()),
                None => None,
            },
        }
    }
}

/// What each group's tab shows: a representative rather than the first name
/// in it, which for `People` is a hand and says nothing about the group.
pub open spec fn mark_named(group: Seq<char>) -> Option<Seq<char>> {
    if group == "Smileys"@ {
        Some("smile"@)
    } else if group == "People"@ {
        Some("wave"@)
    } else if group == "Nature"@ {
        Some("deciduous_tree"@)
    } else if group == "Food"@ {
        Some("apple"@)
    } else if group == "Activities"@ {
        Some("basketball"@)
    } else if group == "Travel"@ {
        Some("rocket"@)
    } else if group == "Objects"@ {
        Some("bulb"@)
    } else if group == "Symbols"@ {
        Some("heart"@)
    } else if group == "Flags"@ {
        Some("checkered_flag"@)
    } else {
        None
    }
}

/// The representative a group's tab shows, if the group has one.
fn mark_name(group: &str) -> (mark: Option<&'static str>)
    ensures
        match mark {
            Some(m) => mark_named(group@) == Some(m@),
            None => mark_named(group@) is None,
        },
{
    if same_text(group, "Smileys") {
        Some("smile")
    } else if same_text(group, "People") {
        Some("wave")
    } else if same_text(group, "Nature") {
        Some("deciduous_tree")
    } else if same_text(group, "Food") {
        Some("apple")
    } else if same_text(group, "Activities") {
        Some("basketball")
    } else if same_text(group, "Travel") {
        Some("rocket")
    } else if same_text(group, "Objects") {
        Some("bulb")
    } else if same_text(group, "Symbols") {
        Some("heart")
    } else if same_text(group, "Flags") {
        Some("checkered_flag")
    } else {
        None
    }
}

/// Whether `draws`, asked for the character behind `name`, may answer
/// `answer`.
pub open spec fn may_answer<F: Fn(&str) -> Option<String>>(
    draws: F,
    name: Seq<char>,
    answer: Option<Seq<char>>,
) -> bool {
    exists|q: &str, a: Option<String>| q@ == name && call_ensures(draws, (q,), a) && named(a) == answer
}

/// The standard emoji called `name`, with the character behind it.
pub open spec fn standard(name: Seq<char>, character: Seq<char>) -> ChoiceView {
    ChoiceView { name, unicode: Some(character), id: None }
}

/// The first of `names` that the table can draw, with the character behind
/// it, given what the table answered for the names asked in turn.
pub open spec fn first_drawn(names: Seq<Seq<char>>, answers: Seq<Option<Seq<char>>>) -> Option<
    (Seq<char>, Seq<char>),
>
    decreases answers.len(),
{
    if answers.len() == 0 || names.len() == 0 {
        None
    } else if answers[0] is Some {
        Some((names[0], answers[0]->0))
    } else {
        first_drawn(names.drop_first(), answers.drop_first())
    }
}

/// Whether `answers` are what the table says of `names` asked in turn,
/// stopping at the first it can draw: every answer but the last is nothing,
/// and the asking stops only at a drawn name or at the end of the names.
pub open spec fn asked_in_turn(names: Seq<Seq<char>>, answers: Seq<Option<Seq<char>>>) -> bool {
    &&& answers.len() <= names.len()
    &&& forall|i: int| 0 <= i < answers.len() - 1 ==> (#[trigger] answers[i]) is None
    &&& answers.len() == names.len() || (answers.len() > 0 && answers.last() is Some)
}

/// What a group's tab shows, given what the table answers for its
/// representative and for its names asked in turn: the representative if the
/// table can draw it, else the first of the group's names that it can draw,
/// and the group's own name with no picture only when it can draw none of
/// them -- so a group with anything in it never has a blank tab.
pub open spec fn tab_mark(
    group: Seq<char>,
    names: Seq<Seq<char>>,
    for_mark: Option<Seq<char>>,
    answers: Seq<Option<Seq<char>>>,
) -> ChoiceView {
    if mark_named(group) is Some && for_mark is Some {
        standard(mark_named(group)->0, for_mark->0)
    } else {
        match first_drawn(names, answers) {
            Some((name, character)) => standard(name, character),
            None => ChoiceView { name: group, unicode: None, id: None },
        }
    }
}

/// The names of a group, as the contracts speak of them.
pub open spec fn names_of(names: Seq<&str>) -> Seq<Seq<char>> {
    names.map_values(|n: &str| n@)
}

/// Answers asked in turn that reach the end of the names without drawing any
/// say the table can draw none of them.
proof fn lemma_none_drawn(names: Seq<Seq<char>>, answers: Seq<Option<Seq<char>>>)
    requires
        answers.len() == names.len(),
        forall|i: int| 0 <= i < answers.len() ==> (#[trigger] answers[i]) is None,
    ensures
        first_drawn(names, answers) is None,
    decreases answers.len(),
{
    if answers.len() > 0 {
        assert(answers[0] is None);
        lemma_none_drawn(names.drop_first(), answers.drop_first());
    }
}

/// Answers asked in turn whose last says the table can draw the last name
/// asked put that name first among those it can draw.
proof fn lemma_last_drawn(names: Seq<Seq<char>>, answers: Seq<Option<Seq<char>>>)
    requires
        0 < answers.len() <= names.len(),
        forall|i: int| 0 <= i < answers.len() - 1 ==> (#[trigger] answers[i]) is None,
        answers.last() is Some,
    ensures
        first_drawn(names, answers) == Some((names[answers.len() - 1], answers.last()->0)),
    decreases answers.len(),
{
    if answers.len() > 1 {
        assert(answers[0] is None);
        let (n, a) = (names.drop_first(), answers.drop_first());
        assert forall|i: int| 0 <= i < a.len() - 1 implies (#[trigger] a[i]) is None by {
            assert(a[i] == answers[i + 1]);
        }
        lemma_last_drawn(n, a);
    }
}

/// What a group's tab shows: its representative, or else the first of its
/// names that the table can draw, so the tab is never left blank while the
/// group has anything in it. `draws` is the table: the character behind a
/// standard emoji's name, if it can draw one. It is asked for the
/// representative first, then for the group's names in turn until one draws.
pub fn mark_of(group: &str, names: &[&str], draws: impl Fn(&str) -> Option<String>) -> (mark:
    Choice)
    requires
        forall|q: &str| call_requires(draws, (q,)),
    ensures
        exists|for_mark: Option<Seq<char>>, answers: Seq<Option<Seq<char>>>|
            {
                &&& (mark_named(group@) matches Some(m) ==> may_answer(draws, m, for_mark))
                &&& (mark_named(group@) is Some && for_mark is Some) ==> answers.len() == 0
                &&& (mark_named(group@) is None || for_mark is None) ==> asked_in_turn(
                    names_of(names@),
                    answers,
                )
                &&& forall|i: int|
                    0 <= i < answers.len() ==> may_answer(draws, names@[i]@, #[trigger] answers[i])
                &&& mark@ == tab_mark(group@, names_of(names@), for_mark, answers)
            },
{
    let ghost mut for_mark: Option<Seq<char>> = None;
    let ghost mut answers: Seq<Option<Seq<char>>> = seq![];
    let ghost all = names_of(names@);
    match mark_name(group) {
        Some(mark) => {
            let answer = draws(mark);
            proof {
                for_mark = named(answer);
            }
            match answer {
                Some(character) => {
                    let chosen = Choice {
                        name: String::from_str(mark),
                        unicode: Some(character),
                        id: None,
                    };
                    assert(chosen@ == tab_mark(group@, all, for_mark, answers));
                    return chosen;
                },
                None => {},
            }
        },
        None => {},
    }
    let mut i: usize = 0;
    while i < names.len()
        invariant
            i <= names@.len(),
            all == names_of(names@),
            answers.len() == i,
            forall|q: &str| call_requires(draws, (q,)),
            mark_named(group@) matches Some(m) ==> may_answer(draws, m, for_mark),
            mark_named(group@) is None || for_mark is None,
            forall|j: int| 0 <= j < i ==> (#[trigger] answers[j]) is None,
            forall|j: int| 0 <= j < i ==> may_answer(draws, names@[j]@, #[trigger] answers[j]),
        decreases names@.len() - i,
    {
        let name = names[i];
        let answer = draws(name);
        proof {
            answers = answers.push(named(answer));
            assert(may_answer(draws, names@[i as int]@, answers[i as int]));
        }
        match answer {
            Some(character) => {
                let chosen = Choice { name: String::from_str(name), unicode: Some(character), id: None };
                proof {
                    assert forall|j: int| 0 <= j < answers.len() - 1 implies (#[trigger] answers[j]) is None by {
                        assert(answers[j] == answers.drop_last()[j]);
                    }
                    lemma_last_drawn(all, answers);
                    assert(all[i as int] == name@);
                }
                assert(chosen@ == tab_mark(group@, all, for_mark, answers));
                return chosen;
            },
            None => {},
        }
        i = i + 1;
    }
    proof {
        lemma_none_drawn(all, answers);
    }
    let plain = Choice { name: String::from_str(group), unicode: None, id: None };
    assert(plain@ == tab_mark(group@, all, for_mark, answers));
    plain
}

/// A tab is never blank while its group has a name the table can draw: with
/// the names asked in turn, the tab shows no picture only when the table
/// could draw neither the representative nor any one of the group's names.
pub proof fn lemma_a_tab_is_never_blank(
    group: Seq<char>,
    names: Seq<Seq<char>>,
    for_mark: Option<Seq<char>>,
    answers: Seq<Option<Seq<char>>>,
)
    requires
        asked_in_turn(names, answers),
    ensures
        tab_mark(group, names, for_mark, answers).unicode is None ==> {
            &&& !(mark_named(group) is Some && for_mark is Some)
            &&& answers.len() == names.len()
            &&& forall|i: int| 0 <= i < answers.len() ==> (#[trigger] answers[i]) is None
        },
{
    if !(mark_named(group) is Some && for_mark is Some) {
        if answers.len() > 0 && answers.last() is Some {
            lemma_last_drawn(names, answers);
        }
    }
}

/// The smaller of two numbers.
pub open spec fn least(a: int, b: int) -> int {
    if a <= b {
        a
    } else {
        b
    }
}

/// `at` less `by`, and no lower than nothing.
pub open spec fn less(at: int, by: int) -> int {
    if at >= by {
        at - by
    } else {
        0
    }
}

/// Where the arrows struck in a frame move the selection on a grid of `found`
/// tiles, `COLUMNS` to a row: right and left by one, down and up by a row,
/// never past the last tile and never before the first, in that order.
pub open spec fn stepped_to(chosen: int, found: int, struck: Seq<Key>) -> int {
    let right = if struck.contains(Key::Right) && found > 0 {
        least(chosen + 1, found - 1)
    } else {
        chosen
    };
    let left = if struck.contains(Key::Left) {
        less(right, 1)
    } else {
        right
    };
    let down = if struck.contains(Key::Down) && found > 0 {
        least(left + COLUMNS, found - 1)
    } else {
        left
    };
    if struck.contains(Key::Up) {
        less(down, COLUMNS as int)
    } else {
        down
    }
}

/// Whether any of the four arrows was struck.
pub open spec fn arrowed(struck: Seq<Key>) -> bool {
    struck.contains(Key::Left) || struck.contains(Key::Right) || struck.contains(Key::Up)
        || struck.contains(Key::Down)
}

/// The smaller of `at + by` and `last`, for `at` and `last` that fit.
fn capped(at: usize, by: usize, last: usize) -> (to: usize)
    ensures
        to == least(at + by, last as int),
{
    if at <= last && last - at >= by {
        at + by
    } else {
        last
    }
}

/// Where this frame's arrows move the selection on a grid of `found` tiles,
/// and whether any arrow was struck at all -- which is what says the grid
/// has to bring the selection into view.
pub fn step(chosen: usize, found: usize, input: &Input) -> (moved: (usize, bool))
    ensures
        moved.0 == stepped_to(chosen as int, found as int, input@.struck),
        moved.1 == arrowed(input@.struck),
{
    let stepped = input.struck(Key::Left) || input.struck(Key::Right) || input.struck(Key::Up)
        || input.struck(Key::Down);
    let mut at = chosen;
    if input.struck(Key::Right) && found > 0 {
        at = capped(at, 1, found - 1);
    }
    if input.struck(Key::Left) {
        at = if at >= 1 {
            at - 1
        } else {
            0
        };
    }
    if input.struck(Key::Down) && found > 0 {
        at = capped(at, COLUMNS, found - 1);
    }
    if input.struck(Key::Up) {
        at = if at >= COLUMNS {
            at - COLUMNS
        } else {
            0
        };
    }
    (at, stepped)
}

/// On a grid with something on it, the arrows never move the selection past
/// the last tile, whatever they were: from a tile on the grid the selection
/// stays on it.
pub proof fn lemma_the_arrows_stay_on_the_grid(chosen: int, found: int, struck: Seq<Key>)
    requires
        0 <= chosen < found,
    ensures
        0 <= stepped_to(chosen, found, struck) < found,
{
}


/// How many rows deep the offered set is gathered, against the four on show.
pub const DEEP: usize = 40;

/// How many the offered set can hold: forty rows of the grid.
pub const ROOM: usize = 320;

/// How many of the team's own emoji a query offers: a row of them with
/// nothing typed, so they are to hand without burying the groups below, and
/// as many as there is room for once something is typed.
pub fn custom_room(typed_empty: bool) -> (room: usize)
    ensures
        room == if typed_empty {
            COLUMNS
        } else {
            ROOM
        },
{
    if typed_empty {
        COLUMNS
    } else {
        ROOM
    }
}

/// What `str::to_lowercase` makes of a piece of text: Unicode's own lower
/// case, which the standard library's tables decide.
pub uninterp spec fn lower(text: Seq<char>) -> Seq<char>;

/// `str::to_lowercase`. Claimed of it: the result is `lower` of its
/// argument, a function of the text alone.
#[verifier::external_body]
fn lower_case(text: &str) -> (quiet: String)
    ensures
        quiet@ == lower(text@),
{
    text.to_lowercase()
}

/// What a query asks for: what was typed, with the white space at its ends
/// taken off, in lower case.
pub fn asked_for(query: &str) -> (typed: String)
    ensures
        typed@ == lower(crate::text::trimmed(query@)),
{
    lower_case(crate::text::trim(query))
}

/// One group of the standard emoji, as the picker gathers it: its name, the
/// names in it with the character behind each where the renderer can draw
/// one, and the mark its tab shows.
#[derive(Debug, Clone)]
pub struct Group {
    pub name: String,
    pub names: Vec<(String, Option<String>)>,
    pub mark: Choice,
}

/// Names with the characters behind them, as the contracts speak of them.
pub open spec fn named_views(names: Seq<(String, Option<String>)>) -> Seq<(Seq<char>, Option<Seq<char>>)> {
    names.map_values(|n: (String, Option<String>)| (n.0@, named(n.1)))
}

/// The standard emoji among `names` that can be drawn, in order: one that
/// cannot would be an empty cell that does nothing when pressed.
pub open spec fn drawn(names: Seq<(Seq<char>, Option<Seq<char>>)>) -> Seq<ChoiceView>
    decreases names.len(),
{
    if names.len() == 0 {
        seq![]
    } else {
        let before = drawn(names.drop_last());
        match names.last().1 {
            Some(c) => before.push(standard(names.last().0, c)),
            None => before,
        }
    }
}

/// A group, as the contracts speak of it.
pub struct GroupView {
    pub name: Seq<char>,
    pub names: Seq<(Seq<char>, Option<Seq<char>>)>,
    pub mark: ChoiceView,
}

/// Groups, as the contracts speak of them.
pub open spec fn group_views(groups: Seq<Group>) -> Seq<GroupView> {
    groups.map_values(|g: Group| GroupView { name: g.name@, names: named_views(g.names@), mark: g.mark@ })
}

/// The groups laid out one after another after `start`: what each can draw,
/// and a tab at where each group that put something in begins.
pub open spec fn laid_out(start: Seq<ChoiceView>, groups: Seq<GroupView>) -> (Seq<ChoiceView>, Seq<(int, ChoiceView)>)
    decreases groups.len(),
{
    if groups.len() == 0 {
        (start, seq![])
    } else {
        let (found, tabs) = laid_out(start, groups.drop_last());
        let more = drawn(groups.last().names);
        if more.len() > 0 {
            (found + more, tabs.push((found.len() as int, groups.last().mark)))
        } else {
            (found, tabs)
        }
    }
}

/// The team's own emoji, offered: by name, with the id its picture is behind.
pub open spec fn theirs(customs: Seq<(String, String)>) -> Seq<ChoiceView> {
    customs.map_values(|c: (String, String)| ChoiceView { name: c.0@, unicode: None, id: Some(c.1@) })
}

/// What a query offers: the team's own first; then, with nothing typed,
/// every group in turn with a tab where each begins, and with something
/// typed, the standard emoji that matched, as many as there is room for.
pub open spec fn gathered(
    typed_empty: bool,
    customs: Seq<ChoiceView>,
    groups: Seq<GroupView>,
    matched: Seq<(Seq<char>, Option<Seq<char>>)>,
) -> (Seq<ChoiceView>, Seq<(int, ChoiceView)>) {
    if typed_empty {
        laid_out(customs, groups)
    } else {
        let more = drawn(matched);
        let left = if customs.len() < ROOM {
            ROOM - customs.len()
        } else {
            0
        };
        (customs + if more.len() <= left {
            more
        } else {
            more.take(left as int)
        }, seq![])
    }
}

proof fn lemma_drawn_from(names: Seq<(Seq<char>, Option<Seq<char>>)>)
    ensures
        drawn(names).len() <= names.len(),
        forall|k: int|
            0 <= k < drawn(names).len() ==> exists|i: int|
                0 <= i < names.len() && (#[trigger] names[i]).1 is Some && #[trigger] drawn(names)[k]
                    == standard(names[i].0, names[i].1->0),
    decreases names.len(),
{
    if names.len() > 0 {
        let init = names.drop_last();
        lemma_drawn_from(init);
        let before = drawn(init);
        let all = drawn(names);
        assert forall|k: int| 0 <= k < all.len() implies exists|i: int|
            0 <= i < names.len() && (#[trigger] names[i]).1 is Some && #[trigger] all[k]
                == standard(names[i].0, names[i].1->0) by {
            if k < before.len() {
                assert(all[k] == before[k]);
                let i = choose|i: int|
                    0 <= i < init.len() && (#[trigger] init[i]).1 is Some && #[trigger] before[k]
                        == standard(init[i].0, init[i].1->0);
                assert(names[i] == init[i]);
            } else {
                assert(names[names.len() - 1] == names.last());
            }
        }
    }
}

/// With something typed, what is offered is the team's own first, then
/// standard emoji that matched and can be drawn -- each one of the matches,
/// with its own character -- no more than there is room for, and no tabs.
pub proof fn lemma_a_search_offers_what_matched(
    customs: Seq<ChoiceView>,
    groups: Seq<GroupView>,
    matched: Seq<(Seq<char>, Option<Seq<char>>)>,
)
    ensures
        ({
            let (found, tabs) = gathered(false, customs, groups, matched);
            &&& tabs.len() == 0
            &&& found.len() >= customs.len()
            &&& found.len() <= if customs.len() < ROOM { ROOM as int } else { customs.len() as int }
            &&& found.len() - customs.len() <= matched.len()
            &&& forall|k: int| 0 <= k < customs.len() ==> #[trigger] found[k] == customs[k]
            &&& forall|k: int|
                customs.len() <= k < found.len() ==> exists|i: int|
                    0 <= i < matched.len() && (#[trigger] matched[i]).1 is Some && #[trigger] found[k]
                        == standard(matched[i].0, matched[i].1->0)
        }),
{
    lemma_drawn_from(matched);
    let (found, tabs) = gathered(false, customs, groups, matched);
    let more = drawn(matched);
    let left = if customs.len() < ROOM {
        ROOM - customs.len()
    } else {
        0
    };
    let taken = if more.len() <= left {
        more
    } else {
        more.take(left as int)
    };
    assert(found == customs + taken);
    assert forall|k: int| customs.len() <= k < found.len() implies exists|i: int|
        0 <= i < matched.len() && (#[trigger] matched[i]).1 is Some && #[trigger] found[k]
            == standard(matched[i].0, matched[i].1->0) by {
        assert(found[k] == taken[k - customs.len()]);
        assert(taken[k - customs.len()] == more[k - customs.len()]);
    }
    assert forall|k: int| 0 <= k < customs.len() implies #[trigger] found[k] == customs[k] by {
        assert(found[k] == (customs + taken)[k]);
    }
}

/// The ids of the pictures among `found`, in order.
pub open spec fn pictures_of(found: Seq<ChoiceView>) -> Seq<Seq<char>>
    decreases found.len(),
{
    if found.len() == 0 {
        seq![]
    } else {
        let before = pictures_of(found.drop_last());
        match found.last().id {
            Some(id) => before.push(id),
            None => before,
        }
    }
}

/// Whether some name among `names` has a character the renderer can draw.
pub open spec fn any_drawn(names: Seq<(Seq<char>, Option<Seq<char>>)>) -> bool {
    exists|i: int| 0 <= i < names.len() && (#[trigger] names[i]).1 is Some
}

proof fn lemma_drawn_draws(names: Seq<(Seq<char>, Option<Seq<char>>)>)
    ensures
        forall|k: int| 0 <= k < drawn(names).len() ==> (#[trigger] drawn(names)[k]).unicode is Some,
        any_drawn(names) ==> drawn(names).len() > 0,
    decreases names.len(),
{
    if names.len() > 0 {
        let init = names.drop_last();
        lemma_drawn_draws(init);
        if any_drawn(names) && names.last().1 is None {
            let i = choose|i: int| 0 <= i < names.len() && (#[trigger] names[i]).1 is Some;
            assert(i < names.len() - 1);
            assert(init[i] == names[i]);
        }
    }
}

proof fn lemma_laid_out_draws(start: Seq<ChoiceView>, groups: Seq<GroupView>)
    ensures
        laid_out(start, groups).0.len() >= start.len(),
        forall|k: int| 0 <= k < start.len() ==> #[trigger] laid_out(start, groups).0[k] == start[k],
        forall|k: int|
            start.len() <= k < laid_out(start, groups).0.len() ==> (#[trigger] laid_out(
                start,
                groups,
            ).0[k]).unicode is Some,
        (exists|g: int| 0 <= g < groups.len() && any_drawn(#[trigger] groups[g].names)) ==> laid_out(
            start,
            groups,
        ).0.len() > start.len(),
    decreases groups.len(),
{
    if groups.len() > 0 {
        let init = groups.drop_last();
        lemma_laid_out_draws(start, init);
        let found = laid_out(start, init).0;
        let more = drawn(groups.last().names);
        lemma_drawn_draws(groups.last().names);
        if more.len() > 0 {
            let all = found + more;
            assert forall|k: int| start.len() <= k < all.len() implies (#[trigger] all[k]).unicode is Some by {
                if k >= found.len() {
                    assert(all[k] == more[k - found.len()]);
                } else {
                    assert(all[k] == found[k]);
                }
            }
            assert forall|k: int| 0 <= k < start.len() implies #[trigger] all[k] == start[k] by {
                assert(all[k] == found[k]);
            }
        }
        if exists|g: int| 0 <= g < groups.len() && any_drawn(#[trigger] groups[g].names) {
            let g = choose|g: int| 0 <= g < groups.len() && any_drawn(#[trigger] groups[g].names);
            if g < groups.len() - 1 {
                assert(init[g] == groups[g]);
            } else {
                assert(groups[g] == groups.last());
            }
        }
    }
}

/// Something to press before a word is typed: with nothing typed, every
/// group that can draw a name puts something on offer, and every tile past
/// the team's own is a standard emoji the renderer can draw.
pub proof fn lemma_nothing_typed_offers_what_can_be_drawn(
    customs: Seq<ChoiceView>,
    groups: Seq<GroupView>,
    matched: Seq<(Seq<char>, Option<Seq<char>>)>,
)
    ensures
        forall|k: int|
            customs.len() <= k < gathered(true, customs, groups, matched).0.len() ==> (
            #[trigger] gathered(true, customs, groups, matched).0[k]).unicode is Some,
        (exists|g: int| 0 <= g < groups.len() && any_drawn(#[trigger] groups[g].names)) ==> gathered(
            true,
            customs,
            groups,
            matched,
        ).0.len() > customs.len(),
{
    lemma_laid_out_draws(customs, groups);
}

/// Every tab leads into the offered set, at the first tile of its group, and
/// the tabs come in the order their groups do: a group that drew nothing has
/// no tab, which would otherwise be a mark leading to the group after it.
pub proof fn lemma_tabs_lead_into_the_set(start: Seq<ChoiceView>, groups: Seq<GroupView>)
    ensures
        ({
            let (found, tabs) = laid_out(start, groups);
            &&& forall|i: int| 0 <= i < tabs.len() ==> start.len() <= #[trigger] tabs[i].0 < found.len()
            &&& forall|i: int, j: int| 0 <= i < j < tabs.len() ==> #[trigger] tabs[i].0 < #[trigger] tabs[j].0
            &&& start.len() <= found.len()
        }),
    decreases groups.len(),
{
    if groups.len() > 0 {
        lemma_tabs_lead_into_the_set(start, groups.drop_last());
    }
}

/// The picker's own state, apart from its field and its grid: the message
/// it was opened for, whether the press being answered is the one that
/// opened it, what it offers and where each group starts, the query that
/// offered set answers, and which tile the arrows have chosen.
#[derive(Debug)]
pub struct Picker {
    /// The post a chosen emoji would go on. `None` when it is shut.
    pub for_post: Option<String>,
    /// Which tile Return would take.
    pub chosen: usize,
    fresh: bool,
    found: Vec<Choice>,
    tabs: Vec<(usize, Choice)>,
    asked: Option<String>,
}

/// The picker's state, as the contracts speak of it.
pub struct PickerView {
    pub for_post: Option<Seq<char>>,
    pub chosen: usize,
    pub fresh: bool,
    pub found: Seq<ChoiceView>,
    pub tabs: Seq<(int, ChoiceView)>,
    pub asked: Option<Seq<char>>,
}

/// Choices, as the contracts speak of them.
pub open spec fn choice_views(choices: Seq<Choice>) -> Seq<ChoiceView> {
    choices.map_values(|c: Choice| c@)
}

/// Tabs, as the contracts speak of them.
pub open spec fn tab_views(tabs: Seq<(usize, Choice)>) -> Seq<(int, ChoiceView)> {
    tabs.map_values(|t: (usize, Choice)| (t.0 as int, t.1@))
}

impl View for Picker {
    type V = PickerView;

    closed spec fn view(&self) -> PickerView {
        PickerView {
            for_post: named(self.for_post),
            chosen: self.chosen,
            fresh: self.fresh,
            found: choice_views(self.found@),
            tabs: tab_views(self.tabs@),
            asked: named(self.asked),
        }
    }
}

/// The picker opened for `post`, by the press being answered now: nothing
/// offered and nothing asked yet, at the first tile.
pub open spec fn picker_shown(post: Seq<char>) -> PickerView {
    PickerView { for_post: Some(post), chosen: 0, fresh: true, found: seq![], tabs: seq![], asked: None }
}

/// What asking whether the press being answered opened the picker answers,
/// and the picker after the asking.
pub open spec fn picker_opened(picker: PickerView) -> (bool, PickerView) {
    (picker.fresh, PickerView { fresh: false, ..picker })
}

/// The press that opens the picker is the one that asking answers true to,
/// and the only one: asked again, it answers false, and the picker is still
/// open for the same message.
pub proof fn lemma_the_picker_opens_once(post: Seq<char>)
    ensures
        picker_opened(picker_shown(post)).0,
        !picker_opened(picker_opened(picker_shown(post)).1).0,
        picker_opened(picker_opened(picker_shown(post)).1).1.for_post == Some(post),
{
}

/// The picker after a query: unchanged when it asks what was asked last;
/// otherwise answering it, from the first tile.
pub open spec fn picker_asked(
    picker: PickerView,
    typed: Seq<char>,
    customs: Seq<ChoiceView>,
    groups: Seq<GroupView>,
    matched: Seq<(Seq<char>, Option<Seq<char>>)>,
) -> PickerView {
    if picker.asked == Some(typed) {
        picker
    } else {
        let (found, tabs) = gathered(typed.len() == 0, customs, groups, matched);
        PickerView { asked: Some(typed), chosen: 0, found, tabs, ..picker }
    }
}

/// A new question is answered from the top: after asking anything other than
/// what was asked last, the chosen tile is the first one, so Return takes the
/// first of the new answers; asking the same again leaves the picker, the
/// chosen tile included, as it was. Either way what was asked is remembered.
pub proof fn lemma_a_new_question_starts_at_the_top(
    picker: PickerView,
    typed: Seq<char>,
    customs: Seq<ChoiceView>,
    groups: Seq<GroupView>,
    matched: Seq<(Seq<char>, Option<Seq<char>>)>,
)
    ensures
        picker.asked != Some(typed) ==> picker_asked(picker, typed, customs, groups, matched).chosen == 0,
        picker.asked == Some(typed) ==> picker_asked(picker, typed, customs, groups, matched) == picker,
        picker_asked(picker, typed, customs, groups, matched).asked == Some(typed),
        picker_asked(picker, typed, customs, groups, matched).for_post == picker.for_post,
{
}

impl Default for Picker {
    fn default() -> (picker: Self)
        ensures
            picker@ == (PickerView { for_post: None, chosen: 0, fresh: false, found: seq![], tabs: seq![], asked: None }),
    {
        let picker = Picker {
            for_post: None,
            chosen: 0,
            fresh: false,
            found: Vec::new(),
            tabs: Vec::new(),
            asked: None,
        };
        assert(picker@.found =~= Seq::<ChoiceView>::empty());
        assert(picker@.tabs =~= Seq::<(int, ChoiceView)>::empty());
        picker
    }
}

/// The team's own emoji, offered.
fn custom_choices(customs: &Vec<(String, String)>) -> (found: Vec<Choice>)
    ensures
        choice_views(found@) == theirs(customs@),
{
    let mut found: Vec<Choice> = Vec::new();
    let mut i: usize = 0;
    while i < customs.len()
        invariant
            i <= customs@.len(),
            choice_views(found@) == theirs(customs@.take(i as int)),
        decreases customs@.len() - i,
    {
        let ghost had = found@;
        found.push(Choice { name: customs[i].0.clone(), unicode: None, id: Some(customs[i].1.clone()) });
        assert(found@ =~= had.push(found@.last()));
        assert(theirs(customs@.take(i + 1)) =~= theirs(customs@.take(i as int)).push(
            ChoiceView { name: customs@[i as int].0@, unicode: None, id: Some(customs@[i as int].1@) },
        ));
        assert(choice_views(found@) =~= choice_views(had).push(found@.last()@));
        i = i + 1;
    }
    assert(customs@.take(i as int) =~= customs@);
    found
}

/// Adds the standard emoji among `names` that can be drawn, in order, up to
/// `cap` of them in all.
fn add_drawn(found: &mut Vec<Choice>, names: &Vec<(String, Option<String>)>, cap: usize)
    requires
        old(found)@.len() <= cap,
    ensures
        choice_views(final(found)@) == choice_views(old(found)@) + if drawn(named_views(names@)).len()
            <= cap - old(found)@.len() {
            drawn(named_views(names@))
        } else {
            drawn(named_views(names@)).take(cap - old(found)@.len())
        },
{
    let ghost start = choice_views(found@);
    let ghost all = named_views(names@);
    let ghost left = (cap - found@.len()) as int;
    let mut i: usize = 0;
    while i < names.len()
        invariant
            i <= names@.len(),
            all == named_views(names@),
            start.len() + left == cap,
            0 <= left,
            found@.len() <= cap,
            choice_views(found@) == start + if drawn(all.take(i as int)).len() <= left {
                drawn(all.take(i as int))
            } else {
                drawn(all.take(i as int)).take(left)
            },
        decreases names@.len() - i,
    {
        let ghost before = all.take(i as int);
        assert(all.take(i + 1).drop_last() =~= before);
        assert(all.take(i + 1).last() == all[i as int]);
        assert(all[i as int] == (names@[i as int].0@, named(names@[i as int].1)));
        match &names[i].1 {
            Some(character) => {
                if found.len() < cap {
                    let ghost had = found@;
                    let one = Choice { name: names[i].0.clone(), unicode: Some(character.clone()), id: None };
                    assert(one@ == standard(all[i as int].0, all[i as int].1->0));
                    found.push(one);
                    assert(found@ =~= had.push(one));
                    assert(choice_views(found@) =~= choice_views(had).push(one@));
                    assert(drawn(before).len() < left);
                    assert(drawn(all.take(i + 1)) == drawn(before).push(one@));
                } else {
                    assert(drawn(before).len() >= left);
                    assert(drawn(before).push(standard(all[i as int].0, all[i as int].1->0)).take(left)
                        =~= drawn(before).take(left));
                }
            },
            None => {},
        }
        i = i + 1;
    }
    assert(all.take(i as int) =~= all);
}

/// Adds the standard emoji among `names` that can be drawn, in order.
fn add_all_drawn(found: &mut Vec<Choice>, names: &Vec<(String, Option<String>)>)
    ensures
        choice_views(final(found)@) == choice_views(old(found)@) + drawn(named_views(names@)),
{
    let ghost start = choice_views(found@);
    let ghost all = named_views(names@);
    let mut i: usize = 0;
    while i < names.len()
        invariant
            i <= names@.len(),
            all == named_views(names@),
            choice_views(found@) == start + drawn(all.take(i as int)),
        decreases names@.len() - i,
    {
        let ghost before = all.take(i as int);
        assert(all.take(i + 1).drop_last() =~= before);
        assert(all.take(i + 1).last() == all[i as int]);
        assert(all[i as int] == (names@[i as int].0@, named(names@[i as int].1)));
        match &names[i].1 {
            Some(character) => {
                let ghost had = found@;
                let one = Choice { name: names[i].0.clone(), unicode: Some(character.clone()), id: None };
                assert(one@ == standard(all[i as int].0, all[i as int].1->0));
                found.push(one);
                assert(found@ =~= had.push(one));
                assert(choice_views(found@) =~= choice_views(had).push(one@));
            },
            None => {},
        }
        i = i + 1;
    }
    assert(all.take(i as int) =~= all);
}

impl Picker {
    /// Whether it is open.
    pub fn open(&self) -> (open: bool)
        ensures
            open <==> self@.for_post is Some,
    {
        self.for_post.is_some()
    }

    /// Opens it for `post_id`, by the press being answered now, with nothing
    /// offered and nothing asked, so an empty query is asked afresh.
    pub fn show(&mut self, post_id: &str)
        ensures
            final(self)@ == picker_shown(post_id@),
    {
        self.for_post = Some(String::from_str(post_id));
        self.found = Vec::new();
        self.tabs = Vec::new();
        self.chosen = 0;
        self.asked = None;
        self.fresh = true;
        assert(self@.found =~= Seq::<ChoiceView>::empty());
        assert(self@.tabs =~= Seq::<(int, ChoiceView)>::empty());
    }

    /// Shuts it.
    pub fn put_away(&mut self)
        ensures
            final(self)@ == (PickerView { for_post: None, fresh: false, ..old(self)@ }),
    {
        self.for_post = None;
        self.fresh = false;
    }

    /// Whether the press being answered is the one that opened it. Answers
    /// true once.
    pub fn opening(&mut self) -> (was: bool)
        ensures
            (was, final(self)@) == picker_opened(old(self)@),
    {
        let was = self.fresh;
        self.fresh = false;
        was
    }

    /// Narrows the offered set to `typed`, as `asked_for` gives it, unless
    /// that is what it answers already. `customs` are the team's own emoji
    /// that match, by name and id; `groups`, every group of the standard ones
    /// in order; `matched`, the standard ones that match. Says whether it
    /// asked afresh, which is when the grid goes back to its top.
    pub fn ask(
        &mut self,
        typed: &str,
        customs: &Vec<(String, String)>,
        groups: &Vec<Group>,
        matched: &Vec<(String, Option<String>)>,
    ) -> (afresh: bool)
        ensures
            final(self)@ == picker_asked(old(self)@, typed@, theirs(customs@), group_views(groups@), named_views(matched@)),
            afresh <==> old(self)@.asked != Some(typed@),
    {
        match &self.asked {
            Some(asked) => {
                if same_text(asked.as_str(), typed) {
                    return false;
                }
            },
            None => {},
        }
        let mut found = custom_choices(customs);
        let mut tabs: Vec<(usize, Choice)> = Vec::new();
        let ghost all = group_views(groups@);
        if typed.unicode_len() == 0 {
            let mut g: usize = 0;
            assert(tab_views(tabs@) =~= Seq::<(int, ChoiceView)>::empty());
            while g < groups.len()
                invariant
                    g <= groups@.len(),
                    all == group_views(groups@),
                    (choice_views(found@), tab_views(tabs@)) == laid_out(theirs(customs@), all.take(g as int)),
                decreases groups@.len() - g,
            {
                assert(all.take(g + 1).drop_last() =~= all.take(g as int));
                assert(all.take(g + 1).last() == all[g as int]);
                let from = found.len();
                let ghost had = choice_views(found@);
                let ghost had_tabs = tab_views(tabs@);
                add_all_drawn(&mut found, &groups[g].names);
                assert(all[g as int].names == named_views(groups@[g as int].names@));
                assert(all[g as int].mark == groups@[g as int].mark@);
                let ghost more = drawn(all[g as int].names);
                assert(had.len() == from);
                assert(choice_views(found@).len() == found@.len());
                assert(found@.len() == from + more.len());
                if found.len() > from {
                    let mark = groups[g].mark.copy();
                    let ghost before_tabs = tabs@;
                    tabs.push((from, mark));
                    assert(tabs@ =~= before_tabs.push((from, mark)));
                    assert(tab_views(tabs@) =~= had_tabs.push((from as int, mark@)));
                }
                assert(laid_out(theirs(customs@), all.take(g + 1)) == (if more.len() > 0 {
                    (had + more, had_tabs.push((had.len() as int, all[g as int].mark)))
                } else {
                    (had, had_tabs)
                }));
                g = g + 1;
            }
            assert(all.take(g as int) =~= all);
        } else {
            let ghost more = drawn(named_views(matched@));
            if found.len() <= ROOM {
                add_drawn(&mut found, matched, ROOM);
            } else {
                assert(more.take(0) =~= Seq::<ChoiceView>::empty());
                assert(more.len() == 0 ==> more =~= Seq::<ChoiceView>::empty());
                assert(choice_views(found@) =~= theirs(customs@) + if more.len() <= 0 {
                    more
                } else {
                    more.take(0)
                });
            }
            assert(tab_views(tabs@) =~= Seq::<(int, ChoiceView)>::empty());
        }
        self.asked = Some(String::from_str(typed));
        self.chosen = 0;
        self.found = found;
        self.tabs = tabs;
        true
    }

    /// The emoji a press on a tile chose, by name: `picker/<n>` is the n-th
    /// offered.
    pub fn tile(&self, name: &str) -> (chose: Option<String>)
        ensures
            match chose {
                Some(c) => exists|at: int|
                    #![trigger self@.found[at]]
                    slug_of("picker"@, name@) matches Some(rest) && crate::offer::decimal(rest) == Some(at as nat)
                        && 0 <= at < self@.found.len() && c@ == self@.found[at].name,
                None => !(slug_of("picker"@, name@) matches Some(rest) && crate::offer::decimal(rest) matches Some(at)
                    && at < self@.found.len()),
            },
    {
        proof {
            reveal_strlit("picker");
        }
        let rest = match slug(NAME, name) {
            Some(rest) => rest,
            None => return None,
        };
        let at = match crate::offer::parse_index(rest.as_str()) {
            Some(at) => at,
            None => return None,
        };
        if at < self.found.len() {
            assert(choice_views(self.found@)[at as int] == self.found@[at as int]@);
            assert(self@.found[at as int].name == self.found@[at as int].name@);
            Some(self.found[at].name.clone())
        } else {
            None
        }
    }

    /// The row of the grid a press on a group's tab goes to: `picker/tab/<n>`
    /// is the n-th tab, and its group starts on the row of its first tile.
    pub fn tab_row(&self, name: &str) -> (row: Option<usize>)
        ensures
            match row {
                Some(r) => exists|which: int|
                    #![trigger self@.tabs[which]]
                    slug_of("picker/tab"@, name@) matches Some(rest) && crate::offer::decimal(rest) == Some(which as nat)
                        && 0 <= which < self@.tabs.len() && r == self@.tabs[which].0 / COLUMNS as int,
                None => !(slug_of("picker/tab"@, name@) matches Some(rest) && crate::offer::decimal(rest) matches Some(which)
                    && which < self@.tabs.len()),
            },
    {
        proof {
            reveal_strlit("picker/tab");
        }
        let rest = match slug("picker/tab", name) {
            Some(rest) => rest,
            None => return None,
        };
        let which = match crate::offer::parse_index(rest.as_str()) {
            Some(which) => which,
            None => return None,
        };
        if which < self.tabs.len() {
            assert(tab_views(self.tabs@)[which as int].0 == self.tabs@[which as int].0 as int);
            assert(self@.tabs[which as int].0 == self.tabs@[which as int].0 as int);
            Some(self.tabs[which].0 / COLUMNS)
        } else {
            None
        }
    }

    /// The emoji Return takes: the chosen tile, if there is one.
    pub fn entered(&self) -> (chose: Option<String>)
        ensures
            match chose {
                Some(c) => self@.chosen < self@.found.len() && c@ == self@.found[self@.chosen as int].name,
                None => self@.chosen >= self@.found.len(),
            },
    {
        if self.chosen < self.found.len() {
            assert(choice_views(self.found@)[self.chosen as int] == self.found@[self.chosen as int]@);
            Some(self.found[self.chosen].name.clone())
        } else {
            None
        }
    }

    /// What is on offer, in the order the grid lays it out.
    pub fn found(&self) -> (found: &Vec<Choice>)
        ensures
            choice_views(found@) == self@.found,
    {
        &self.found
    }

    /// The ids of the pictures the offered set needs, so the caller can
    /// fetch them: one for each of the team's own emoji offered, in order.
    pub fn pictures(&self) -> (ids: Vec<String>)
        ensures
            ids@.map_values(|id: String| id@) == pictures_of(self@.found),
    {
        let ghost all = self@.found;
        let mut ids: Vec<String> = Vec::new();
        let mut i: usize = 0;
        while i < self.found.len()
            invariant
                i <= self.found@.len(),
                all == self@.found,
                all == choice_views(self.found@),
                ids@.map_values(|id: String| id@) == pictures_of(all.take(i as int)),
            decreases self.found@.len() - i,
        {
            assert(all.take(i + 1).drop_last() =~= all.take(i as int));
            assert(all.take(i + 1).last() == self.found@[i as int]@);
            match &self.found[i].id {
                Some(id) => {
                    let ghost had = ids@;
                    ids.push(id.clone());
                    assert(ids@.map_values(|id: String| id@) =~= had.map_values(|id: String| id@).push(id@));
                },
                None => {},
            }
            i = i + 1;
        }
        assert(all.take(i as int) =~= all);
        ids
    }

    /// Moves the chosen tile by this frame's arrows, on the grid of what it
    /// offers, and says whether any arrow was struck.
    pub fn stepped(&mut self, input: &Input) -> (moved: bool)
        ensures
            final(self)@ == (PickerView {
                chosen: stepped_to(old(self)@.chosen as int, old(self)@.found.len() as int, input@.struck) as usize,
                ..old(self)@
            }),
            moved == arrowed(input@.struck),
    {
        let (at, moved) = step(self.chosen, self.found.len(), input);
        self.chosen = at;
        moved
    }
}

} // verus!
