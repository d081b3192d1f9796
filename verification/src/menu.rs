//! A list of things to do, opened at a point: its rows, and what a click, a
//! key or the pointer does to it.
//!
//! Where it sits and how it is drawn are the window's; what it decides is
//! here.

use vstd::prelude::*;
use crate::input::{Input, Key, slug, slug_of, starts_with};
use crate::session::same_text;

verus! {

/// What the menu's hit boxes are called.
pub open spec fn menu_name() -> Seq<char> {
    seq!['m', 'e', 'n', 'u']
}

/// What the menu's own name is, to be compared against.
pub fn menu_name_text() -> (name: &'static str)
    ensures
        name@ == menu_name(),
{
    proof {
        reveal_strlit("menu");
    }
    "menu"
}

/// The colour a row is written in.
#[derive(Debug, Clone, Copy, PartialEq, Eq, Structural)]
pub enum Tint {
    Ink,
    Flag,
    Danger,
}

impl Default for Tint {
    fn default() -> (tint: Self)
        ensures
            tint == Tint::Ink,
    {
        Tint::Ink
    }
}

/// One row: a thing to do, a rule, or a thing that asks first.
#[derive(Debug)]
pub struct Item {
    /// What a hit test carries back, which is what the caller acts on.
    pub id: String,
    /// The column before the label.
    pub glyph: String,
    pub label: String,
    pub tint: Tint,
    /// A separator rather than a button.
    pub rule: bool,
    /// What this row leads to.
    pub children: Vec<Item>,
    /// Whether the children take the row's own place or open beside it.
    pub inline: bool,
}

/// What a row is, as the menu's decisions read it: its id, whether it is a
/// rule, whether its children open in its place, and the ids of those
/// children with whether each is a rule.
pub struct Shape {
    pub id: Seq<char>,
    pub rule: bool,
    pub inline: bool,
    pub children: Seq<(Seq<char>, bool)>,
}

/// A row's shape.
pub open spec fn shape(item: Item) -> Shape {
    Shape {
        id: item.id@,
        rule: item.rule,
        inline: item.inline,
        children: item.children@.map_values(|child: Item| (child.id@, child.rule)),
    }
}

/// The shapes of some rows.
pub open spec fn shapes(items: Seq<Item>) -> Seq<Shape> {
    items.map_values(|item: Item| shape(item))
}

impl Default for Item {
    fn default() -> (item: Self)
        ensures
            item.id@.len() == 0,
            item.glyph@.len() == 0,
            item.label@.len() == 0,
            item.tint == Tint::Ink,
            !item.rule,
            item.children@.len() == 0,
            !item.inline,
    {
        Item {
            id: String::new(),
            glyph: String::new(),
            label: String::new(),
            tint: Tint::Ink,
            rule: false,
            children: Vec::new(),
            inline: false,
        }
    }
}

impl Item {
    /// A row that does something.
    pub fn new(id: &str, label: &str) -> (item: Self)
        ensures
            item.id@ == id@,
            item.label@ == label@,
            item.glyph@.len() == 0,
            item.tint == Tint::Ink,
            !item.rule,
            item.children@.len() == 0,
            !item.inline,
    {
        Item { id: String::from_str(id), label: String::from_str(label), ..Item::default() }
    }

    /// A separator. Carries no id because nothing can land on it.
    pub fn rule() -> (item: Self)
        ensures
            item.id@.len() == 0,
            item.label@.len() == 0,
            item.glyph@.len() == 0,
            item.tint == Tint::Ink,
            item.rule,
            item.children@.len() == 0,
            !item.inline,
    {
        Item { rule: true, ..Item::default() }
    }

    /// The row, with a glyph in its column.
    pub fn marked(self, glyph: &str) -> (item: Self)
        ensures
            item == (Item { glyph: item.glyph, ..self }),
            item.glyph@ == glyph@,
    {
        Item { glyph: String::from_str(glyph), ..self }
    }

    /// The row, written in `tint`.
    pub fn tinted(self, tint: Tint) -> (item: Self)
        ensures
            item == (Item { tint, ..self }),
    {
        Item { tint, ..self }
    }

    /// Choices that replace this row once it is pressed.
    pub fn asks(self, children: Vec<Item>) -> (item: Self)
        ensures
            item == (Item { children, inline: true, ..self }),
    {
        Item { children, inline: true, ..self }
    }

    /// A list that opens to the side on hover.
    pub fn nests(self, children: Vec<Item>) -> (item: Self)
        ensures
            item == (Item { children, inline: false, ..self }),
    {
        Item { children, inline: false, ..self }
    }

    /// Whether a press can land on it: anything but a rule.
    pub fn pressable(&self) -> (pressable: bool)
        ensures
            pressable == !self.rule,
    {
        !self.rule
    }
}

/// What an armed row asks: both of the app's say what the answers are for.
pub open spec fn asked_by(id: Seq<char>) -> Seq<char> {
    if id == "delete"@ {
        "Delete?"@
    } else if id == "remind"@ {
        "Remind me in"@
    } else {
        seq![]
    }
}

/// What an armed row asks.
pub fn asking(id: &str) -> (question: String)
    ensures
        question@ == asked_by(id@),
{
    if same_text(id, "delete") {
        String::from_str("Delete?")
    } else if same_text(id, "remind") {
        String::from_str("Remind me in")
    } else {
        String::new()
    }
}


/// The first row with id `id`, if there is one.
pub open spec fn first_row(rows: Seq<Shape>, id: Seq<char>) -> Option<Shape>
    decreases rows.len(),
{
    if rows.len() == 0 {
        None
    } else if rows[0].id == id {
        Some(rows[0])
    } else {
        first_row(rows.drop_first(), id)
    }
}

/// Whether `id` names a row, or a choice under one, that a press can land on.
pub open spec fn known(rows: Seq<Shape>, id: Seq<char>) -> bool {
    exists|i: int|
        0 <= i < rows.len() && ((!(#[trigger] rows[i]).rule && rows[i].id == id) || exists|j: int|
            0 <= j < rows[i].children.len() && #[trigger] rows[i].children[j] == (id, false))
}

/// Whether a row opens a list beside it.
pub open spec fn opens_beside(row: Shape) -> bool {
    !row.inline && row.children.len() > 0
}

/// Whether the pointer over `over` is keeping `row`'s list open: over the
/// row, the list itself, or one of its choices.
pub open spec fn keeps_open(row: Shape, over: Seq<char>) -> bool {
    ||| over == row.id
    ||| over == row.id + "/nest"@
    ||| exists|j: int| 0 <= j < row.children.len() && #[trigger] row.children[j].0 == over
}

/// The first row whose list the pointer over `over` keeps open.
pub open spec fn nest_for(rows: Seq<Shape>, over: Seq<char>) -> Option<Seq<char>>
    decreases rows.len(),
{
    if rows.len() == 0 {
        None
    } else if opens_beside(rows[0]) && keeps_open(rows[0], over) {
        Some(rows[0].id)
    } else {
        nest_for(rows.drop_first(), over)
    }
}

/// An open menu, as the contracts speak of it.
pub struct MenuView {
    /// The rows in full: ids, labels, marks, tints and what they lead to.
    pub items: Seq<Item>,
    /// What the menu's decisions read of the rows.
    pub rows: Seq<Shape>,
    pub about: Seq<char>,
    pub armed: Option<Seq<char>>,
    pub nested: Option<Seq<char>>,
}

/// A menu put away.
pub open spec fn shut(menu: MenuView) -> MenuView {
    MenuView { items: seq![], rows: seq![], about: seq![], armed: None, nested: None }
}

/// Which list the pointer is keeping open, from where it is.
pub open spec fn hover_nest(rows: Seq<Shape>, hovered: Option<Seq<char>>) -> Option<Seq<char>> {
    match hovered {
        None => None,
        Some(name) => match slug_of(menu_name(), name) {
            None => None,
            Some(over) => nest_for(rows, over),
        },
    }
}

/// Whether a name ends in `/nest`.
pub open spec fn names_a_nest(name: Seq<char>) -> bool {
    name.len() >= 5 && name.skip(name.len() - 5) == "/nest"@
}

/// What a frame's input does to a menu, and what it chose, with what it is
/// about.
pub open spec fn reacted(menu: MenuView, input: crate::input::InputView) -> (MenuView, Option<
    (Seq<char>, Seq<char>),
>) {
    if menu.rows.len() == 0 {
        (menu, None)
    } else if input.struck.contains(Key::Escape) {
        (shut(menu), None)
    } else {
        let hovering = MenuView { nested: hover_nest(menu.rows, input.hovered), ..menu };
        match input.clicked {
            None => (hovering, None),
            Some(clicked) => match slug_of(menu_name(), clicked) {
                None => (
                    if clicked != menu_name() {
                        shut(hovering)
                    } else {
                        hovering
                    },
                    None,
                ),
                Some(rest) => if rest == "elsewhere"@ {
                    (shut(hovering), None)
                } else if names_a_nest(rest) {
                    (hovering, None)
                } else if first_row(menu.rows, rest) matches Some(row) && row.inline
                    && row.children.len() > 0 {
                    (MenuView { armed: Some(rest), ..hovering }, None)
                } else if !known(menu.rows, rest) {
                    (hovering, None)
                } else {
                    (shut(hovering), Some((menu.about, rest)))
                },
            },
        }
    }
}

/// What a menu decides with: its rows, what it was opened on, the row that
/// is asking its question, and the list the pointer is keeping open.
#[derive(Debug)]
pub struct Menu {
    pub items: Vec<Item>,
    /// What it was opened on, handed back with whatever is chosen.
    pub about: String,
    armed: Option<String>,
    nested: Option<String>,
}

/// An optional name, as the contracts speak of it.
pub open spec fn named(name: Option<String>) -> Option<Seq<char>> {
    match name {
        Some(s) => Some(s@),
        None => None,
    }
}

impl View for Menu {
    type V = MenuView;

    closed spec fn view(&self) -> MenuView {
        MenuView {
            items: self.items@,
            rows: shapes(self.items@),
            about: self.about@,
            armed: named(self.armed),
            nested: named(self.nested),
        }
    }
}

impl Default for Menu {
    fn default() -> (menu: Self)
        ensures
            menu@.rows.len() == 0,
            menu@.about.len() == 0,
            menu@.armed is None,
            menu@.nested is None,
    {
        Menu { items: Vec::new(), about: String::new(), armed: None, nested: None }
    }
}

/// The first row with this id, where there is one.
fn row_named(items: &Vec<Item>, id: &str) -> (at: Option<usize>)
    ensures
        match at {
            Some(i) => i < items@.len() && first_row(shapes(items@), id@) == Some(
                shapes(items@)[i as int],
            ),
            None => first_row(shapes(items@), id@) is None,
        },
{
    let ghost rows = shapes(items@);
    let mut i: usize = 0;
    assert(rows.skip(0) =~= rows);
    while i < items.len()
        invariant
            rows == shapes(items@),
            i <= items@.len(),
            first_row(rows, id@) == first_row(rows.skip(i as int), id@),
        decreases items@.len() - i,
    {
        proof {
            assert(rows.skip(i as int)[0] == rows[i as int]);
            assert(rows.skip(i as int).drop_first() =~= rows.skip(i + 1));
        }
        if same_text(items[i].id.as_str(), id) {
            return Some(i);
        }
        i = i + 1;
    }
    proof {
        assert(rows.skip(i as int) =~= Seq::<Shape>::empty());
    }
    None
}

/// Whether a press on `id` lands on something.
fn knows(items: &Vec<Item>, id: &str) -> (lands: bool)
    ensures
        lands == known(shapes(items@), id@),
{
    let ghost rows = shapes(items@);
    let mut i: usize = 0;
    while i < items.len()
        invariant
            rows == shapes(items@),
            i <= items@.len(),
            forall|k: int|
                0 <= k < i ==> !((!(#[trigger] rows[k]).rule && rows[k].id == id@) || exists|j: int|
                    0 <= j < rows[k].children.len() && #[trigger] rows[k].children[j] == (id@, false)),
        decreases items@.len() - i,
    {
        let item = &items[i];
        assert(rows[i as int] == shape(items@[i as int]));
        if !item.rule && same_text(item.id.as_str(), id) {
            return true;
        }
        let mut j: usize = 0;
        while j < item.children.len()
            invariant
                rows == shapes(items@),
                i < items@.len(),
                *item == items@[i as int],
                rows[i as int] == shape(*item),
                j <= item.children@.len(),
                forall|c: int| 0 <= c < j ==> rows[i as int].children[c] != (id@, false),
            decreases item.children@.len() - j,
        {
            let child = &item.children[j];
            assert(rows[i as int].children[j as int] == (child.id@, child.rule));
            if !child.rule && same_text(child.id.as_str(), id) {
                return true;
            }
            j = j + 1;
        }
        i = i + 1;
    }
    false
}

/// Whether `over` names a row's own list: the row's id and `/nest`.
fn is_nest_of(over: &str, id: &str) -> (is: bool)
    ensures
        is == (over@ == id@ + "/nest"@),
{
    proof {
        reveal_strlit("/nest");
    }
    let o = over.unicode_len();
    let n = id.unicode_len();
    proof {
        if over@ == id@ + "/nest"@ {
            assert(over@.take(n as int) =~= id@);
        }
    }
    if o < 5 || o - 5 != n || !starts_with(over, id) {
        return false;
    }
    let tail = over.substring_char(n, o);
    let same = same_text(tail, "/nest");
    proof {
        if same {
            assert(over@ =~= over@.take(n as int) + over@.subrange(n as int, o as int));
        }
        if over@ == id@ + "/nest"@ {
            assert(tail@ =~= "/nest"@);
        }
    }
    same
}

/// Whether the pointer over `over` keeps this row's list open.
fn keeps(item: &Item, over: &str) -> (keeps: bool)
    ensures
        keeps == keeps_open(shape(*item), over@),
{
    if same_text(over, item.id.as_str()) || is_nest_of(over, item.id.as_str()) {
        return true;
    }
    let ghost row = shape(*item);
    let mut j: usize = 0;
    while j < item.children.len()
        invariant
            row == shape(*item),
            j <= item.children@.len(),
            forall|c: int| 0 <= c < j ==> row.children[c].0 != over@,
        decreases item.children@.len() - j,
    {
        assert(row.children[j as int] == (item.children@[j as int].id@, item.children@[j as int].rule));
        if same_text(item.children[j].id.as_str(), over) {
            assert(row.children[j as int].0 == over@);
            return true;
        }
        j = j + 1;
    }
    false
}

impl Menu {
    /// Whether it is up at all.
    pub fn open(&self) -> (open: bool)
        ensures
            open == (self@.rows.len() > 0),
    {
        self.items.len() > 0
    }

    /// The row whose question is being asked, if one is.
    pub fn armed(&self) -> (armed: Option<&str>)
        ensures
            match armed {
                Some(a) => self@.armed == Some(a@),
                None => self@.armed is None,
            },
    {
        match &self.armed {
            Some(a) => Some(a.as_str()),
            None => None,
        }
    }

    /// The row whose list the pointer is keeping open, if one is.
    pub fn nested(&self) -> (nested: Option<&str>)
        ensures
            match nested {
                Some(n) => self@.nested == Some(n@),
                None => self@.nested is None,
            },
    {
        match &self.nested {
            Some(n) => Some(n.as_str()),
            None => None,
        }
    }

    /// Opens it on `about`, with these rows, nothing asking and nothing
    /// nested.
    pub fn show(&mut self, about: &str, items: Vec<Item>)
        ensures
            final(self)@ == (MenuView { items: items@, rows: shapes(items@), about: about@, armed: None, nested: None }),
    {
        self.about = String::from_str(about);
        self.items = items;
        self.armed = None;
        self.nested = None;
    }

    /// Puts it away.
    pub fn put_away(&mut self)
        ensures
            final(self)@ == shut(old(self)@),
    {
        self.items = Vec::new();
        self.about = String::new();
        self.armed = None;
        self.nested = None;
        assert(self@.rows =~= Seq::<Shape>::empty());
        assert(self@.about =~= Seq::<char>::empty());
    }

    /// Which nested list the pointer is keeping open.
    fn hovered_nest(&self, input: &Input) -> (nest: Option<String>)
        ensures
            named(nest) == hover_nest(self@.rows, input@.hovered),
    {
        let hovered = match input.hovered() {
            Some(name) => name,
            None => return None,
        };
        let over = match slug(menu_name_text(), hovered) {
            Some(over) => over,
            None => return None,
        };
        let ghost rows = self@.rows;
        let mut i: usize = 0;
        assert(rows.skip(0) =~= rows);
        assert(hover_nest(rows, input@.hovered) == nest_for(rows, over@));
        while i < self.items.len()
            invariant
                rows == self@.rows,
                hover_nest(rows, input@.hovered) == nest_for(rows, over@),
                rows == shapes(self.items@),
                i <= self.items@.len(),
                nest_for(rows, over@) == nest_for(rows.skip(i as int), over@),
            decreases self.items@.len() - i,
        {
            proof {
                assert(rows.skip(i as int)[0] == rows[i as int]);
                assert(rows.skip(i as int).drop_first() =~= rows.skip(i + 1));
                assert(rows[i as int] == shape(self.items@[i as int]));
            }
            let item = &self.items[i];
            if !item.inline && item.children.len() > 0 && keeps(item, over.as_str()) {
                return Some(item.id.clone());
            }
            i = i + 1;
        }
        proof {
            assert(rows.skip(i as int) =~= Seq::<Shape>::empty());
        }
        None
    }

    /// Applies a frame's input. Answers the item chosen, with what the menu
    /// is about.
    pub fn react(&mut self, input: &Input) -> (chosen: Option<(String, String)>)
        ensures
            ({
                let (after, picked) = reacted(old(self)@, input@);
                &&& final(self)@ == after
                &&& match chosen {
                    Some((about, id)) => picked == Some((about@, id@)),
                    None => picked is None,
                }
            }),
    {
        if !self.open() {
            return None;
        }
        if input.struck(Key::Escape) {
            self.put_away();
            return None;
        }
        self.nested = self.hovered_nest(input);
        let clicked = match input.clicked() {
            Some(name) => name,
            None => return None,
        };
        let rest = match slug(menu_name_text(), clicked) {
            Some(rest) => rest,
            None => {
                if !same_text(clicked, menu_name_text()) {
                    self.put_away();
                }
                return None;
            },
        };
        if same_text(rest.as_str(), "elsewhere") {
            self.put_away();
            return None;
        }
        if ends_with_nest(rest.as_str()) {
            return None;
        }
        match row_named(&self.items, rest.as_str()) {
            Some(i) => {
                if self.items[i].inline && self.items[i].children.len() > 0 {
                    proof {
                        assert(shapes(self.items@)[i as int] == shape(self.items@[i as int]));
                    }
                    self.armed = Some(rest);
                    return None;
                }
                proof {
                    assert(shapes(self.items@)[i as int] == shape(self.items@[i as int]));
                }
            },
            None => {},
        }
        if !knows(&self.items, rest.as_str()) {
            return None;
        }
        let chosen = (self.about.clone(), rest);
        self.put_away();
        Some(chosen)
    }
}

/// What one of the menu's hit boxes is called: the menu's name, a slash, and
/// what the box stands for.
pub open spec fn boxed(name: Seq<char>) -> Seq<char> {
    menu_name() + seq!['/'] + name
}

/// The boxes of a row's children, one after another.
pub open spec fn children_boxes(children: Seq<(Seq<char>, bool)>) -> Seq<Seq<char>> {
    children.map_values(|child: (Seq<char>, bool)| boxed(child.0))
}

/// The boxes a row places: none for a rule; otherwise the row's own, then,
/// while it is asking, one for each answer, and while its list is open
/// beside it, one for the list and one for each row in it.
pub open spec fn row_boxes(row: Shape, armed: Option<Seq<char>>, nested: Option<Seq<char>>) -> Seq<
    Seq<char>,
> {
    if row.rule {
        seq![]
    } else {
        let asking = if row.inline && armed == Some(row.id) {
            children_boxes(row.children)
        } else {
            seq![]
        };
        let beside = if !row.inline && row.children.len() > 0 && nested == Some(row.id) {
            seq![boxed(row.id + "/nest"@)] + children_boxes(row.children)
        } else {
            seq![]
        };
        seq![boxed(row.id)] + asking + beside
    }
}

/// The boxes of the rows, row after row.
pub open spec fn rows_boxes(
    rows: Seq<Shape>,
    armed: Option<Seq<char>>,
    nested: Option<Seq<char>>,
) -> Seq<Seq<char>>
    decreases rows.len(),
{
    if rows.len() == 0 {
        seq![]
    } else {
        rows_boxes(rows.drop_last(), armed, nested) + row_boxes(rows.last(), armed, nested)
    }
}

/// Every box an open menu places, by name: one over the whole window under
/// it, so that a click anywhere else shuts it; the panel itself; then the
/// rows'. A shut menu places none.
pub open spec fn box_names_of(menu: MenuView) -> Seq<Seq<char>> {
    if menu.rows.len() == 0 {
        seq![]
    } else {
        seq![boxed("elsewhere"@), menu_name()] + rows_boxes(menu.rows, menu.armed, menu.nested)
    }
}

/// Names, by what they say.
pub open spec fn texts(names: Seq<String>) -> Seq<Seq<char>> {
    names.map_values(|name: String| name@)
}

/// The name of one of the menu's boxes.
fn boxed_name(name: &str) -> (named: String)
    ensures
        named@ == boxed(name@),
{
    let mut named = String::from_str(menu_name_text());
    proof {
        reveal_strlit("/");
    }
    named.append("/");
    named.append(name);
    assert(named@ =~= boxed(name@));
    named
}

/// Adds the boxes of a row's children.
fn push_children_boxes(names: &mut Vec<String>, children: &Vec<Item>)
    ensures
        texts(final(names)@) == texts(old(names)@) + children_boxes(
            children@.map_values(|child: Item| (child.id@, child.rule)),
        ),
{
    let ghost shaped = children@.map_values(|child: Item| (child.id@, child.rule));
    let mut j: usize = 0;
    assert(texts(names@) =~= texts(old(names)@) + children_boxes(shaped.take(0)));
    while j < children.len()
        invariant
            j <= children@.len(),
            shaped == children@.map_values(|child: Item| (child.id@, child.rule)),
            texts(names@) == texts(old(names)@) + children_boxes(shaped.take(j as int)),
        decreases children@.len() - j,
    {
        let ghost was = names@;
        let named = boxed_name(children[j].id.as_str());
        names.push(named);
        assert(shaped[j as int] == (children@[j as int].id@, children@[j as int].rule));
        assert(texts(names@) =~= texts(was).push(named@));
        assert(children_boxes(shaped.take(j + 1)) =~= children_boxes(shaped.take(j as int)).push(
            boxed(shaped[j as int].0),
        ));
        j = j + 1;
    }
    assert(shaped.take(children@.len() as int) =~= shaped);
}

/// Whether an optional name is `name`.
fn names_it(held: &Option<String>, name: &str) -> (it: bool)
    ensures
        it == (named(*held) == Some(name@)),
{
    match held {
        Some(h) => same_text(h.as_str(), name),
        None => false,
    }
}

impl Menu {
    /// The names of the hit boxes an open menu places, in the order they are
    /// placed; where each sits is a matter of pixels and is left to the
    /// window.
    pub fn box_names(&self) -> (names: Vec<String>)
        ensures
            texts(names@) == box_names_of(self@),
    {
        let mut names: Vec<String> = Vec::new();
        if !self.open() {
            assert(texts(names@) =~= Seq::<Seq<char>>::empty());
            return names;
        }
        proof {
            reveal_strlit("elsewhere");
        }
        names.push(boxed_name("elsewhere"));
        names.push(String::from_str(menu_name_text()));
        let ghost rows = self@.rows;
        let ghost armed = self@.armed;
        let ghost nested = self@.nested;
        let ghost head = seq![boxed("elsewhere"@), menu_name()];
        assert(texts(names@) =~= head + rows_boxes(rows.take(0), armed, nested));
        let mut i: usize = 0;
        while i < self.items.len()
            invariant
                i <= self.items@.len(),
                rows == self@.rows,
                rows == shapes(self.items@),
                armed == self@.armed,
                nested == self@.nested,
                head == seq![boxed("elsewhere"@), menu_name()],
                texts(names@) == head + rows_boxes(rows.take(i as int), armed, nested),
            decreases self.items@.len() - i,
        {
            let item = &self.items[i];
            let ghost row = rows[i as int];
            assert(row == shape(*item));
            assert(rows.take(i + 1).drop_last() =~= rows.take(i as int));
            assert(rows.take(i + 1).last() == row);
            let ghost before = texts(names@);
            if !item.rule {
                names.push(boxed_name(item.id.as_str()));
                let ghost own = texts(names@);
                assert(own =~= before + seq![boxed(row.id)]);
                if item.inline && names_it(&self.armed, item.id.as_str()) {
                    push_children_boxes(&mut names, &item.children);
                }
                let ghost asked = texts(names@);
                if !item.inline && item.children.len() > 0 && names_it(
                    &self.nested,
                    item.id.as_str(),
                ) {
                    proof {
                        reveal_strlit("/nest");
                    }
                    let mut list = String::from_str(item.id.as_str());
                    list.append("/nest");
                    names.push(boxed_name(list.as_str()));
                    assert(texts(names@) =~= asked + seq![boxed(row.id + "/nest"@)]);
                    push_children_boxes(&mut names, &item.children);
                }
                assert(texts(names@) =~= before + row_boxes(row, armed, nested));
            } else {
                assert(texts(names@) =~= before + row_boxes(row, armed, nested));
            }
            i = i + 1;
        }
        assert(rows.take(rows.len() as int) =~= rows);
        names
    }
}

/// Whether a name ends in `/nest`.
fn ends_with_nest(name: &str) -> (ends: bool)
    ensures
        ends == names_a_nest(name@),
{
    proof {
        reveal_strlit("/nest");
    }
    let n = name.unicode_len();
    if n < 5 {
        return false;
    }
    let tail = name.substring_char(n - 5, n);
    same_text(tail, "/nest")
}


/// A shut menu offers nothing: no input changes it or chooses anything.
pub proof fn lemma_shut_menu_does_nothing(menu: MenuView, input: crate::input::InputView)
    requires
        menu.rows.len() == 0,
    ensures
        reacted(menu, input) == (menu, None::<(Seq<char>, Seq<char>)>),
{
}

/// Escape puts an open menu away and chooses nothing.
pub proof fn lemma_escape_shuts(menu: MenuView, input: crate::input::InputView)
    requires
        menu.rows.len() > 0,
        input.struck.contains(Key::Escape),
    ensures
        reacted(menu, input).0.rows.len() == 0,
        reacted(menu, input).1 is None,
{
}

/// A click on the catcher behind the menu, which is anywhere else in the
/// window, puts it away and chooses nothing.
pub proof fn lemma_click_elsewhere_shuts(menu: MenuView, input: crate::input::InputView)
    requires
        menu.rows.len() > 0,
        !input.struck.contains(Key::Escape),
        input.clicked matches Some(c) && slug_of(menu_name(), c) == Some("elsewhere"@),
    ensures
        reacted(menu, input).0.rows.len() == 0,
        reacted(menu, input).1 is None,
{
}

/// Pressing a row that asks a question does not fire it: the row is armed to
/// ask, the menu stays open, and nothing is chosen.
pub proof fn lemma_asking_row_arms(menu: MenuView, input: crate::input::InputView, id: Seq<char>)
    requires
        menu.rows.len() > 0,
        !input.struck.contains(Key::Escape),
        input.clicked matches Some(c) && slug_of(menu_name(), c) == Some(id),
        id != "elsewhere"@,
        !names_a_nest(id),
        first_row(menu.rows, id) matches Some(row) && row.inline && row.children.len() > 0,
    ensures
        reacted(menu, input).1 is None,
        reacted(menu, input).0.armed == Some(id),
        reacted(menu, input).0.rows == menu.rows,
        reacted(menu, input).0.about == menu.about,
{
}

/// Whatever is chosen is something a press can land on, never a rule, and
/// comes back with what the menu is about; choosing puts the menu away.
pub proof fn lemma_choice_is_pressable_and_shuts(menu: MenuView, input: crate::input::InputView)
    requires
        reacted(menu, input).1 is Some,
    ensures
        ({
            let (about, id) = reacted(menu, input).1->0;
            &&& about == menu.about
            &&& known(menu.rows, id)
            &&& reacted(menu, input).0.rows.len() == 0
        }),
{
}

/// A rule cannot be chosen by its id: a row that is a rule counts as
/// something to press only if another row, or a choice under one, that is
/// not a rule carries the same id.
pub proof fn lemma_rule_is_not_a_target(rows: Seq<Shape>, id: Seq<char>)
    requires
        forall|i: int| 0 <= i < rows.len() && (#[trigger] rows[i]).id == id ==> rows[i].rule,
        forall|i: int, j: int|
            0 <= i < rows.len() && 0 <= j < rows[i].children.len() ==> #[trigger] rows[i].children[j].0
                != id,
    ensures
        !known(rows, id),
{
    if known(rows, id) {
        let i = choose|i: int|
            0 <= i < rows.len() && ((!(#[trigger] rows[i]).rule && rows[i].id == id) || exists|j: int|
                0 <= j < rows[i].children.len() && #[trigger] rows[i].children[j] == (id, false));
        if !rows[i].rule && rows[i].id == id {
        } else {
            let j = choose|j: int|
                0 <= j < rows[i].children.len() && #[trigger] rows[i].children[j] == (id, false);
            assert(rows[i].children[j].0 == id);
        }
    }
}


/// A nested list is only there while the pointer is on its way to it: in a
/// menu that stays open through a frame, the list kept open is the one the
/// pointer is over or inside, and none when the pointer is nowhere on the
/// menu.
pub proof fn lemma_nest_follows_the_pointer(menu: MenuView, input: crate::input::InputView)
    requires
        menu.rows.len() > 0,
        reacted(menu, input).0.rows.len() > 0,
    ensures
        reacted(menu, input).0.nested == hover_nest(menu.rows, input.hovered),
        input.hovered is None ==> reacted(menu, input).0.nested is None,
{
}

} // verus!
