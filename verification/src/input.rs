//! What a frame's input says, as the widgets here read it: which hit box was
//! clicked, which one the pointer is over, and which keys were struck.
//!
//! The window gathers these from its own input and hands them over as plain
//! values.

use vstd::prelude::*;

verus! {

/// A key the widgets here answer to.
#[derive(Debug, Clone, Copy, PartialEq, Eq, Structural)]
pub enum Key {
    Up,
    Down,
    Left,
    Right,
    Enter,
    Tab,
    Escape,
}

/// One frame's input.
#[derive(Debug, Clone)]
pub struct Input {
    /// The hit box a press was released on, if one was.
    pub clicked: Option<String>,
    /// The hit box the pointer is over, if one is.
    pub hovered: Option<String>,
    /// The keys struck this frame.
    pub struck: Vec<Key>,
}

/// What a frame's input says, as the contracts speak of it.
pub struct InputView {
    pub clicked: Option<Seq<char>>,
    pub hovered: Option<Seq<char>>,
    pub struck: Seq<Key>,
}

/// A name, as the contracts speak of it.
pub open spec fn named(name: Option<String>) -> Option<Seq<char>> {
    match name {
        Some(s) => Some(s@),
        None => None,
    }
}

impl View for Input {
    type V = InputView;

    open spec fn view(&self) -> InputView {
        InputView { clicked: named(self.clicked), hovered: named(self.hovered), struck: self.struck@ }
    }
}

impl Input {
    /// A frame in which nothing happened.
    pub fn quiet() -> (input: Input)
        ensures
            input@.clicked is None,
            input@.hovered is None,
            input@.struck.len() == 0,
    {
        Input { clicked: None, hovered: None, struck: Vec::new() }
    }

    /// A frame in which one key was struck.
    pub fn key(key: Key) -> (input: Input)
        ensures
            input@.clicked is None,
            input@.hovered is None,
            input@.struck == seq![key],
    {
        let mut struck = Vec::new();
        struck.push(key);
        Input { clicked: None, hovered: None, struck }
    }

    /// The hit box a press landed on.
    pub fn clicked(&self) -> (name: Option<&str>)
        ensures
            match name {
                Some(n) => self@.clicked == Some(n@),
                None => self@.clicked is None,
            },
    {
        match &self.clicked {
            Some(name) => Some(name.as_str()),
            None => None,
        }
    }

    /// The hit box the pointer is over.
    pub fn hovered(&self) -> (name: Option<&str>)
        ensures
            match name {
                Some(n) => self@.hovered == Some(n@),
                None => self@.hovered is None,
            },
    {
        match &self.hovered {
            Some(name) => Some(name.as_str()),
            None => None,
        }
    }

    /// Whether `key` was struck this frame.
    pub fn struck(&self, key: Key) -> (struck: bool)
        ensures
            struck <==> self@.struck.contains(key),
    {
        let mut i: usize = 0;
        while i < self.struck.len()
            invariant
                i <= self.struck@.len(),
                forall|j: int| 0 <= j < i ==> self.struck@[j] != key,
            decreases self.struck@.len() - i,
        {
            if self.struck[i] == key {
                assert(self.struck@[i as int] == key);
                return true;
            }
            i = i + 1;
        }
        false
    }
}

/// What a widget's hit box is called past the widget's own name: the part
/// after `widget` and a slash, for a name that begins with them.
pub open spec fn slug_of(widget: Seq<char>, name: Seq<char>) -> Option<Seq<char>> {
    if name.len() > widget.len() && name.take(widget.len() as int) == widget && name[widget.len() as int]
        == '/' {
        Some(name.skip(widget.len() as int + 1))
    } else {
        None
    }
}

/// Whether `text` begins with `prefix`.
pub fn starts_with(text: &str, prefix: &str) -> (starts: bool)
    ensures
        starts <==> prefix@.len() <= text@.len() && text@.take(prefix@.len() as int) == prefix@,
{
    let n = prefix.unicode_len();
    let m = text.unicode_len();
    if n > m {
        return false;
    }
    let mut i: usize = 0;
    while i < n
        invariant
            n == prefix@.len(),
            m == text@.len(),
            n <= m,
            i <= n,
            forall|j: int| 0 <= j < i ==> text@[j] == prefix@[j],
        decreases n - i,
    {
        if text.get_char(i) != prefix.get_char(i) {
            assert(text@.take(n as int)[i as int] != prefix@[i as int]);
            return false;
        }
        i = i + 1;
    }
    assert(text@.take(n as int) =~= prefix@);
    true
}

/// The part of a hit box's name after `widget` and a slash.
pub fn slug(widget: &str, name: &str) -> (rest: Option<String>)
    ensures
        match rest {
            Some(r) => slug_of(widget@, name@) == Some(r@),
            None => slug_of(widget@, name@) is None,
        },
{
    let w = widget.unicode_len();
    let n = name.unicode_len();
    if n <= w || !starts_with(name, widget) || name.get_char(w) != '/' {
        return None;
    }
    Some(String::from_str(name.substring_char(w + 1, n)))
}

} // verus!
