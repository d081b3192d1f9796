//! Small decisions the window makes about a session: which update offer is
//! worth raising, what a thread's conversation is called, what the window is
//! titled, which channel is next, and how the measuring driver runs.

use crate::text::{split_words, words};
use vstd::prelude::*;
use vstd::string::*;

verus! {

/// Whether an offer is worth putting on screen, given what was refused.
///
/// Only the same version is held back: refusing one build says nothing about
/// the next.
pub fn worth_raising(put_off: Option<&str>, version: &str) -> (worth: bool)
    ensures
        worth <==> !(put_off matches Some(refused) && refused@ == version@),
{
    match put_off {
        None => true,
        Some(refused) => !same_text(refused, version),
    }
}

/// Whether two pieces of text say the same thing, character for character.
pub fn same_text(a: &str, b: &str) -> (same: bool)
    ensures
        same <==> a@ == b@,
{
    let a_owned = String::from_str(a);
    let b_owned = String::from_str(b);
    a_owned == b_owned
}

/// What prefixes a thread's conversation name.
pub open spec fn thread_prefix() -> Seq<char> {
    seq!['t', 'h', 'r', 'e', 'a', 'd', '/']
}

/// What a thread's conversation is called.
pub fn thread_name(root_id: &str) -> (name: String)
    ensures
        name@ == thread_prefix() + root_id@,
{
    let prefix = String::from_str("thread/");
    proof {
        reveal_strlit("thread/");
    }
    assert(prefix@ == thread_prefix());
    prefix.concat(root_id)
}


/// What a conversation is called: the channel's id for a message in the
/// channel, and the thread's name for a reply -- which is also what a draft
/// or an attachment waiting to be sent is kept under.
pub open spec fn conversation_of(channel_id: Seq<char>, root_id: Seq<char>) -> Seq<char> {
    if root_id.len() == 0 {
        channel_id
    } else {
        thread_prefix() + root_id
    }
}

/// What a conversation is called.
pub fn conversation(channel_id: &str, root_id: &str) -> (name: String)
    ensures
        name@ == conversation_of(channel_id@, root_id@),
{
    if root_id.unicode_len() == 0 {
        String::from_str(channel_id)
    } else {
        thread_name(root_id)
    }
}

/// One thing a reader does, kept up for as long as it is being measured.
#[derive(Clone, Copy, PartialEq, Eq, Debug, Structural)]
pub enum Act {
    /// The floor: the same scene, drawn again.
    Still,
    /// Down for a stretch and back up.
    Scrolling,
    /// Round the sidebar.
    Switching,
    /// Into the composer, until it wraps, then cleared.
    Typing,
    /// Open a thread, and close it.
    Threading,
    /// Drag the window's edge.
    Resizing,
    /// The same, downwards.
    Heightening,
}

/// How many acts a run measures.
pub const ACTS: usize = 7;

/// The act a run measures at `at`, in order, cheapest first; none past the
/// last of them.
pub open spec fn act_at(at: int) -> Option<Act> {
    if at == 0 {
        Some(Act::Still)
    } else if at == 1 {
        Some(Act::Scrolling)
    } else if at == 2 {
        Some(Act::Switching)
    } else if at == 3 {
        Some(Act::Typing)
    } else if at == 4 {
        Some(Act::Threading)
    } else if at == 5 {
        Some(Act::Resizing)
    } else if at == 6 {
        Some(Act::Heightening)
    } else {
        None
    }
}

/// What an act is called in the table a run prints.
pub open spec fn act_name(act: Act) -> Seq<char> {
    match act {
        Act::Still => "still"@,
        Act::Scrolling => "scrolling"@,
        Act::Switching => "switching channel"@,
        Act::Typing => "typing"@,
        Act::Threading => "opening a thread"@,
        Act::Resizing => "dragging the edge"@,
        Act::Heightening => "dragging the bottom edge"@,
    }
}

impl Act {
    /// Every act, in the order a run measures them: cheapest first, so the
    /// table reads as the floor the ones below it are measured against.
    pub const EVERY: [Act; 7] = [
        Act::Still,
        Act::Scrolling,
        Act::Switching,
        Act::Typing,
        Act::Threading,
        Act::Resizing,
        Act::Heightening,
    ];

    /// What the act is called in the table.
    pub fn what(self) -> (name: &'static str)
        ensures
            name@ == act_name(self),
    {
        match self {
            Act::Still => "still",
            Act::Scrolling => "scrolling",
            Act::Switching => "switching channel",
            Act::Typing => "typing",
            Act::Threading => "opening a thread",
            Act::Resizing => "dragging the edge",
            Act::Heightening => "dragging the bottom edge",
        }
    }
}

/// Draws frames on its own, so a measurement does not need a hand on a wheel:
/// each act for a warm-up and then for the frames measured, one act after
/// another, and then the run is over.
#[derive(Clone, Copy, PartialEq, Eq, Debug, Structural)]
pub struct Driver {
    /// Which act is being measured, as an index into `Act::EVERY`.
    pub at: usize,
    /// Frames to draw for each act.
    pub each: u32,
    /// Frames left in this one.
    pub left: u32,
    /// Frames of warm-up left before the tally is started.
    pub warm: u32,
    /// Frames into this act, warm-up included.
    pub tick: u32,
    /// How many times the act being measured actually did its thing.
    pub did: u32,
}

/// How many frames of each act are thrown away before the tally starts.
pub open spec fn warm_frames() -> u32 {
    30
}

/// Whether a driver can draw another frame: its clock has room to run, and
/// an act past its warm-up has a frame left to measure.
pub open spec fn keeps_going(d: Driver) -> bool {
    &&& d.tick < u32::MAX
    &&& (d.at < ACTS && d.warm == 0 ==> d.left >= 1)
}

/// A driver after one more frame.
pub open spec fn after_frame(d: Driver) -> Driver {
    if d.at >= ACTS {
        d
    } else if d.warm > 0 {
        Driver { tick: (d.tick + 1) as u32, warm: (d.warm - 1) as u32, ..d }
    } else if d.left > 1 {
        Driver { tick: (d.tick + 1) as u32, left: (d.left - 1) as u32, ..d }
    } else {
        Driver { at: (d.at + 1) as usize, left: d.each, warm: warm_frames(), tick: 0, did: 0, ..d }
    }
}

/// What a frame reports: the act's name and what it did, on the last frame
/// of an act, and nothing on any other.
pub open spec fn told(d: Driver) -> Option<(Seq<char>, u32)> {
    if d.at < ACTS && d.warm == 0 && d.left <= 1 {
        Some((act_name(act_at(d.at as int)->0), d.did))
    } else {
        None
    }
}

/// A driver `k` frames on.
pub open spec fn frames(d: Driver, k: nat) -> Driver
    decreases k,
{
    if k == 0 {
        d
    } else {
        after_frame(frames(d, (k - 1) as nat))
    }
}

/// A driver at the first frame of the act at `at`.
pub open spec fn fresh_at(d: Driver, at: int) -> bool {
    &&& d.at == at
    &&& d.left == d.each
    &&& d.warm == warm_frames()
    &&& d.tick == 0
}

impl Driver {
    /// How many frames to draw before the tally is started.
    pub const WARM: u32 = 30;

    /// A driver about to draw the first frame of the first act, `each` frames
    /// measured for every act.
    pub fn new(each: u32) -> (d: Driver)
        ensures
            fresh_at(d, 0),
            d.each == each,
            d.did == 0,
    {
        Driver { at: 0, each, left: each, warm: Self::WARM, tick: 0, did: 0 }
    }

    /// The act being measured, if the run is not over.
    pub fn act(&self) -> (act: Option<Act>)
        ensures
            act == act_at(self.at as int),
    {
        if self.at < ACTS {
            Some(Act::EVERY[self.at])
        } else {
            None
        }
    }

    /// Whether every act has been measured.
    pub fn over(&self) -> (over: bool)
        ensures
            over <==> self.at >= ACTS,
    {
        self.at >= ACTS
    }

    /// The very first frame of an act, which is when it is put back to where
    /// every act begins.
    pub fn fresh(&self) -> (fresh: bool)
        ensures
            fresh <==> self.warm == warm_frames(),
    {
        self.warm == Self::WARM
    }

    /// Whether what this frame did counts: the warm-up's work is real and is
    /// not what the act costs.
    pub fn counting(&self) -> (counting: bool)
        ensures
            counting <==> self.warm == 0,
    {
        self.warm == 0
    }

    /// Counts the frame just drawn, and names the act if that was its last,
    /// with what it did.
    pub fn drew(&mut self) -> (done: Option<(&'static str, u32)>)
        requires
            keeps_going(*old(self)),
        ensures
            *final(self) == after_frame(*old(self)),
            match done {
                Some((name, did)) => told(*old(self)) == Some((name@, did)),
                None => told(*old(self)) is None,
            },
    {
        let act = match self.act() {
            Some(act) => act,
            None => return None,
        };
        self.tick = self.tick + 1;
        if self.warm > 0 {
            self.warm = self.warm - 1;
            return None;
        }
        self.left = self.left - 1;
        if self.left > 0 {
            return None;
        }
        self.at = self.at + 1;
        self.left = self.each;
        self.warm = Self::WARM;
        self.tick = 0;
        let did = self.did;
        self.did = 0;
        Some((act.what(), did))
    }
}

/// A driver `a` frames on and then `b` more is one `a + b` frames on.
proof fn lemma_frames_add(d: Driver, a: nat, b: nat)
    ensures
        frames(frames(d, a), b) == frames(d, a + b),
    decreases b,
{
    if b > 0 {
        lemma_frames_add(d, a, (b - 1) as nat);
        assert((a + b - 1) as nat == a + (b - 1) as nat);
    }
}

/// Through the warm-up, a frame moves the clock on and the warm-up down.
proof fn lemma_warming(d: Driver, k: nat)
    requires
        fresh_at(d, d.at as int),
        d.at < ACTS,
        k <= warm_frames(),
    ensures
        frames(d, k) == (Driver { tick: k as u32, warm: (warm_frames() - k) as u32, ..d }),
    decreases k,
{
    if k > 0 {
        lemma_warming(d, (k - 1) as nat);
    }
}

/// Past the warm-up, a frame moves the clock on and takes one from what is
/// left to measure.
proof fn lemma_measuring(d: Driver, k: nat)
    requires
        fresh_at(d, d.at as int),
        d.at < ACTS,
        d.each >= 1,
        warm_frames() + d.each <= u32::MAX,
        warm_frames() <= k < warm_frames() + d.each,
    ensures
        frames(d, k) == (Driver {
            tick: k as u32,
            warm: 0,
            left: (d.each - (k - warm_frames())) as u32,
            ..d
        }),
    decreases k,
{
    if k == warm_frames() {
        lemma_warming(d, k);
    } else {
        lemma_measuring(d, (k - 1) as nat);
    }
}

/// An act is drawn for its warm-up and then for the frames it measures, and
/// no longer. Through it the clock counts every frame from the act's first,
/// only that first frame is a fresh one, only the frames after the warm-up
/// count, nothing is reported until the last frame, and the last frame
/// reports the act by name with what it did and leaves the driver at the
/// first frame of the next act.
pub proof fn lemma_an_act_takes_its_frames(d: Driver, k: nat)
    requires
        fresh_at(d, d.at as int),
        d.at < ACTS,
        d.each >= 1,
        warm_frames() + d.each <= u32::MAX,
        k < warm_frames() + d.each,
    ensures
        frames(d, k).at == d.at,
        frames(d, k).each == d.each,
        frames(d, k).tick == k,
        frames(d, k).warm == warm_frames() <==> k == 0,
        frames(d, k).warm == 0 <==> k >= warm_frames(),
        keeps_going(frames(d, k)),
        k + 1 < warm_frames() + d.each ==> told(frames(d, k)) is None,
        k + 1 == warm_frames() + d.each ==> {
            &&& told(frames(d, k)) == Some((act_name(act_at(d.at as int)->0), d.did))
            &&& fresh_at(frames(d, k + 1), d.at + 1)
            &&& frames(d, k + 1).each == d.each
            &&& frames(d, k + 1).did == 0
        },
{
    if k < warm_frames() {
        lemma_warming(d, k);
    } else {
        lemma_measuring(d, k);
    }
}

/// A run measures every act, one after another in order, each for its
/// warm-up and its measured frames, and after the last of them it is over.
pub proof fn lemma_a_run_is_every_act(d: Driver, i: nat)
    requires
        fresh_at(d, 0),
        d.each >= 1,
        warm_frames() + d.each <= u32::MAX,
        i <= ACTS,
    ensures
        fresh_at(frames(d, i * (warm_frames() + d.each) as nat), i as int),
        frames(d, i * (warm_frames() + d.each) as nat).each == d.each,
        i == ACTS ==> frames(d, i * (warm_frames() + d.each) as nat).at >= ACTS,
    decreases i,
{
    let n = (warm_frames() + d.each) as nat;
    if i > 0 {
        lemma_a_run_is_every_act(d, (i - 1) as nat);
        let start = frames(d, ((i - 1) * n) as nat);
        lemma_an_act_takes_its_frames(start, (n - 1) as nat);
        assert((n - 1) as nat + 1 == n);
        lemma_frames_add(d, ((i - 1) * n) as nat, n);
        assert((i - 1) * n + n == i * n) by (nonlinear_arith);
    }
}

/// A run that is over stays over: another frame changes nothing and reports
/// nothing.
pub proof fn lemma_over_is_over(d: Driver)
    requires
        d.at >= ACTS,
    ensures
        after_frame(d) == d,
        told(d) is None,
{
}

/// How much of the conversation a pass measures.
#[derive(Debug, Clone, Copy, PartialEq, Eq, Structural)]
pub enum Shaping {
    /// The rows on screen, for a width that is still changing.
    WhatShows,
    /// All of it, once the edge has stopped.
    Everything,
}

impl Shaping {
    /// Picks the name this pass goes under in the timing table.
    pub fn of(self, everything: &'static str, some: &'static str) -> (name: &'static str)
        ensures
            name == (if self is Everything {
                everything
            } else {
                some
            }),
    {
        match self {
            Shaping::Everything => everything,
            Shaping::WhatShows => some,
        }
    }
}


/// What the driver's typing act types, over and over. A draft made of nothing
/// but this word was left by a measurement, never by the reader.
pub const DRIVER_TYPES: &'static str = "mesure ";

/// The word the driver types, as the contracts speak of it.
pub open spec fn driver_word() -> Seq<char> {
    seq!['m', 'e', 's', 'u', 'r', 'e']
}

/// Whether a draft was left by the driver: some words, every one of them the
/// driver's, and nothing attached.
pub open spec fn typed_by_the_driver(message: Seq<char>, attached: nat) -> bool {
    &&& words(message).len() > 0
    &&& forall|i: int| 0 <= i < words(message).len() ==> #[trigger] words(message)[i] == driver_word()
    &&& attached == 0
}

/// Whether a draft holding `message`, with `attached` files, was left by the
/// driver rather than by the reader.
pub fn driver_typed(message: &str, attached: usize) -> (typed: bool)
    ensures
        typed == typed_by_the_driver(message@, attached as nat),
{
    let found = split_words(message);
    if found.len() == 0 || attached != 0 {
        return false;
    }
    let word = "mesure";
    proof {
        reveal_strlit("mesure");
    }
    assert(word@ =~= driver_word());
    let mut i: usize = 0;
    while i < found.len()
        invariant
            i <= found@.len(),
            found@.map_values(|w: String| w@) == words(message@),
            word@ == driver_word(),
            forall|j: int| 0 <= j < i ==> #[trigger] words(message@)[j] == driver_word(),
        decreases found@.len() - i,
    {
        assert(found@.map_values(|w: String| w@)[i as int] == found@[i as int]@);
        if !same_text(found[i].as_str(), word) {
            return false;
        }
        i = i + 1;
    }
    true
}

/// What the driver does in one frame of an act.
#[derive(Debug, Clone, Copy, PartialEq, Eq, Structural)]
pub enum Drive {
    /// Nothing but draw the same scene again: the floor.
    Still,
    /// Turn the wheel over the conversation by three lines, downwards or back
    /// up.
    Wheel { down: bool },
    /// Open the next channel in the sidebar.
    Switch,
    /// Clear the composer.
    Clear,
    /// Type the driver's word into the composer.
    Type,
    /// Open a thread in the open channel.
    Thread,
    /// Ask for the window this many pixels wide.
    Width(u32),
    /// Ask for the window this many pixels tall.
    Height(u32),
    /// Nothing this frame.
    Wait,
}

/// How far into its swing a dragged edge is: out for sixty frames and back
/// for sixty.
pub open spec fn swing_of(tick: u32) -> u32 {
    let at = tick % 120;
    if at < 60 {
        at
    } else {
        (120 - at) as u32
    }
}

/// What the driver does at `tick` frames into an act: a rhythm of its own
/// for each, so the same rows leave the plan and come back, a channel is
/// drawn before it is switched away from, and an edge goes back and forth
/// rather than off the screen.
pub open spec fn drive_at(act: Act, tick: u32) -> Drive {
    match act {
        Act::Still => Drive::Still,
        Act::Scrolling => Drive::Wheel { down: (tick / 30) % 2 == 0 },
        Act::Switching => if tick % 40 == 0 {
            Drive::Switch
        } else {
            Drive::Wait
        },
        Act::Typing => if tick % 90 == 0 {
            Drive::Clear
        } else {
            Drive::Type
        },
        Act::Threading => if tick % 8 == 0 {
            Drive::Thread
        } else {
            Drive::Wait
        },
        Act::Resizing => Drive::Width((900 + swing_of(tick) * 4) as u32),
        Act::Heightening => Drive::Height((500 + swing_of(tick) * 4) as u32),
    }
}

/// What the driver does at `tick` frames into `act`.
pub fn driving(act: Act, tick: u32) -> (drive: Drive)
    ensures
        drive == drive_at(act, tick),
{
    let at = tick % 120;
    let swing = if at < 60 {
        at
    } else {
        120 - at
    };
    match act {
        Act::Still => Drive::Still,
        Act::Scrolling => Drive::Wheel { down: (tick / 30) % 2 == 0 },
        Act::Switching => if tick % 40 == 0 {
            Drive::Switch
        } else {
            Drive::Wait
        },
        Act::Typing => if tick % 90 == 0 {
            Drive::Clear
        } else {
            Drive::Type
        },
        Act::Threading => if tick % 8 == 0 {
            Drive::Thread
        } else {
            Drive::Wait
        },
        Act::Resizing => Drive::Width(900 + swing * 4),
        Act::Heightening => Drive::Height(500 + swing * 4),
    }
}

/// A dragged edge goes back and forth and never off the screen: the width
/// asked for stays between 900 and 1140 pixels and the height between 500
/// and 740, and both come back to where they were every 120 frames.
pub proof fn lemma_the_edge_swings_back(tick: u32)
    requires
        tick <= u32::MAX - 120,
    ensures
        drive_at(Act::Resizing, tick) matches Drive::Width(w) && 900 <= w <= 1140,
        drive_at(Act::Heightening, tick) matches Drive::Height(h) && 500 <= h <= 740,
        drive_at(Act::Resizing, (tick + 120) as u32) == drive_at(Act::Resizing, tick),
        drive_at(Act::Heightening, (tick + 120) as u32) == drive_at(Act::Heightening, tick),
{
    assert(((tick + 120) as u32) % 120 == tick % 120);
}

/// The first place `open` is among `every`, if it is there.
pub open spec fn first_place(every: Seq<Seq<char>>, open: Seq<char>, at: int) -> bool {
    0 <= at < every.len() && every[at] == open && forall|j: int| 0 <= j < at ==> every[j] != open
}

/// A channel other than the open one: the one after it in the sidebar,
/// coming back round to the first, or the first when the open one is not in
/// the sidebar; none when there is no other.
pub open spec fn next_channel(every: Seq<Seq<char>>, open: Seq<char>) -> Option<Seq<char>> {
    let after = if exists|at: int| first_place(every, open, at) {
        let at = choose|at: int| first_place(every, open, at);
        if at + 1 < every.len() {
            every[at + 1]
        } else {
            every[0]
        }
    } else {
        every[0]
    };
    if every.len() == 0 || after == open {
        None
    } else {
        Some(after)
    }
}

/// A channel other than the open one, walking the sidebar's channels in
/// order and coming back round. `None` when the reader is in one channel and
/// no others.
pub fn another_channel(every: &Vec<String>, open: Option<&str>) -> (next: Option<String>)
    ensures
        match next {
            Some(n) => next_channel(every@.map_values(|c: String| c@), open_of(open)) == Some(n@),
            None => next_channel(every@.map_values(|c: String| c@), open_of(open)) is None,
        },
{
    let ghost ids = every@.map_values(|c: String| c@);
    let ghost old_open = open;
    let open = match open {
        Some(open) => open,
        None => "",
    };
    proof {
        reveal_strlit("");
    }
    if every.len() == 0 {
        return None;
    }
    let mut i: usize = 0;
    let mut at: Option<usize> = None;
    while i < every.len()
        invariant
            i <= every@.len(),
            ids == every@.map_values(|c: String| c@),
            at is None ==> forall|j: int| 0 <= j < i ==> ids[j] != open@,
            at matches Some(a) ==> first_place(ids, open@, a as int),
        decreases every@.len() - i,
    {
        if at.is_none() && same_text(every[i].as_str(), open) {
            at = Some(i);
        }
        i = i + 1;
    }
    let after = match at {
        Some(a) => {
            proof {
                let chosen = choose|x: int| first_place(ids, open@, x);
                assert(chosen == a) by {
                    if chosen < a {
                        assert(ids[chosen] != open@);
                    } else if chosen > a {
                        assert(ids[a as int] != open@);
                    }
                }
            }
            if a + 1 < every.len() {
                assert(ids[a + 1] == every@[a + 1]@);
                &every[a + 1]
            } else {
                assert(ids[0] == every@[0]@);
                &every[0]
            }
        },
        None => {
            assert(!exists|x: int| first_place(ids, open@, x));
            assert(ids[0] == every@[0]@);
            &every[0]
        },
    };
    assert(open@ == open_of(old_open));
    if same_text(after.as_str(), open) {
        None
    } else {
        Some(after.clone())
    }
}

/// The open channel, as the contracts speak of it: nothing open is the empty
/// name.
pub open spec fn open_of(open: Option<&str>) -> Seq<char> {
    match open {
        Some(o) => o@,
        None => seq![],
    }
}

/// Whether `at` is where the first channel with id `id` is.
pub open spec fn labelled_at(channels: Seq<(Seq<char>, Seq<char>)>, id: Seq<char>, at: int) -> bool {
    0 <= at < channels.len() && channels[at].0 == id && forall|j: int|
        0 <= j < at ==> (#[trigger] channels[j]).0 != id
}

/// What the window is called: the threads view, the invented sample when
/// there is no store, nothing when no channel is open, and otherwise the
/// open channel's label as the sidebar has it -- its id when the sidebar has
/// not caught up with it yet.
pub open spec fn title_of(
    on_threads: bool,
    sample: bool,
    open: Option<Seq<char>>,
    channels: Seq<(Seq<char>, Seq<char>)>,
) -> Seq<char> {
    if on_threads {
        "Threads"@
    } else if sample {
        "Sample conversation"@
    } else {
        match open {
            None => seq![],
            Some(o) => if exists|at: int| labelled_at(channels, o, at) {
                channels[choose|at: int| labelled_at(channels, o, at)].1
            } else {
                o
            },
        }
    }
}

/// What the window is called. `channels` are the sidebar's channels in
/// order, each its id and its label.
pub fn title(on_threads: bool, sample: bool, open: Option<&str>, channels: &Vec<(String, String)>) -> (titled: String)
    ensures
        titled@ == title_of(
            on_threads,
            sample,
            match open {
                Some(o) => Some(o@),
                None => None,
            },
            channels@.map_values(|c: (String, String)| (c.0@, c.1@)),
        ),
{
    if on_threads {
        return String::from_str("Threads");
    }
    if sample {
        return String::from_str("Sample conversation");
    }
    let ghost asked = match open {
        Some(o) => Some(o@),
        None => None,
    };
    let wanted = match open {
        Some(wanted) => wanted,
        None => return String::new(),
    };
    assert(asked == Some(wanted@));
    let ghost all = channels@.map_values(|c: (String, String)| (c.0@, c.1@));
    let mut i: usize = 0;
    while i < channels.len()
        invariant
            i <= channels@.len(),
            !on_threads,
            !sample,
            asked == Some(wanted@),
            asked == (match open {
                Some(o) => Some(o@),
                None => None,
            }),
            all == channels@.map_values(|c: (String, String)| (c.0@, c.1@)),
            forall|j: int| 0 <= j < i ==> (#[trigger] all[j]).0 != wanted@,
        decreases channels@.len() - i,
    {
        if same_text(channels[i].0.as_str(), wanted) {
            proof {
                assert(all[i as int] == (channels@[i as int].0@, channels@[i as int].1@));
                assert(all[i as int].0 == wanted@);
                assert(labelled_at(all, wanted@, i as int));
                let chosen = choose|at: int| labelled_at(all, wanted@, at);
                assert(chosen == i) by {
                    if chosen < i {
                        assert(all[chosen].0 != wanted@);
                    } else if chosen > i {
                        assert(all[i as int].0 != wanted@);
                    }
                }
            }
            let label = channels[i].1.clone();
            assert(label@ == all[i as int].1);
            assert(title_of(on_threads, sample, asked, all) == all[i as int].1);
            return label;
        }
        i = i + 1;
    }
    String::from_str(wanted)
}


/// The channel a message in it is not announced for: the one being looked at,
/// while the window is being looked at; none while it is not.
pub open spec fn looked_at(focused: bool, selected: Option<Seq<char>>) -> Seq<char> {
    if focused {
        match selected {
            Some(s) => s,
            None => seq![],
        }
    } else {
        seq![]
    }
}

/// Which of the messages asking to be announced are, by where each arrived:
/// every one but those in the channel being looked at while it is looked at.
pub open spec fn announced_of(channels: Seq<Seq<char>>, open: Seq<char>) -> Seq<int>
    decreases channels.len(),
{
    if channels.len() == 0 {
        seq![]
    } else {
        let before = announced_of(channels.drop_last(), open);
        if channels.last() != open {
            before.push(channels.len() - 1)
        } else {
            before
        }
    }
}

/// What to do about messages that ask to be announced, given the channel
/// each arrived in: which to raise a notification for -- none at all when
/// the window was opened quietly beside another client, which announces them
/// itself -- and whether to ask for attention, which is only while the
/// window is not being looked at and only when something was announced.
pub fn announcing(channels: &Vec<String>, focused: bool, selected: Option<&str>, quiet: bool) -> (what: (
    Vec<usize>,
    bool,
))
    ensures
        ({
            let open = looked_at(
                focused,
                match selected {
                    Some(s) => Some(s@),
                    None => None,
                },
            );
            let due = announced_of(channels@.map_values(|c: String| c@), open);
            &&& quiet ==> what.0@.len() == 0
            &&& !quiet ==> what.0@.map_values(|i: usize| i as int) == due
            &&& what.1 == (!quiet && !focused && due.len() > 0)
        }),
{
    let ghost all = channels@.map_values(|c: String| c@);
    let ghost open = looked_at(
        focused,
        match selected {
            Some(s) => Some(s@),
            None => None,
        },
    );
    let open_now: &str = if focused {
        match selected {
            Some(s) => s,
            None => "",
        }
    } else {
        ""
    };
    proof {
        reveal_strlit("");
    }
    assert(open_now@ == open);
    let mut due: Vec<usize> = Vec::new();
    let mut i: usize = 0;
    while i < channels.len()
        invariant
            i <= channels@.len(),
            all == channels@.map_values(|c: String| c@),
            open_now@ == open,
            due@.map_values(|i: usize| i as int) == announced_of(all.take(i as int), open),
        decreases channels@.len() - i,
    {
        assert(all.take(i + 1).drop_last() =~= all.take(i as int));
        assert(all.take(i + 1).last() == channels@[i as int]@);
        if !same_text(channels[i].as_str(), open_now) {
            let ghost had = due@;
            due.push(i);
            assert(due@.map_values(|i: usize| i as int) =~= had.map_values(|i: usize| i as int).push(
                i as int,
            ));
        }
        i = i + 1;
    }
    assert(all.take(i as int) =~= all);
    let attention = !quiet && !focused && due.len() > 0;
    if quiet {
        (Vec::new(), attention)
    } else {
        (due, attention)
    }
}

/// A message in the channel being looked at, while it is looked at, is never
/// announced: the reader can already see it.
pub proof fn lemma_what_is_seen_is_not_announced(channels: Seq<Seq<char>>, open: Seq<char>)
    ensures
        forall|k: int|
            0 <= k < announced_of(channels, open).len() ==> {
                let at = #[trigger] announced_of(channels, open)[k];
                0 <= at < channels.len() && channels[at] != open
            },
        forall|at: int| 0 <= at < channels.len() && channels[at] != open ==> announced_of(channels, open).contains(at),
    decreases channels.len(),
{
    if channels.len() > 0 {
        let before = channels.drop_last();
        lemma_what_is_seen_is_not_announced(before, open);
        assert forall|at: int| 0 <= at < channels.len() && channels[at] != open implies announced_of(
            channels,
            open,
        ).contains(at) by {
            if at < channels.len() - 1 {
                assert(before[at] == channels[at]);
                let k = choose|k: int| 0 <= k < announced_of(before, open).len() && announced_of(before, open)[k] == at;
                assert(announced_of(channels, open)[k] == at);
            } else {
                assert(announced_of(channels, open).last() == at);
            }
        }
    }
}

} // verus!
