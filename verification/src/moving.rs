//! Pictures with more than one frame in them.
//!
//! Frames are played from the moment the picture arrived, looping, and only
//! advance for pictures that are being drawn. Times are nanoseconds on the
//! window's monotonic clock; delays are nanoseconds too.
//!
//! The reels are kept in a `Vec` of key and reel, each key at most once
//! (`unique_reels`), in the order they were added. A map keyed by text would
//! leave the contracts with too little to prove from: what a lookup, an
//! insertion or a removal does to such a map is not specified closely enough
//! to carry the room and eviction rules below. With a sequence the rules are
//! stated and proved directly, and looking a key up is a walk over it.

use vstd::prelude::*;
use vstd::slice::*;

verus! {

/// A delay shorter than this (two hundredths of a second) is read as unset.
pub const FLOOR: u64 = 20_000_000;

/// What an unset delay is played as: a tenth of a second.
pub const WHEN_UNSAID: u64 = 100_000_000;

/// How much room all the moving pictures may take between them: 32 MiB.
pub const ROOM: usize = 33_554_432;

/// The delay a frame is played for, given the one its file asked for.
pub open spec fn played_for(asked: u64) -> u64 {
    if asked < FLOOR {
        WHEN_UNSAID
    } else {
        asked
    }
}

/// The delays added up.
pub open spec fn total(delays: Seq<u64>) -> nat
    decreases delays.len(),
{
    if delays.len() == 0 {
        0
    } else {
        total(delays.drop_last()) + delays.last() as nat
    }
}

/// Which frame a moment `into` nanoseconds into the loop falls in: the first
/// whose delay has not run out by then, or the last one.
pub open spec fn slot(delays: Seq<u64>, into: int) -> nat
    decreases delays.len(),
{
    if delays.len() <= 1 || into < delays[0] {
        0
    } else {
        1 + slot(delays.drop_first(), into - delays[0])
    }
}

/// How long after `into` the frame that `into` falls in runs out, when one
/// does.
pub open spec fn left_in_slot(delays: Seq<u64>, into: int) -> Option<nat>
    decreases delays.len(),
{
    if delays.len() == 0 {
        None
    } else if into < delays[0] {
        Some((delays[0] - into) as nat)
    } else {
        left_in_slot(delays.drop_first(), into - delays[0])
    }
}

/// A picture that moves, as the contracts speak of it.
pub struct ReelView {
    pub frames: Seq<Seq<u8>>,
    pub delays: Seq<u64>,
    pub width: u32,
    pub height: u32,
    pub began: u64,
    pub shown: usize,
    pub seen: u64,
}

impl ReelView {
    /// How long the whole loop takes.
    pub open spec fn round(self) -> nat {
        total(self.delays)
    }

    /// How far into the loop `now` is.
    pub open spec fn into(self, now: u64) -> int {
        (if now >= self.began {
            now - self.began
        } else {
            0
        }) % (self.round() as int)
    }

    /// Which frame belongs to `now`.
    pub open spec fn frame_at(self, now: u64) -> nat {
        if self.round() == 0 || self.frames.len() == 0 {
            0
        } else {
            slot(self.delays, self.into(now))
        }
    }

    /// How long from `now` until the frame after the one showing is due, for
    /// a picture with more than one frame; held at what a `u64` can say.
    pub open spec fn wait(self, now: u64) -> Option<nat> {
        if self.round() == 0 || self.frames.len() < 2 {
            None
        } else {
            match left_in_slot(self.delays, self.into(now)) {
                None => None,
                Some(left) => Some(if left > u64::MAX { u64::MAX as nat } else { left }),
            }
        }
    }

    /// When the frame after the one showing is due.
    pub open spec fn next_due(self, now: u64) -> Option<int> {
        match self.wait(now) {
            None => None,
            Some(left) => Some(now + left),
        }
    }

    /// How many bytes its frames hold.
    pub open spec fn size(self) -> nat {
        sizes(self.frames)
    }

    /// A frame for every delay.
    pub open spec fn valid(self) -> bool {
        self.frames.len() == self.delays.len()
    }
}

/// The frames' lengths, added up.
pub open spec fn sizes(frames: Seq<Seq<u8>>) -> nat
    decreases frames.len(),
{
    if frames.len() == 0 {
        0
    } else {
        sizes(frames.drop_last()) + frames.last().len()
    }
}

/// One picture that moves, and where in its loop it is.
#[derive(Debug)]
pub struct Reel {
    frames: Vec<Vec<u8>>,
    delays: Vec<u64>,
    pub width: u32,
    pub height: u32,
    /// When the loop started, which is when the picture arrived.
    began: u64,
    /// Which frame is in the atlas now.
    shown: usize,
    /// When it was last drawn, for deciding what to drop.
    seen: u64,
}

impl View for Reel {
    type V = ReelView;

    closed spec fn view(&self) -> ReelView {
        ReelView {
            frames: self.frames@.map_values(|frame: Vec<u8>| frame@),
            delays: self.delays@,
            width: self.width,
            height: self.height,
            began: self.began,
            shown: self.shown,
            seen: self.seen,
        }
    }
}

impl Reel {
    /// A picture that has just arrived: its frames, each played for the delay
    /// its file asked, or a tenth of a second where that is under two
    /// hundredths. Nothing of it is in the atlas yet.
    pub fn new(width: u32, height: u32, frames: Vec<(Vec<u8>, u64)>, now: u64) -> (reel: Self)
        ensures
            reel@.valid(),
            reel@.frames == frames@.map_values(|pair: (Vec<u8>, u64)| pair.0@),
            reel@.delays == frames@.map_values(|pair: (Vec<u8>, u64)| played_for(pair.1)),
            reel@.width == width,
            reel@.height == height,
            reel@.began == now,
            reel@.seen == now,
            reel@.shown == usize::MAX,
    {
        let mut pictures: Vec<Vec<u8>> = Vec::new();
        let mut delays: Vec<u64> = Vec::new();
        let ghost given = frames@;
        for pair in iter: frames
            invariant
                iter.seq() == given,
                iter.index() <= given.len(),
                pictures@.len() == iter.index(),
                pictures@.map_values(|frame: Vec<u8>| frame@) == given.take(iter.index()).map_values(
                    |pair: (Vec<u8>, u64)| pair.0@,
                ),
                delays@ == given.take(iter.index()).map_values(
                    |pair: (Vec<u8>, u64)| played_for(pair.1),
                ),
        {
            let ghost i = iter.index();
            assert(pair == given[i]);
            let ghost old_pictures = pictures@;
            let (pixels, delay) = pair;
            let delay = if delay < FLOOR {
                WHEN_UNSAID
            } else {
                delay
            };
            pictures.push(pixels);
            delays.push(delay);
            proof {
                assert(given.take(i + 1) =~= given.take(i).push(given[i]));
                assert(pictures@ == old_pictures.push(pixels));
                let f = |frame: Vec<u8>| frame@;
                let g = |pair: (Vec<u8>, u64)| pair.0@;
                assert forall|j: int| 0 <= j < i + 1 implies pictures@.map_values(f)[j]
                    == given.take(i + 1).map_values(g)[j] by {
                    if j < i {
                        assert(old_pictures.map_values(f)[j] == given.take(i).map_values(g)[j]);
                        assert(pictures@[j] == old_pictures[j]);
                    }
                }
                assert(pictures@.map_values(f) =~= given.take(i + 1).map_values(g));
            }
        }
        proof {
            assert(given.take(given.len() as int) =~= given);
        }
        Reel { frames: pictures, delays, width, height, began: now, shown: usize::MAX, seen: now }
    }

    /// How long the whole loop takes, in nanoseconds.
    pub fn round(&self) -> (round: u128)
        ensures
            round == self@.round(),
    {
        let mut sum: u128 = 0;
        let mut i: usize = 0;
        while i < self.delays.len()
            invariant
                i <= self.delays@.len(),
                sum == total(self.delays@.take(i as int)),
                sum <= i * 0xffff_ffff_ffff_ffffu128,
            decreases self.delays@.len() - i,
        {
            proof {
                assert(self.delays@.take(i + 1).drop_last() =~= self.delays@.take(i as int));
            }
            sum = sum + self.delays[i] as u128;
            i = i + 1;
        }
        assert(self.delays@.take(i as int) =~= self.delays@);
        sum
    }
}


impl Reel {
    /// How far into the loop `now` is, given the loop's length.
    fn into(&self, now: u64, round: u128) -> (into: u128)
        requires
            round == self@.round(),
            round > 0,
        ensures
            into == self@.into(now),
            into < round,
    {
        let elapsed: u64 = if now >= self.began {
            now - self.began
        } else {
            0
        };
        elapsed as u128 % round
    }

    /// Which frame belongs to `now`.
    pub fn at(&self, now: u64) -> (frame: usize)
        requires
            self@.valid(),
        ensures
            frame == self@.frame_at(now),
    {
        let round = self.round();
        assert(self@.frames.len() == self.frames@.len());
        if round == 0 || self.frames.len() == 0 {
            return 0;
        }
        let mut into = self.into(now, round);
        let ghost delays = self.delays@;
        let ghost start = into;
        let count = self.delays.len();
        let mut i: usize = 0;
        assert(delays.skip(0) =~= delays);
        while i + 1 < count
            invariant
                count == delays.len(),
                delays == self.delays@,
                count > 0,
                i < count,
                start == self@.into(now),
                self@.round() > 0,
                self@.frames.len() == count,
                slot(delays, start as int) == i + slot(delays.skip(i as int), into as int),
            decreases count - i,
        {
            let delay = self.delays[i];
            assert(delays.skip(i as int)[0] == delay);
            if into < delay as u128 {
                assert(slot(delays.skip(i as int), into as int) == 0);
                return i;
            }
            proof {
                let here = delays.skip(i as int);
                assert(here.drop_first() =~= delays.skip(i + 1));
            }
            into = into - delay as u128;
            i = i + 1;
        }
        i
    }

    /// When the frame after the one showing is due, for a picture with more
    /// than one frame.
    pub fn next(&self, now: u64) -> (due: Option<u64>)
        requires
            self@.valid(),
            match self@.next_due(now) {
                Some(t) => t <= u64::MAX,
                None => true,
            },
        ensures
            match due {
                Some(t) => self@.next_due(now) == Some(t as int),
                None => self@.next_due(now) is None,
            },
    {
        let round = self.round();
        assert(self@.frames.len() == self.frames@.len());
        if round == 0 || self.frames.len() < 2 {
            return None;
        }
        let mut into = self.into(now, round);
        let ghost delays = self.delays@;
        let ghost start = into;
        let count = self.delays.len();
        let mut i: usize = 0;
        assert(delays.skip(0) =~= delays);
        while i < count
            invariant
                count == delays.len(),
                delays == self.delays@,
                i <= count,
                start == self@.into(now),
                self@.round() > 0,
                self@.frames.len() == count,
                count >= 2,
                match self@.next_due(now) {
                    Some(t) => t <= u64::MAX,
                    None => true,
                },
                left_in_slot(delays, start as int) == left_in_slot(
                    delays.skip(i as int),
                    into as int,
                ),
            decreases count - i,
        {
            let delay = self.delays[i];
            assert(delays.skip(i as int)[0] == delay);
            if into < delay as u128 {
                assert(left_in_slot(delays.skip(i as int), into as int) == Some(
                    (delay - into) as nat,
                ));
                let left = delay as u128 - into;
                let capped: u64 = if left > 0xffff_ffff_ffff_ffffu128 {
                    0xffff_ffff_ffff_ffffu64
                } else {
                    left as u64
                };
                return Some(now + capped);
            }
            proof {
                let here = delays.skip(i as int);
                assert(here.drop_first() =~= delays.skip(i + 1));
            }
            into = into - delay as u128;
            i = i + 1;
        }
        proof {
            assert(delays.skip(i as int) =~= Seq::<u64>::empty());
        }
        None
    }

    /// How many bytes its frames hold, held at what a `usize` can say.
    pub fn bytes(&self) -> (size: usize)
        ensures
            size == if self@.size() > usize::MAX {
                usize::MAX as nat
            } else {
                self@.size()
            },
    {
        let ghost frames = self@.frames;
        let mut sum: usize = 0;
        let mut i: usize = 0;
        while i < self.frames.len()
            invariant
                frames == self@.frames,
                i <= self.frames@.len(),
                sum == if sizes(frames.take(i as int)) > usize::MAX {
                    usize::MAX as nat
                } else {
                    sizes(frames.take(i as int))
                },
            decreases self.frames@.len() - i,
        {
            proof {
                assert(frames.take(i + 1).drop_last() =~= frames.take(i as int));
                assert(frames[i as int] == self.frames@[i as int]@);
            }
            sum = sum.saturating_add(self.frames[i].len());
            i = i + 1;
        }
        assert(frames.take(i as int) =~= frames);
        sum
    }
}


/// The reels with `reel` under `key`: in place of the one there, or at the
/// end when there is none.
pub open spec fn placed(reels: Seq<(Seq<char>, ReelView)>, key: Seq<char>, reel: ReelView) -> Seq<
    (Seq<char>, ReelView),
>
    decreases reels.len(),
{
    if reels.len() == 0 {
        seq![(key, reel)]
    } else if reels[0].0 == key {
        reels.update(0, (key, reel))
    } else {
        seq![reels[0]] + placed(reels.drop_first(), key, reel)
    }
}

/// How many bytes all the reels hold.
pub open spec fn held_bytes(reels: Seq<(Seq<char>, ReelView)>) -> nat
    decreases reels.len(),
{
    if reels.len() == 0 {
        0
    } else {
        held_bytes(reels.drop_last()) + reels.last().1.size()
    }
}

/// The reel drawn longest ago: the first of them, when several were drawn
/// at the same moment.
pub open spec fn oldest(reels: Seq<(Seq<char>, ReelView)>) -> int
    decreases reels.len(),
{
    if reels.len() <= 1 {
        0
    } else {
        let later = 1 + oldest(reels.drop_first());
        if reels[later].1.seen < reels[0].1.seen {
            later
        } else {
            0
        }
    }
}

/// The reels once the ones drawn longest ago have been dropped, one at a
/// time, until they fit the room or only one is left.
pub open spec fn evicted(reels: Seq<(Seq<char>, ReelView)>) -> Seq<(Seq<char>, ReelView)>
    decreases reels.len(),
{
    if held_bytes(reels) > ROOM && reels.len() > 1 {
        proof {
            lemma_oldest(reels);
        }
        evicted(reels.remove(oldest(reels)))
    } else {
        reels
    }
}

/// Whether no key names two reels.
pub open spec fn unique_reels(reels: Seq<(Seq<char>, ReelView)>) -> bool {
    forall|i: int, j: int|
        0 <= i < reels.len() && 0 <= j < reels.len() && i != j ==> #[trigger] reels[i].0
            != #[trigger] reels[j].0
}

/// Every picture that moves, by the key it is drawn under.
#[derive(Debug)]
pub struct Moving {
    reels: Vec<(String, Reel)>,
}

impl View for Moving {
    type V = Seq<(Seq<char>, ReelView)>;

    closed spec fn view(&self) -> Seq<(Seq<char>, ReelView)> {
        self.reels@.map_values(|pair: (String, Reel)| (pair.0@, pair.1@))
    }
}

impl Default for Moving {
    fn default() -> (moving: Self)
        ensures
            moving@.len() == 0,
            moving.valid(),
    {
        Moving::new()
    }
}

/// The oldest reel really is drawn no later than any other.
pub proof fn lemma_oldest(reels: Seq<(Seq<char>, ReelView)>)
    requires
        reels.len() > 0,
    ensures
        is_oldest(reels, oldest(reels)),
    decreases reels.len(),
{
    if reels.len() > 1 {
        let rest = reels.drop_first();
        lemma_oldest(rest);
        let o = oldest(reels);
        assert forall|j: int| 0 <= j < reels.len() implies reels[o].1.seen
            <= #[trigger] reels[j].1.seen by {
            if j > 0 {
                assert(reels[j] == rest[j - 1]);
            }
        }
        assert forall|j: int| 0 <= j < o implies #[trigger] reels[j].1.seen > reels[o].1.seen by {
            if j > 0 {
                assert(reels[j] == rest[j - 1]);
            }
        }
    }
}

/// Whether `o` is the reel drawn longest ago, and the first such.
pub open spec fn is_oldest(reels: Seq<(Seq<char>, ReelView)>, o: int) -> bool {
    &&& 0 <= o < reels.len()
    &&& forall|j: int| 0 <= j < reels.len() ==> reels[o].1.seen <= #[trigger] reels[j].1.seen
    &&& forall|j: int| 0 <= j < o ==> #[trigger] reels[j].1.seen > reels[o].1.seen
}

/// There is only one reel drawn longest ago and first.
pub proof fn lemma_oldest_unique(reels: Seq<(Seq<char>, ReelView)>, a: int, b: int)
    requires
        is_oldest(reels, a),
        is_oldest(reels, b),
    ensures
        a == b,
{
    if a < b {
        assert(reels[a].1.seen > reels[b].1.seen);
        assert(reels[b].1.seen <= reels[a].1.seen);
    } else if b < a {
        assert(reels[b].1.seen > reels[a].1.seen);
        assert(reels[a].1.seen <= reels[b].1.seen);
    }
}

/// The reels with `reel` under `key` are the old ones with that entry
/// replaced, or with it added at the end.
pub proof fn lemma_placed(
    reels: Seq<(Seq<char>, ReelView)>,
    key: Seq<char>,
    reel: ReelView,
    at: Option<int>,
)
    requires
        match at {
            Some(i) => 0 <= i < reels.len() && reels[i].0 == key && forall|j: int|
                0 <= j < i ==> #[trigger] reels[j].0 != key,
            None => forall|j: int| 0 <= j < reels.len() ==> #[trigger] reels[j].0 != key,
        },
    ensures
        placed(reels, key, reel) == match at {
            Some(i) => reels.update(i, (key, reel)),
            None => reels.push((key, reel)),
        },
    decreases reels.len(),
{
    if reels.len() > 0 {
        let rest = reels.drop_first();
        match at {
            Some(i) => {
                if i > 0 {
                    assert forall|j: int| 0 <= j < i - 1 implies #[trigger] rest[j].0 != key by {
                        assert(rest[j] == reels[j + 1]);
                    }
                    lemma_placed(rest, key, reel, Some(i - 1));
                    assert(placed(reels, key, reel) =~= reels.update(i, (key, reel)));
                }
            },
            None => {
                assert forall|j: int| 0 <= j < rest.len() implies #[trigger] rest[j].0 != key by {
                    assert(rest[j] == reels[j + 1]);
                }
                assert(reels[0].0 != key);
                lemma_placed(rest, key, reel, None);
                assert(placed(reels, key, reel) =~= reels.push((key, reel)));
            },
        }
    }
}

impl Moving {
    /// Each key names one reel, and each reel has a frame for every delay.
    pub open spec fn valid(self) -> bool {
        &&& unique_reels(self@)
        &&& forall|i: int| 0 <= i < self@.len() ==> (#[trigger] self@[i]).1.valid()
    }

    /// Nothing moving yet.
    pub fn new() -> (moving: Self)
        ensures
            moving@.len() == 0,
            moving.valid(),
    {
        let moving = Moving { reels: Vec::new() };
        assert(moving@ =~= Seq::<(Seq<char>, ReelView)>::empty());
        moving
    }

    /// Whether a picture is held under `key`.
    pub fn holds(&self, key: &str) -> (held: bool)
        ensures
            held <==> exists|i: int| 0 <= i < self@.len() && #[trigger] self@[i].0 == key@,
    {
        match self.position(key) {
            Some(i) => {
                assert(self@[i as int].0 == key@);
                true
            },
            None => false,
        }
    }

    /// How many pictures are held.
    pub fn len(&self) -> (count: usize)
        ensures
            count == self@.len(),
    {
        self.reels.len()
    }

    /// Whether no picture is held.
    pub fn is_empty(&self) -> (empty: bool)
        ensures
            empty <==> self@.len() == 0,
    {
        self.reels.len() == 0
    }

    /// Where the reel under `key` is.
    fn position(&self, key: &str) -> (at: Option<usize>)
        ensures
            match at {
                Some(i) => i < self@.len() && self@[i as int].0 == key@ && forall|j: int|
                    0 <= j < i ==> #[trigger] self@[j].0 != key@,
                None => forall|j: int| 0 <= j < self@.len() ==> #[trigger] self@[j].0 != key@,
            },
    {
        let mut i: usize = 0;
        while i < self.reels.len()
            invariant
                i <= self@.len(),
                self@.len() == self.reels@.len(),
                forall|j: int| 0 <= j < i ==> #[trigger] self@[j].0 != key@,
            decreases self.reels@.len() - i,
        {
            if crate::session::same_text(self.reels[i].0.as_str(), key) {
                return Some(i);
            }
            i = i + 1;
        }
        None
    }
}


impl Moving {
    /// How many bytes all the reels hold, held at what a `usize` can say.
    fn held_bytes(&self) -> (size: usize)
        ensures
            size == if held_bytes(self@) > usize::MAX {
                usize::MAX as nat
            } else {
                held_bytes(self@)
            },
    {
        let ghost all = self@;
        let mut sum: usize = 0;
        let mut i: usize = 0;
        while i < self.reels.len()
            invariant
                all == self@,
                all.len() == self.reels@.len(),
                i <= all.len(),
                sum == if held_bytes(all.take(i as int)) > usize::MAX {
                    usize::MAX as nat
                } else {
                    held_bytes(all.take(i as int))
                },
            decreases all.len() - i,
        {
            proof {
                assert(all.take(i + 1).drop_last() =~= all.take(i as int));
                assert(all[i as int].1 == self.reels@[i as int].1@);
            }
            sum = sum.saturating_add(self.reels[i].1.bytes());
            i = i + 1;
        }
        assert(all.take(i as int) =~= all);
        sum
    }

    /// Which reel was drawn longest ago.
    fn oldest(&self) -> (o: usize)
        requires
            self@.len() > 0,
        ensures
            o == oldest(self@),
    {
        let ghost all = self@;
        let mut best: usize = 0;
        let mut i: usize = 1;
        while i < self.reels.len()
            invariant
                all == self@,
                all.len() == self.reels@.len(),
                all.len() > 0,
                1 <= i <= all.len(),
                best < i,
                forall|j: int| 0 <= j < i ==> all[best as int].1.seen <= #[trigger] all[j].1.seen,
                forall|j: int| 0 <= j < best ==> #[trigger] all[j].1.seen > all[best as int].1.seen,
            decreases all.len() - i,
        {
            if self.reels[i].1.seen < self.reels[best].1.seen {
                best = i;
            }
            i = i + 1;
        }
        proof {
            lemma_oldest(all);
            lemma_oldest_unique(all, best as int, oldest(all));
        }
        best
    }

    /// Takes a picture that moves, replacing whatever was under that key,
    /// then drops the ones drawn longest ago while there is no room left and
    /// more than one is held.
    pub fn keep(&mut self, key: &str, reel: Reel)
        requires
            old(self).valid(),
            reel@.valid(),
        ensures
            final(self)@ == evicted(placed(old(self)@, key@, reel@)),
            final(self).valid(),
    {
        let ghost before = self@;
        let ghost fresh = reel@;
        let at = self.position(key);
        match at {
            Some(i) => {
                proof {
                    lemma_placed(before, key@, fresh, Some(i as int));
                }
                self.reels.set(i, (String::from_str(key), reel));
                assert(self@ =~= before.update(i as int, (key@, fresh)));
            },
            None => {
                proof {
                    lemma_placed(before, key@, fresh, None);
                }
                self.reels.push((String::from_str(key), reel));
                assert(self@ =~= before.push((key@, fresh)));
            },
        }
        proof {
            let spot: Option<int> = match at {
                Some(i) => Some(i as int),
                None => None,
            };
            lemma_placed_valid(before, key@, fresh, spot);
        }
        let ghost goal = evicted(self@);
        while self.held_bytes() > ROOM && self.reels.len() > 1
            invariant
                evicted(self@) == goal,
                self.valid(),
            decreases self@.len(),
        {
            let o = self.oldest();
            proof {
                lemma_oldest(self@);
                lemma_removed_valid(self@, o as int);
            }
            let ghost was = self@;
            self.reels.remove(o);
            assert(self@ =~= was.remove(o as int));
        }
    }
}

/// Putting a valid reel under a key keeps the reels valid.
proof fn lemma_placed_valid(
    reels: Seq<(Seq<char>, ReelView)>,
    key: Seq<char>,
    reel: ReelView,
    at: Option<int>,
)
    requires
        unique_reels(reels),
        forall|i: int| 0 <= i < reels.len() ==> (#[trigger] reels[i]).1.valid(),
        reel.valid(),
        match at {
            Some(i) => 0 <= i < reels.len() && reels[i].0 == key && forall|j: int|
                0 <= j < i ==> #[trigger] reels[j].0 != key,
            None => forall|j: int| 0 <= j < reels.len() ==> #[trigger] reels[j].0 != key,
        },
    ensures
        unique_reels(placed(reels, key, reel)),
        forall|i: int|
            0 <= i < placed(reels, key, reel).len() ==> (#[trigger] placed(reels, key, reel)[i]).1.valid(),
{
    lemma_placed(reels, key, reel, at);
    let after = placed(reels, key, reel);
    match at {
        Some(i) => {
            assert forall|a: int, b: int|
                0 <= a < after.len() && 0 <= b < after.len() && a != b implies #[trigger] after[a].0
                != #[trigger] after[b].0 by {
                assert(after[a].0 == reels[a].0);
                assert(after[b].0 == reels[b].0);
            }
        },
        None => {
            assert forall|a: int, b: int|
                0 <= a < after.len() && 0 <= b < after.len() && a != b implies #[trigger] after[a].0
                != #[trigger] after[b].0 by {
                if a < reels.len() {
                    assert(after[a] == reels[a]);
                }
                if b < reels.len() {
                    assert(after[b] == reels[b]);
                }
            }
        },
    }
    assert forall|i: int| 0 <= i < after.len() implies (#[trigger] after[i]).1.valid() by {
        if i < reels.len() && at != Some(i) {
            assert(after[i] == reels[i]);
        }
    }
}

/// Dropping a reel keeps the reels valid.
proof fn lemma_removed_valid(reels: Seq<(Seq<char>, ReelView)>, o: int)
    requires
        unique_reels(reels),
        forall|i: int| 0 <= i < reels.len() ==> (#[trigger] reels[i]).1.valid(),
        0 <= o < reels.len(),
    ensures
        unique_reels(reels.remove(o)),
        forall|i: int| 0 <= i < reels.remove(o).len() ==> (#[trigger] reels.remove(o)[i]).1.valid(),
{
    let after = reels.remove(o);
    assert forall|a: int, b: int|
        0 <= a < after.len() && 0 <= b < after.len() && a != b implies #[trigger] after[a].0
        != #[trigger] after[b].0 by {
        let ra = if a < o { a } else { a + 1 };
        let rb = if b < o { b } else { b + 1 };
        assert(after[a] == reels[ra]);
        assert(after[b] == reels[rb]);
    }
    assert forall|i: int| 0 <= i < after.len() implies (#[trigger] after[i]).1.valid() by {
        let ri = if i < o { i } else { i + 1 };
        assert(after[i] == reels[ri]);
    }
}


/// After keeping a picture, what is held fits the room, or is a single
/// picture.
pub proof fn lemma_evicted_fits(reels: Seq<(Seq<char>, ReelView)>)
    ensures
        held_bytes(evicted(reels)) <= ROOM || evicted(reels).len() <= 1,
    decreases reels.len(),
{
    if held_bytes(reels) > ROOM && reels.len() > 1 {
        lemma_oldest(reels);
        lemma_evicted_fits(reels.remove(oldest(reels)));
    }
}

/// Dropping pictures only drops: whatever is still held was held before,
/// unchanged.
pub proof fn lemma_evicted_kept(reels: Seq<(Seq<char>, ReelView)>)
    ensures
        forall|x: (Seq<char>, ReelView)| #[trigger] evicted(reels).contains(x) ==> reels.contains(x),
    decreases reels.len(),
{
    if held_bytes(reels) > ROOM && reels.len() > 1 {
        lemma_oldest(reels);
        let o = oldest(reels);
        let rest = reels.remove(o);
        lemma_evicted_kept(rest);
        assert(evicted(reels) == evicted(rest));
        assert forall|x: (Seq<char>, ReelView)| #[trigger] evicted(reels).contains(x) implies reels.contains(x) by {
            assert(rest.contains(x));
            let j = choose|j: int| 0 <= j < rest.len() && rest[j] == x;
            if j < o {
                assert(reels[j] == x);
            } else {
                assert(reels[j + 1] == x);
            }
        }
    }
}

/// What is dropped under pressure is what nobody has looked at: every
/// picture dropped was drawn no later than every picture kept.
pub proof fn lemma_evicted_were_oldest(reels: Seq<(Seq<char>, ReelView)>)
    ensures
        forall|x: (Seq<char>, ReelView), y: (Seq<char>, ReelView)|
            reels.contains(x) && !evicted(reels).contains(x) && #[trigger] evicted(reels).contains(y)
                ==> #[trigger] x.1.seen <= y.1.seen,
    decreases reels.len(),
{
    if held_bytes(reels) > ROOM && reels.len() > 1 {
        lemma_oldest(reels);
        let o = oldest(reels);
        let rest = reels.remove(o);
        lemma_evicted_were_oldest(rest);
        lemma_evicted_kept(rest);
        assert(evicted(reels) == evicted(rest));
        assert forall|x: (Seq<char>, ReelView), y: (Seq<char>, ReelView)|
            reels.contains(x) && !evicted(reels).contains(x) && #[trigger] evicted(reels).contains(y)
                implies #[trigger] x.1.seen <= y.1.seen by {
            assert(rest.contains(y));
            let k = choose|k: int| 0 <= k < rest.len() && rest[k] == y;
            let ky = if k < o { k } else { k + 1 };
            assert(reels[ky] == y);
            if x == reels[o] {
            } else {
                let i = choose|i: int| 0 <= i < reels.len() && reels[i] == x;
                assert(i != o);
                let ri = if i < o { i } else { i - 1 };
                assert(rest[ri] == x);
                assert(rest.contains(x));
            }
        }
    }
}


/// Whether `drawn`, asked about a key reading `key`, answered `answer`.
pub open spec fn asked<F: Fn(&str) -> bool>(drawn: F, key: Seq<char>, answer: bool) -> bool {
    exists|q: &str| q@ == key && call_ensures(drawn, (q,), answer)
}

/// Whether `answers` are what `drawn` said of each reel's key, in order.
pub open spec fn answered<F: Fn(&str) -> bool>(
    drawn: F,
    reels: Seq<(Seq<char>, ReelView)>,
    answers: Seq<bool>,
) -> bool {
    &&& answers.len() == reels.len()
    &&& forall|i: int| 0 <= i < reels.len() ==> #[trigger] asked(drawn, reels[i].0, answers[i])
}

/// Whether a reel is showing a frame other than the one `now` asks for.
pub open spec fn behind(reel: ReelView, now: u64) -> bool {
    reel.frame_at(now) != reel.shown
}

/// Whether a reel is being drawn and `now` has a frame for it that is not
/// the one in the atlas.
pub open spec fn comes_due(reel: ReelView, now: u64, drawn: bool) -> bool {
    drawn && behind(reel, now) && reel.frame_at(now) < reel.frames.len()
}

/// A reel after a pass at `now`: one being drawn is marked as seen, and
/// takes the frame `now` asks for when there is one.
pub open spec fn refreshed(reel: ReelView, now: u64, drawn: bool) -> ReelView {
    if !drawn {
        reel
    } else if comes_due(reel, now, drawn) {
        ReelView { seen: now, shown: reel.frame_at(now) as usize, ..reel }
    } else {
        ReelView { seen: now, ..reel }
    }
}

/// Every reel after a pass at `now`.
pub open spec fn refreshed_all(
    reels: Seq<(Seq<char>, ReelView)>,
    answers: Seq<bool>,
    now: u64,
) -> Seq<(Seq<char>, ReelView)> {
    Seq::new(reels.len(), |i: int| (reels[i].0, refreshed(reels[i].1, now, answers[i])))
}

/// The frames a pass at `now` hands over, in the reels' order: for each
/// reel that comes due, its key, its size and the frame.
pub open spec fn due_list(reels: Seq<(Seq<char>, ReelView)>, answers: Seq<bool>, now: u64) -> Seq<
    (Seq<char>, u32, u32, Seq<u8>),
>
    decreases reels.len(),
{
    if reels.len() == 0 {
        seq![]
    } else {
        let last = reels.last();
        let before = due_list(reels.drop_last(), answers.drop_last(), now);
        if comes_due(last.1, now, answers[reels.len() - 1]) {
            before.push(
                (last.0, last.1.width, last.1.height, last.1.frames[last.1.frame_at(now) as int]),
            )
        } else {
            before
        }
    }
}

/// The earliest moment a drawn reel's next frame is due.
pub open spec fn earliest(reels: Seq<(Seq<char>, ReelView)>, answers: Seq<bool>, now: u64) -> Option<
    int,
>
    decreases reels.len(),
{
    if reels.len() == 0 {
        None
    } else {
        let before = earliest(reels.drop_last(), answers.drop_last(), now);
        let here = if answers[reels.len() - 1] {
            reels.last().1.next_due(now)
        } else {
            None
        };
        match (before, here) {
            (None, _) => here,
            (_, None) => before,
            (Some(a), Some(b)) => Some(if b < a { b } else { a }),
        }
    }
}

/// Whether reel `i` is drawn and has a next frame due at `t`.
pub open spec fn due_at(reels: Seq<(Seq<char>, ReelView)>, answers: Seq<bool>, now: u64, i: int, t: int) -> bool {
    answers[i] && reels[i].1.next_due(now) == Some(t)
}

/// The window wakes for the soonest next frame of any picture being drawn:
/// the moment is one a drawn picture asks for, and no drawn picture asks for
/// an earlier one; where no drawn picture asks for any, there is none.
pub proof fn lemma_the_wake_is_the_soonest(
    reels: Seq<(Seq<char>, ReelView)>,
    answers: Seq<bool>,
    now: u64,
)
    requires
        answers.len() == reels.len(),
    ensures
        match earliest(reels, answers, now) {
            Some(t) => (exists|i: int| 0 <= i < reels.len() && #[trigger] due_at(reels, answers, now, i, t))
                && forall|i: int, u: int|
                0 <= i < reels.len() && #[trigger] due_at(reels, answers, now, i, u) ==> t <= u,
            None => forall|i: int|
                0 <= i < reels.len() && answers[i] ==> (#[trigger] reels[i]).1.next_due(now) is None,
        },
    decreases reels.len(),
{
    if reels.len() > 0 {
        let n = reels.len() - 1;
        let init = reels.drop_last();
        let said = answers.drop_last();
        lemma_the_wake_is_the_soonest(init, said, now);
        assert forall|i: int, u: int| 0 <= i < n implies #[trigger] due_at(reels, answers, now, i, u)
            == due_at(init, said, now, i, u) by {
            assert(init[i] == reels[i] && said[i] == answers[i]);
        }
        assert forall|i: int| 0 <= i < n implies (#[trigger] reels[i]) == init[i] && answers[i]
            == said[i] by {}
        assert(reels.last() == reels[n]);
        let here = if answers[n] {
            reels[n].1.next_due(now)
        } else {
            None
        };
        assert(forall|u: int| due_at(reels, answers, now, n, u) <==> here == Some(u));
        match earliest(init, said, now) {
            Some(a) => {
                let w = choose|i: int| 0 <= i < init.len() && #[trigger] due_at(init, said, now, i, a);
                assert(due_at(reels, answers, now, w, a));
                match here {
                    Some(b) => {
                        assert(due_at(reels, answers, now, n, b));
                    },
                    None => {},
                }
            },
            None => {
                assert forall|i: int, u: int|
                    0 <= i < n implies !#[trigger] due_at(reels, answers, now, i, u) by {
                    assert(init[i] == reels[i] && said[i] == answers[i]);
                }
                match here {
                    Some(b) => {
                        assert(due_at(reels, answers, now, n, b));
                    },
                    None => {
                        assert forall|i: int|
                            0 <= i < reels.len() && answers[i] implies (#[trigger] reels[i]).1.next_due(
                            now,
                        ) is None by {
                            if i < n {
                                assert(init[i] == reels[i] && said[i] == answers[i]);
                            }
                        }
                    },
                }
            },
        }
    }
}

/// The frames handed over, as the contracts speak of them.
pub open spec fn handed(frames: Seq<(String, u32, u32, Vec<u8>)>) -> Seq<(Seq<char>, u32, u32, Seq<u8>)> {
    frames.map_values(|f: (String, u32, u32, Vec<u8>)| (f.0@, f.1, f.2, f.3@))
}

impl Moving {
    /// Whether anything on screen is showing a frame that is no longer the
    /// right one.
    pub fn overdue(&self, now: u64, drawn: impl Fn(&str) -> bool) -> (late: bool)
        requires
            self.valid(),
            forall|q: &str| call_requires(drawn, (q,)),
        ensures
            exists|answers: Seq<bool>|
                answered(drawn, self@, answers) && late == exists|i: int|
                    0 <= i < self@.len() && answers[i] && #[trigger] behind(self@[i].1, now),
    {
        let ghost all = self@;
        let ghost mut answers: Seq<bool> = seq![];
        let mut late = false;
        let mut i: usize = 0;
        while i < self.reels.len()
            invariant
                all == self@,
                self.valid(),
                all.len() == self.reels@.len(),
                forall|q: &str| call_requires(drawn, (q,)),
                i <= all.len(),
                answers.len() == i,
                forall|j: int| 0 <= j < i ==> #[trigger] asked(drawn, all[j].0, answers[j]),
                late == exists|j: int| 0 <= j < i && answers[j] && #[trigger] behind(all[j].1, now),
            decreases all.len() - i,
        {
            let key = self.reels[i].0.as_str();
            let shown = drawn(key);
            proof {
                assert(asked(drawn, all[i as int].0, shown));
                assert(all[i as int].1.valid());
            }
            let reel = &self.reels[i].1;
            let behind_now = shown && reel.at(now) != reel.shown;
            proof {
                let grown = answers.push(shown);
                assert forall|j: int| 0 <= j < i + 1 implies #[trigger] asked(drawn, all[j].0, grown[j]) by {
                    if j < i {
                        assert(grown[j] == answers[j]);
                    }
                }
                if behind_now {
                    assert(grown[i as int] && behind(all[i as int].1, now));
                }
                if late {
                    let j = choose|j: int| 0 <= j < i && answers[j] && #[trigger] behind(all[j].1, now);
                    assert(grown[j]);
                }
                answers = grown;
            }
            late = late || behind_now;
            i = i + 1;
        }
        proof {
            assert(answered(drawn, self@, answers));
            assert(answered(drawn, self@, answers) && late == exists|j: int|
                0 <= j < self@.len() && answers[j] && #[trigger] behind(self@[j].1, now));
        }
        late
    }
}


impl Reel {
    /// The reel marked as drawn at `now`, with `frame` in the atlas.
    fn shown_at(&mut self, now: u64, frame: usize)
        ensures
            final(self)@ == (ReelView { seen: now, shown: frame, ..old(self)@ }),
    {
        self.seen = now;
        self.shown = frame;
    }

    /// A copy of one of its frames.
    fn frame(&self, at: usize) -> (frame: Vec<u8>)
        requires
            at < self@.frames.len(),
        ensures
            frame@ == self@.frames[at as int],
    {
        let pixels = &self.frames[at];
        slice_to_vec(pixels.as_slice())
    }
}

impl Moving {
    /// The frames that have come due, for whichever keys are still being
    /// drawn. Marks every reel being drawn as seen at `now`, and what it hands
    /// over as the frame now in the atlas.
    pub fn due(&mut self, now: u64, drawn: impl Fn(&str) -> bool) -> (ready: Vec<
        (String, u32, u32, Vec<u8>),
    >)
        requires
            old(self).valid(),
            forall|q: &str| call_requires(drawn, (q,)),
        ensures
            final(self).valid(),
            exists|answers: Seq<bool>|
                answered(drawn, old(self)@, answers) && final(self)@ == refreshed_all(
                    old(self)@,
                    answers,
                    now,
                ) && handed(ready@) == due_list(old(self)@, answers, now),
    {
        let ghost all = self@;
        let ghost mut answers: Seq<bool> = seq![];
        let mut ready: Vec<(String, u32, u32, Vec<u8>)> = Vec::new();
        let mut i: usize = 0;
        while i < self.reels.len()
            invariant
                all.len() == self.reels@.len(),
                self@.len() == all.len(),
                unique_reels(all),
                forall|j: int| 0 <= j < all.len() ==> (#[trigger] all[j]).1.valid(),
                forall|q: &str| call_requires(drawn, (q,)),
                i <= all.len(),
                answers.len() == i,
                forall|j: int| 0 <= j < i ==> #[trigger] asked(drawn, all[j].0, answers[j]),
                forall|j: int| 0 <= j < i ==> #[trigger] self@[j] == (all[j].0, refreshed(all[j].1, now, answers[j])),
                forall|j: int| i <= j < all.len() ==> #[trigger] self@[j] == all[j],
                handed(ready@) == due_list(all.take(i as int), answers, now),
            decreases all.len() - i,
        {
            let shown = drawn(self.reels[i].0.as_str());
            let ghost before = self@;
            proof {
                assert(self@[i as int] == all[i as int]);
                assert(asked(drawn, all[i as int].0, shown));
            }
            if shown {
                let want = self.reels[i].1.at(now);
                let current = self.reels[i].1.shown;
                let frames = self.reels[i].1.frames.len();
                let ghost view_frames = self@[i as int].1.frames.len();
                assert(view_frames == frames);
                if want != current && want < frames {
                    let frame = self.reels[i].1.frame(want);
                    let key = self.reels[i].0.clone();
                    let width = self.reels[i].1.width;
                    let height = self.reels[i].1.height;
                    self.reels[i].1.shown_at(now, want);
                    ready.push((key, width, height, frame));
                } else {
                    self.reels[i].1.shown_at(now, current);
                }
            }
            proof {
                let grown = answers.push(shown);
                assert forall|j: int| 0 <= j < i + 1 implies #[trigger] asked(drawn, all[j].0, grown[j]) by {
                    if j < i {
                        assert(grown[j] == answers[j]);
                    }
                }
                assert forall|j: int| 0 <= j < i + 1 implies #[trigger] self@[j] == (all[j].0, refreshed(all[j].1, now, grown[j])) by {
                    if j < i {
                        assert(grown[j] == answers[j]);
                        assert(self@[j] == before[j]);
                    }
                }
                assert forall|j: int| i + 1 <= j < all.len() implies #[trigger] self@[j] == all[j] by {
                    assert(self@[j] == before[j]);
                }
                let taken = all.take(i + 1);
                assert(taken.drop_last() =~= all.take(i as int));
                assert(grown.drop_last() =~= answers);
                lemma_due_list_answers(all.take(i as int), answers, grown.drop_last(), now);
                answers = grown;
            }
            i = i + 1;
        }
        proof {
            assert(self@ =~= refreshed_all(all, answers, now));
            assert(all.take(i as int) =~= all);
            lemma_refreshed_valid(all, answers, now);
            assert(answered(drawn, all, answers));
        }
        ready
    }
}

/// The frames a pass hands over depend only on the answers for the reels
/// it passes.
proof fn lemma_due_list_answers(
    reels: Seq<(Seq<char>, ReelView)>,
    a: Seq<bool>,
    b: Seq<bool>,
    now: u64,
)
    requires
        a.len() >= reels.len(),
        b.len() >= reels.len(),
        forall|i: int| 0 <= i < reels.len() ==> a[i] == b[i],
    ensures
        due_list(reels, a, now) == due_list(reels, b, now),
    decreases reels.len(),
{
    if reels.len() > 0 {
        lemma_due_list_answers(reels.drop_last(), a.drop_last(), b.drop_last(), now);
    }
}

/// A pass keeps every reel valid and every key once.
proof fn lemma_refreshed_valid(reels: Seq<(Seq<char>, ReelView)>, answers: Seq<bool>, now: u64)
    requires
        unique_reels(reels),
        forall|i: int| 0 <= i < reels.len() ==> (#[trigger] reels[i]).1.valid(),
        answers.len() == reels.len(),
    ensures
        unique_reels(refreshed_all(reels, answers, now)),
        forall|i: int|
            0 <= i < reels.len() ==> (#[trigger] refreshed_all(reels, answers, now)[i]).1.valid(),
{
    let after = refreshed_all(reels, answers, now);
    assert forall|a: int, b: int|
        0 <= a < after.len() && 0 <= b < after.len() && a != b implies #[trigger] after[a].0
        != #[trigger] after[b].0 by {
        assert(after[a].0 == reels[a].0);
        assert(after[b].0 == reels[b].0);
    }
}


impl Moving {
    /// Whether every reel's next frame falls due on the clock.
    pub open spec fn due_on_the_clock(self, now: u64) -> bool {
        forall|i: int|
            0 <= i < self@.len() ==> match (#[trigger] self@[i]).1.next_due(now) {
                Some(t) => t <= u64::MAX,
                None => true,
            }
    }

    /// When the window next has to wake to keep something that is being drawn
    /// moving; `None` when nothing is.
    pub fn wakes(&self, now: u64, drawn: impl Fn(&str) -> bool) -> (wake: Option<u64>)
        requires
            self.valid(),
            self.due_on_the_clock(now),
            forall|q: &str| call_requires(drawn, (q,)),
        ensures
            exists|answers: Seq<bool>|
                answered(drawn, self@, answers) && match wake {
                    Some(t) => earliest(self@, answers, now) == Some(t as int),
                    None => earliest(self@, answers, now) is None,
                },
    {
        let ghost all = self@;
        let ghost mut answers: Seq<bool> = seq![];
        let mut wake: Option<u64> = None;
        let mut i: usize = 0;
        while i < self.reels.len()
            invariant
                all == self@,
                self.valid(),
                self.due_on_the_clock(now),
                all.len() == self.reels@.len(),
                forall|q: &str| call_requires(drawn, (q,)),
                i <= all.len(),
                answers.len() == i,
                forall|j: int| 0 <= j < i ==> #[trigger] asked(drawn, all[j].0, answers[j]),
                match wake {
                    Some(t) => earliest(all.take(i as int), answers, now) == Some(t as int),
                    None => earliest(all.take(i as int), answers, now) is None,
                },
            decreases all.len() - i,
        {
            let shown = drawn(self.reels[i].0.as_str());
            proof {
                assert(asked(drawn, all[i as int].0, shown));
                assert(all[i as int].1.valid());
                assert(match all[i as int].1.next_due(now) {
                    Some(t) => t <= u64::MAX,
                    None => true,
                });
            }
            let here = if shown {
                self.reels[i].1.next(now)
            } else {
                None
            };
            let ghost was = wake;
            wake = match (wake, here) {
                (None, _) => here,
                (_, None) => wake,
                (Some(a), Some(b)) => Some(if b < a { b } else { a }),
            };
            proof {
                let grown = answers.push(shown);
                assert forall|j: int| 0 <= j < i + 1 implies #[trigger] asked(drawn, all[j].0, grown[j]) by {
                    if j < i {
                        assert(grown[j] == answers[j]);
                    }
                }
                let taken = all.take(i + 1);
                assert(taken.drop_last() =~= all.take(i as int));
                assert(grown.drop_last() =~= answers);
                assert(taken.last() == all[i as int]);
                lemma_earliest_answers(all.take(i as int), answers, grown.drop_last(), now);
                answers = grown;
            }
            i = i + 1;
        }
        proof {
            assert(all.take(i as int) =~= all);
            assert(answered(drawn, all, answers));
        }
        wake
    }
}

/// The earliest wake depends only on the answers for the reels it looks at.
proof fn lemma_earliest_answers(
    reels: Seq<(Seq<char>, ReelView)>,
    a: Seq<bool>,
    b: Seq<bool>,
    now: u64,
)
    requires
        a.len() >= reels.len(),
        b.len() >= reels.len(),
        forall|i: int| 0 <= i < reels.len() ==> a[i] == b[i],
    ensures
        earliest(reels, a, now) == earliest(reels, b, now),
    decreases reels.len(),
{
    if reels.len() > 0 {
        lemma_earliest_answers(reels.drop_last(), a.drop_last(), b.drop_last(), now);
    }
}


/// The frame a moment falls in is one of the frames.
pub proof fn lemma_slot_bound(delays: Seq<u64>, into: int)
    requires
        delays.len() > 0,
    ensures
        slot(delays, into) < delays.len(),
    decreases delays.len(),
{
    if delays.len() > 1 && into >= delays[0] {
        lemma_slot_bound(delays.drop_first(), into - delays[0]);
    }
}

/// The delays added up from the front: the first, then the rest.
pub proof fn lemma_total_from_the_front(delays: Seq<u64>)
    requires
        delays.len() > 0,
    ensures
        total(delays) == delays[0] + total(delays.drop_first()),
    decreases delays.len(),
{
    if delays.len() > 1 {
        let most = delays.drop_last();
        lemma_total_from_the_front(most);
        assert(delays.drop_first().drop_last() =~= most.drop_first());
        assert(delays.drop_first().last() == delays.last());
    } else {
        assert(delays.drop_last() =~= Seq::<u64>::empty());
        assert(delays.drop_first() =~= Seq::<u64>::empty());
    }
}

/// How long the frames before frame `i` are played, from the front.
proof fn lemma_running_from_the_front(delays: Seq<u64>, i: int)
    requires
        0 <= i < delays.len(),
    ensures
        total(delays.take(i + 1)) == delays[0] + total(delays.drop_first().take(i)),
{
    let upto = delays.take(i + 1);
    lemma_total_from_the_front(upto);
    assert(upto.drop_first() =~= delays.drop_first().take(i));
}

/// The running sums of the delays never go down.
pub proof fn lemma_running_sums_grow(delays: Seq<u64>, i: int, j: int)
    requires
        0 <= i <= j <= delays.len(),
    ensures
        total(delays.take(i)) <= total(delays.take(j)),
    decreases j - i,
{
    if i < j {
        lemma_running_sums_grow(delays, i, j - 1);
        assert(delays.take(j).drop_last() =~= delays.take(j - 1));
    }
}

/// A moment within the loop falls in the frame whose running sum of delays
/// brackets it.
pub proof fn lemma_slot_brackets(delays: Seq<u64>, into: int)
    requires
        0 <= into < total(delays),
    ensures
        slot(delays, into) < delays.len(),
        total(delays.take(slot(delays, into) as int)) <= into < total(
            delays.take(slot(delays, into) as int + 1),
        ),
        left_in_slot(delays, into) == Some(
            (total(delays.take(slot(delays, into) as int + 1)) - into) as nat,
        ),
    decreases delays.len(),
{
    if delays.len() == 0 {
        assert(total(delays) == 0);
    } else {
        lemma_total_from_the_front(delays);
        lemma_running_from_the_front(delays, 0);
        assert(delays.take(0) =~= Seq::<u64>::empty());
        assert(delays.drop_first().take(0) =~= Seq::<u64>::empty());
        if into >= delays[0] {
            let rest = delays.drop_first();
            if delays.len() == 1 {
                assert(rest =~= Seq::<u64>::empty());
            }
            lemma_slot_brackets(rest, into - delays[0]);
            let s = slot(rest, into - delays[0]) as int;
            lemma_running_from_the_front(delays, s);
            lemma_running_from_the_front(delays, s + 1);
            assert(slot(delays, into) == 1 + s);
        }
    }
}

/// Which frame belongs to a moment, said by running sums: with `e` how far
/// into the loop the moment is, the frame is the one index whose delays up to
/// it add to at most `e` and, with its own added, to more than `e`. Where the
/// first frame is played for some time, as every frame of a picture that
/// arrived is, any moment at or before the picture arrived is frame 0.
pub proof fn lemma_frame_is_where_the_running_sums_bracket(reel: ReelView, now: u64)
    requires
        reel.valid(),
        reel.frames.len() > 0,
        reel.round() > 0,
    ensures
        reel.frame_at(now) < reel.frames.len(),
        total(reel.delays.take(reel.frame_at(now) as int)) <= reel.into(now) < total(
            reel.delays.take(reel.frame_at(now) as int + 1),
        ),
        forall|i: int|
            0 <= i < reel.frames.len() && total(#[trigger] reel.delays.take(i)) <= reel.into(now)
                < total(reel.delays.take(i + 1)) ==> i == reel.frame_at(now),
        now <= reel.began && reel.delays[0] > 0 ==> reel.frame_at(now) == 0,
{
    let d = reel.delays;
    let e = reel.into(now);
    lemma_slot_brackets(d, e);
    let f = reel.frame_at(now) as int;
    assert forall|i: int|
        0 <= i < reel.frames.len() && total(#[trigger] d.take(i)) <= e < total(d.take(i + 1))
        implies i == f by {
        if i < f {
            lemma_running_sums_grow(d, i + 1, f);
        } else if i > f {
            lemma_running_sums_grow(d, f + 1, i);
        }
    }
    if now <= reel.began && d[0] > 0 {
        let round = reel.round() as int;
        assert(0int % round == 0) by (nonlinear_arith)
            requires
                round > 0,
        ;
        assert(e == 0);
        assert(d.take(0) =~= Seq::<u64>::empty());
        assert(d.take(1).drop_last() =~= Seq::<u64>::empty());
        assert(total(d.take(0)) <= e < total(d.take(0int + 1)));
    }
}

/// The next frame is due when the running sum of delays up to and including
/// the frame on show runs out: for a picture of more than one frame, the wait
/// is that sum less how far into the loop `now` is, held at what a `u64` can
/// say.
pub proof fn lemma_the_wait_is_where_the_frame_runs_out(reel: ReelView, now: u64)
    requires
        reel.valid(),
        reel.frames.len() >= 2,
        reel.round() > 0,
    ensures
        ({
            let left = total(reel.delays.take(reel.frame_at(now) as int + 1)) - reel.into(now);
            &&& left > 0
            &&& reel.wait(now) == Some(
                if left > u64::MAX {
                    u64::MAX as nat
                } else {
                    left as nat
                },
            )
        }),
{
    lemma_slot_brackets(reel.delays, reel.into(now));
}


/// A picture that was given frames goes round: every delay it plays for is
/// at least the floor, so its loop takes some time.
pub proof fn lemma_played_delays_go_round(delays: Seq<u64>)
    requires
        delays.len() > 0,
        forall|i: int| 0 <= i < delays.len() ==> #[trigger] delays[i] >= FLOOR,
    ensures
        total(delays) > 0,
{
    assert(delays.last() == delays[delays.len() - 1]);
}

/// The loop comes round: a whole loop later, a picture is on the same frame.
pub proof fn lemma_loop_comes_round(reel: ReelView, now: u64)
    requires
        now >= reel.began,
        now + reel.round() <= u64::MAX,
    ensures
        reel.frame_at((now + reel.round()) as u64) == reel.frame_at(now),
{
    let round = reel.round() as int;
    if round > 0 {
        let e = now - reel.began;
        assert((e + round) % round == e % round) by (nonlinear_arith)
            requires
                round > 0,
                e >= 0,
        {
            vstd::arithmetic::div_mod::lemma_mod_add_multiples_vanish(e, round);
        }
    }
}

/// A reel being drawn is, after a pass, showing the frame that moment asks
/// for: nothing more comes due until the clock moves.
pub proof fn lemma_pass_catches_up(reel: ReelView, now: u64)
    requires
        reel.valid(),
        0 < reel.frames.len() <= usize::MAX,
    ensures
        !behind(refreshed(reel, now, true), now),
{
    if reel.round() > 0 {
        lemma_slot_bound(reel.delays, reel.into(now));
    }
    assert(reel.frame_at(now) < reel.frames.len());
    let after = refreshed(reel, now, true);
    assert(after.frame_at(now) == reel.frame_at(now));
}

/// A picture of one frame never asks for a wake.
pub proof fn lemma_a_still_never_wakes(reel: ReelView, now: u64)
    requires
        reel.frames.len() < 2,
    ensures
        reel.next_due(now) is None,
{
}

/// A reel nobody is drawing is left exactly as it was, and hands nothing over.
pub proof fn lemma_unseen_costs_nothing(reel: ReelView, now: u64)
    ensures
        refreshed(reel, now, false) == reel,
        !comes_due(reel, now, false),
{
}


/// Whether anything drawn, by `answers`, is showing a frame that is no
/// longer the right one at `now` -- what `Moving::overdue` answers.
pub open spec fn late(reels: Seq<(Seq<char>, ReelView)>, answers: Seq<bool>, now: u64) -> bool {
    exists|i: int| 0 <= i < reels.len() && answers[i] && #[trigger] behind(reels[i].1, now)
}

/// A drawn reel with a frame in it is behind exactly when it comes due.
proof fn lemma_behind_is_due(reel: ReelView, now: u64)
    requires
        reel.valid(),
        reel.frames.len() > 0,
    ensures
        behind(reel, now) == comes_due(reel, now, true),
{
    if reel.round() > 0 {
        lemma_slot_bound(reel.delays, reel.into(now));
    }
}

/// Something is overdue exactly when a pass at the same moment, with the
/// same answers about what is drawn, would hand a frame over: a frame on
/// screen is no longer the right one if and only if `due` has one to give.
/// And once that pass has been made, nothing drawn is overdue any more.
pub proof fn lemma_overdue_is_what_due_hands_over(
    reels: Seq<(Seq<char>, ReelView)>,
    answers: Seq<bool>,
    now: u64,
)
    requires
        answers.len() == reels.len(),
        forall|i: int| 0 <= i < reels.len() ==> (#[trigger] reels[i]).1.valid() && reels[i].1.frames.len()
            > 0 && reels[i].1.frames.len() <= usize::MAX,
    ensures
        late(reels, answers, now) == (due_list(reels, answers, now).len() > 0),
        !late(refreshed_all(reels, answers, now), answers, now),
    decreases reels.len(),
{
    if reels.len() > 0 {
        let n = reels.len() - 1;
        let (init, said) = (reels.drop_last(), answers.drop_last());
        assert forall|i: int| 0 <= i < init.len() implies (#[trigger] init[i]).1.valid() && init[i].1.frames.len()
            > 0 && init[i].1.frames.len() <= usize::MAX by {
            assert(init[i] == reels[i]);
        }
        lemma_overdue_is_what_due_hands_over(init, said, now);
        assert(reels[n] == reels.last());
        lemma_behind_is_due(reels[n].1, now);
        if late(reels, answers, now) {
            let i = choose|i: int| 0 <= i < reels.len() && answers[i] && #[trigger] behind(reels[i].1, now);
            if i < n {
                assert(init[i] == reels[i] && said[i] == answers[i]);
                assert(late(init, said, now));
            }
        }
        if late(init, said, now) {
            let i = choose|i: int| 0 <= i < init.len() && said[i] && #[trigger] behind(init[i].1, now);
            assert(init[i] == reels[i] && said[i] == answers[i]);
            assert(late(reels, answers, now));
        }
        let after = refreshed_all(reels, answers, now);
        assert forall|i: int| 0 <= i < reels.len() && answers[i] implies !behind(after[i].1, now) by {
            lemma_pass_catches_up(reels[i].1, now);
        }
    }
}

/// Whether a test of what is drawn answers each key one way, however often it
/// is asked and through whichever piece of text.
pub open spec fn decided<F: Fn(&str) -> bool>(drawn: F) -> bool {
    forall|q: &str, r: &str, x: bool, y: bool|
        q@ == r@ && #[trigger] call_ensures(drawn, (q,), x) && #[trigger] call_ensures(
            drawn,
            (r,),
            y,
        ) ==> x == y
}

/// Asked about the same pictures at the same moment, by a test that answers
/// each key one way, `overdue` and then `due` hear the same answers; so
/// `overdue` says yes exactly when `due` hands a frame over. (`overdue` takes
/// the pictures by shared reference and leaves them as they were.)
pub proof fn lemma_overdue_then_due<F: Fn(&str) -> bool>(
    drawn: F,
    reels: Seq<(Seq<char>, ReelView)>,
    first: Seq<bool>,
    second: Seq<bool>,
    now: u64,
)
    requires
        decided(drawn),
        answered(drawn, reels, first),
        answered(drawn, reels, second),
        forall|i: int|
            0 <= i < reels.len() ==> (#[trigger] reels[i]).1.valid() && reels[i].1.frames.len() > 0
                && reels[i].1.frames.len() <= usize::MAX,
    ensures
        first == second,
        late(reels, first, now) == (due_list(reels, second, now).len() > 0),
{
    assert forall|i: int| 0 <= i < reels.len() implies first[i] == second[i] by {
        assert(asked(drawn, reels[i].0, first[i]));
        assert(asked(drawn, reels[i].0, second[i]));
        let q = choose|q: &str| q@ == reels[i].0 && call_ensures(drawn, (q,), first[i]);
        let r = choose|r: &str| r@ == reels[i].0 && call_ensures(drawn, (r,), second[i]);
        assert(q@ == r@);
    }
    assert(first =~= second);
    lemma_overdue_is_what_due_hands_over(reels, first, now);
}

} // verus!
