//! Where the reader has been, for the back and on buttons.
//!
//! A history of places walked rather than popped, as a browser walks it: going
//! back and then on again returns where you were, and only a new place opened
//! from part-way along drops what was ahead.

use vstd::prelude::*;

verus! {

/// The places visited, as the history's contracts speak of them.
pub struct Walk {
    pub seen: Seq<Seq<char>>,
    pub at: nat,
}

impl Walk {
    /// A walk that a history can be in: standing on a place it holds, or at
    /// the start of an empty one.
    pub open spec fn valid(self) -> bool {
        if self.seen.len() == 0 {
            self.at == 0
        } else {
            self.at < self.seen.len()
        }
    }

    /// Where the reader is standing, if anywhere.
    pub open spec fn here(self) -> Option<Seq<char>> {
        if self.at < self.seen.len() {
            Some(self.seen[self.at as int])
        } else {
            None
        }
    }

    /// An arrival: nothing changes when it is where the reader already is;
    /// otherwise what lay ahead is dropped and the new place is stood on.
    pub open spec fn arrive(self, place: Seq<char>) -> Walk {
        if self.here() == Some(place) {
            self
        } else {
            let kept = if self.at + 1 <= self.seen.len() {
                self.seen.take((self.at + 1) as int)
            } else {
                self.seen
            };
            Walk { seen: kept.push(place), at: kept.len() }
        }
    }

    /// One step back, when there is somewhere behind.
    pub open spec fn back(self) -> Walk {
        if self.at > 0 {
            Walk { seen: self.seen, at: (self.at - 1) as nat }
        } else {
            self
        }
    }

    /// One step on, when there is somewhere ahead.
    pub open spec fn on(self) -> Walk {
        if self.at + 1 < self.seen.len() {
            Walk { seen: self.seen, at: self.at + 1 }
        } else {
            self
        }
    }
}

/// The places visited, and where along them the reader is standing.
pub struct Places {
    seen: Vec<String>,
    at: usize,
}

impl View for Places {
    type V = Walk;

    closed spec fn view(&self) -> Walk {
        Walk { seen: self.seen@.map_values(|s: String| s@), at: self.at as nat }
    }
}

impl Default for Places {
    fn default() -> (places: Self)
        ensures
            places@.seen.len() == 0,
            places@.at == 0,
    {
        Places::new()
    }
}

impl Places {
    /// A history with nowhere in it.
    pub fn new() -> (places: Self)
        ensures
            places@.seen.len() == 0,
            places@.at == 0,
            places@.valid(),
    {
        let places = Places { seen: Vec::new(), at: 0 };
        assert(places@.seen =~= Seq::<Seq<char>>::empty());
        places
    }

    /// Where the reader is standing, if anywhere.
    pub fn here(&self) -> (here: Option<&str>)
        ensures
            here matches Some(place) ==> self@.here() == Some(place@),
            here is None ==> self@.here() is None,
    {
        if self.at < self.seen.len() {
            Some(self.seen[self.at].as_str())
        } else {
            None
        }
    }

    /// Notes an arrival somewhere.
    ///
    /// Arriving where you already are is not a new place.
    pub fn arrived(&mut self, place: &str)
        requires
            old(self)@.valid(),
        ensures
            final(self)@ == old(self)@.arrive(place@),
            final(self)@.valid(),
    {
        let already = match self.here() {
            Some(here) => crate::session::same_text(here, place),
            None => false,
        };
        if already {
            return;
        }
        let ghost before = self@;
        let count = self.seen.len();
        assert(self@.seen.len() == count);
        let keep = self.at + 1;
        self.seen.truncate(keep);
        self.seen.push(String::from_str(place));
        self.at = self.seen.len() - 1;
        proof {
            let kept = if before.at + 1 <= before.seen.len() {
                before.seen.take((before.at + 1) as int)
            } else {
                before.seen
            };
            assert(self@.seen =~= kept.push(place@));
        }
    }

    /// Steps back one place and says where that is, or `None` at the oldest.
    pub fn back(&mut self) -> (there: Option<&str>)
        requires
            old(self)@.valid(),
        ensures
            final(self)@ == old(self)@.back(),
            final(self)@.valid(),
            there is Some <==> old(self)@.at > 0,
            there matches Some(place) ==> final(self)@.here() == Some(place@),
    {
        if self.at == 0 {
            return None;
        }
        self.at = self.at - 1;
        self.here()
    }

    /// Steps on to a place already visited, or `None` at the newest.
    pub fn on(&mut self) -> (there: Option<&str>)
        requires
            old(self)@.valid(),
        ensures
            final(self)@ == old(self)@.on(),
            final(self)@.valid(),
            there is Some <==> old(self)@.at + 1 < old(self)@.seen.len(),
            there matches Some(place) ==> final(self)@.here() == Some(place@),
    {
        let count = self.seen.len();
        assert(self@.seen.len() == count);
        if count == 0 || self.at >= count - 1 {
            return None;
        }
        self.at = self.at + 1;
        self.here()
    }
}

/// Going back and then on again returns the reader to where they were.
pub proof fn lemma_back_then_on(walk: Walk)
    requires
        walk.valid(),
        walk.at > 0,
    ensures
        walk.back().on() == walk,
{
}

/// Going on and then back again returns the reader to where they were.
pub proof fn lemma_on_then_back(walk: Walk)
    requires
        walk.valid(),
        walk.at + 1 < walk.seen.len(),
    ensures
        walk.on().back() == walk,
{
}

/// Arriving where the reader already stands changes nothing.
pub proof fn lemma_arriving_here_is_nothing(walk: Walk)
    requires
        walk.valid(),
        walk.here() is Some,
    ensures
        walk.arrive(walk.here()->0) == walk,
{
}

/// After an arrival the reader stands on the place arrived at, there is
/// nothing ahead of it, and the place behind it is where they stood before.
pub proof fn lemma_arrival_is_the_newest(walk: Walk, place: Seq<char>)
    requires
        walk.valid(),
    ensures
        walk.arrive(place).valid(),
        walk.arrive(place).here() == Some(place),
        walk.here() != Some(place) ==> walk.arrive(place).on() == walk.arrive(place),
        walk.here() != Some(place) && walk.here() is Some ==> walk.arrive(place).back().here()
            == walk.here(),
{
}

/// Every step keeps a history one a reader can be in.
pub proof fn lemma_steps_stay_valid(walk: Walk, place: Seq<char>)
    requires
        walk.valid(),
    ensures
        walk.back().valid(),
        walk.on().valid(),
        walk.arrive(place).valid(),
{
}

} // verus!
