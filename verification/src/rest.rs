//! How long the "New messages" divider stays once the reader can see it.
//!
//! A moment rather than a state: the clock runs only while the window has
//! focus, and what is still owed is kept when the reader looks away.
//!
//! Times are nanoseconds on the window's monotonic clock, and spans are
//! nanoseconds too.

use vstd::prelude::*;

verus! {

/// How long the reader has to be looking before the divider goes: four
/// seconds.
pub const REST: u64 = 4_000_000_000;

/// The clock on the divider in the open channel.
#[derive(Debug, Clone, Copy, PartialEq, Eq, Structural)]
pub enum Rest {
    /// No divider, or one the reader asked for, which is not ours to take
    /// away.
    Idle,
    /// Counting down. The window is focused and this is when it runs out.
    Running(u64),
    /// Waiting for the window to come back, with this much still owed.
    Paused(u64),
}

impl Default for Rest {
    fn default() -> (rest: Self)
        ensures
            rest == Rest::Idle,
    {
        Rest::Idle
    }
}

impl Rest {
    /// The clock as a divider just put on screen starts it.
    pub open spec fn begun(now: u64, focused: bool) -> Rest {
        if focused {
            Rest::Running((now + REST) as u64)
        } else {
            Rest::Paused(REST)
        }
    }

    /// The clock after the window goes in or out of focus: what is owed is
    /// kept rather than restarted.
    pub open spec fn refocused(self, now: u64, focused: bool) -> Rest {
        match self {
            Rest::Running(until) => if focused {
                self
            } else {
                Rest::Paused(if until >= now { (until - now) as u64 } else { 0 })
            },
            Rest::Paused(left) => if focused {
                Rest::Running((now + left) as u64)
            } else {
                self
            },
            Rest::Idle => self,
        }
    }

    /// Whether the wait is over at `now`.
    pub open spec fn ripe(self, now: u64) -> bool {
        self matches Rest::Running(until) && now >= until
    }

    /// Whether following the window in or out of focus at `now` stays on the
    /// clock.
    pub open spec fn can_refocus(self, now: u64, focused: bool) -> bool {
        match self {
            Rest::Paused(left) => focused ==> now + left <= u64::MAX,
            _ => true,
        }
    }

    /// Starts the clock for a divider just put on screen.
    pub fn begin(&mut self, now: u64, focused: bool)
        requires
            now + REST <= u64::MAX,
        ensures
            *final(self) == Rest::begun(now, focused),
    {
        *self = if focused {
            Rest::Running(now + REST)
        } else {
            Rest::Paused(REST)
        };
    }

    /// Stops it, for a divider that has gone or that must stay.
    pub fn stop(&mut self)
        ensures
            *final(self) == Rest::Idle,
    {
        *self = Rest::Idle;
    }

    /// Follows the window in and out of focus.
    pub fn focus(&mut self, now: u64, focused: bool)
        requires
            old(self).can_refocus(now, focused),
        ensures
            *final(self) == old(self).refocused(now, focused),
    {
        let was = *self;
        *self = match was {
            Rest::Running(until) => if focused {
                was
            } else {
                Rest::Paused(until.saturating_sub(now))
            },
            Rest::Paused(left) => if focused {
                Rest::Running(now + left)
            } else {
                was
            },
            Rest::Idle => was,
        };
    }

    /// Whether the wait is over, told once.
    pub fn ripened(&mut self, now: u64) -> (ripe: bool)
        ensures
            ripe == old(self).ripe(now),
            ripe ==> *final(self) == Rest::Idle,
            !ripe ==> *final(self) == *old(self),
    {
        let ripe = match *self {
            Rest::Running(until) => now >= until,
            _ => false,
        };
        if ripe {
            *self = Rest::Idle;
        }
        ripe
    }

    /// When the window has to wake for it: only while the clock runs.
    pub fn wakes(&self) -> (wake: Option<u64>)
        ensures
            wake == (match *self {
                Rest::Running(until) => Some(until),
                _ => None::<u64>,
            }),
    {
        match *self {
            Rest::Running(until) => Some(until),
            _ => None,
        }
    }
}

/// A divider ripens once, and is then gone: asked again, at any later time,
/// it says no.
pub proof fn lemma_told_once(rest: Rest, now: u64, later: u64)
    requires
        rest.ripe(now),
    ensures
        !Rest::Idle.ripe(later),
{
}

/// Looking away keeps what is owed: a clock begun at `start`, paused at
/// `away` before it ran out and resumed at `back`, runs out exactly when
/// the time it had left has passed since `back`, however long the reader
/// was elsewhere.
pub proof fn lemma_owed_survives_looking_away(start: u64, away: u64, back: u64, now: u64)
    requires
        start + REST <= u64::MAX,
        start <= away <= start + REST,
        away <= back,
        back + (start + REST - away) <= u64::MAX,
    ensures
        Rest::begun(start, true).refocused(away, false) == Rest::Paused(
            (start + REST - away) as u64,
        ),
        Rest::begun(start, true).refocused(away, false).refocused(back, true).ripe(now) <==> now
            >= back + (start + REST - away),
        !Rest::begun(start, true).refocused(away, false).ripe(now),
{
}

/// A clock that never had the window's attention never runs out, and gets its
/// whole wait once the window comes back.
pub proof fn lemma_away_from_the_start(start: u64, back: u64, now: u64)
    requires
        back + REST <= u64::MAX,
    ensures
        !Rest::begun(start, false).ripe(now),
        Rest::begun(start, false).refocused(back, true) == Rest::Running((back + REST) as u64),
{
}

/// A stopped clock never ripens, and coming back to the window does not start
/// it again.
pub proof fn lemma_stopped_stays_stopped(now: u64, focused: bool, later: u64)
    ensures
        Rest::Idle.refocused(now, focused) == Rest::Idle,
        !Rest::Idle.ripe(later),
{
}

/// What is owed is kept rather than restarted, from any running clock: looking
/// away at `away` and back at `back` leaves it running for exactly what it had
/// left at `away` (nothing, if it had already run out), counted from `back`.
/// Focus that does not change the state changes nothing.
pub proof fn lemma_owed_is_kept(until: u64, away: u64, back: u64)
    requires
        back + (if until >= away { until - away } else { 0 }) <= u64::MAX,
    ensures
        Rest::Running(until).refocused(away, true) == Rest::Running(until),
        Rest::Running(until).refocused(away, false).refocused(back, false)
            == Rest::Running(until).refocused(away, false),
        until >= away ==> Rest::Running(until).refocused(away, false).refocused(back, true)
            == Rest::Running((back + (until - away)) as u64),
        until < away ==> Rest::Running(until).refocused(away, false).refocused(back, true)
            == Rest::Running(back),
        Rest::Running(until).refocused(away, false).can_refocus(back, true),
{
}

} // verus!
