//! Changes from one scene to the next that take their time.

use crate::timing::{longest, nanos, no_time, span_add, span_reached};
use std::time::Duration;
use vstd::prelude::*;

verus! {

/// Where a change of scene stands: it is over and the new scene is there,
/// or it goes on.
pub enum Step<TO, PENDING> {
    Done(TO),
    Pending(PENDING),
}

/// The scene `from` breaks apart and gives way to `to`.
pub struct ShatterTransition<FROM, TO> {
    pub from: FROM,
    pub to: TO,
    pub elapsed: Duration,
    pub time: Duration,
}

impl<FROM, TO> ShatterTransition<FROM, TO> {
    /// A change that takes `time` and has just begun.
    pub fn new(from: FROM, to: TO, time: Duration) -> (change: Self)
        ensures
            change.from == from,
            change.to == to,
            change.time == time,
            nanos(change.elapsed) == 0,
    {
        ShatterTransition { from, to, elapsed: no_time(), time }
    }

    /// Lets `dt` pass and says whether the change is over.
    pub fn update_time(&mut self, dt: Duration) -> (over: bool)
        requires
            nanos(old(self).elapsed) + nanos(dt) <= longest(),
        ensures
            final(self).from == old(self).from,
            final(self).to == old(self).to,
            final(self).time == old(self).time,
            nanos(final(self).elapsed) == nanos(old(self).elapsed) + nanos(dt),
            over == (nanos(old(self).elapsed) + nanos(dt) >= nanos(old(self).time)),
    {
        self.elapsed = span_add(self.elapsed, dt);
        span_reached(self.elapsed, self.time)
    }

    /// Lets `dt` pass; hands out the new scene when the change is over.
    pub fn update(self, dt: Duration) -> (next: Step<TO, Self>)
        requires
            nanos(self.elapsed) + nanos(dt) <= longest(),
        ensures
            match next {
                Step::Done(to) => nanos(self.elapsed) + nanos(dt) >= nanos(self.time) && to
                    == self.to,
                Step::Pending(change) => nanos(self.elapsed) + nanos(dt) < nanos(self.time)
                    && change.from == self.from && change.to == self.to && change.time
                    == self.time && nanos(change.elapsed) == nanos(self.elapsed) + nanos(dt),
            },
    {
        let mut change = self;
        if change.update_time(dt) {
            Step::Done(change.to)
        } else {
            Step::Pending(change)
        }
    }
}

/// The scene `from` turns away and `to` turns in.
pub struct RotateTransition<FROM, TO> {
    pub from: FROM,
    pub to: TO,
    pub elapsed: Duration,
    pub time: Duration,
}

impl<FROM, TO> RotateTransition<FROM, TO> {
    /// Lets `dt` pass; hands out the new scene when the turn is over.
    pub fn update(self, dt: Duration) -> (next: Step<TO, Self>)
        requires
            nanos(self.elapsed) + nanos(dt) <= longest(),
        ensures
            match next {
                Step::Done(to) => nanos(self.elapsed) + nanos(dt) >= nanos(self.time) && to
                    == self.to,
                Step::Pending(change) => nanos(self.elapsed) + nanos(dt) < nanos(self.time)
                    && change.from == self.from && change.to == self.to && change.time
                    == self.time && nanos(change.elapsed) == nanos(self.elapsed) + nanos(dt),
            },
    {
        let elapsed = span_add(self.elapsed, dt);
        if span_reached(elapsed, self.time) {
            Step::Done(self.to)
        } else {
            Step::Pending(
                RotateTransition { from: self.from, to: self.to, elapsed, time: self.time },
            )
        }
    }
}

} // verus!
