//! The player: it stands at a place or is on its way to the next.
//!
//! What a place is, is left to the game; the player only carries places
//! about and keeps the time of its moves.

use crate::programs::Programs;
use crate::timing::{longest, nanos, no_time, span_add, span_reached};
use std::time::Duration;
use vstd::prelude::*;

verus! {

/// A move from `origin` to `target` that takes `time`, of which `elapsed`
/// has passed.
pub struct Moving<P> {
    pub origin: P,
    pub target: P,
    pub time: Duration,
    pub elapsed: Duration,
}

/// Standing at `position`.
pub struct Stationary<P> {
    pub position: P,
}

/// Standing or moving.
pub enum State<P> {
    Stationary(Stationary<P>),
    Moving(Moving<P>),
}

/// The player with the programs that it has.
pub struct Player<P> {
    pub state: State<P>,
    pub programs: Programs,
}

impl<P: Copy> Player<P> {
    /// A player that stands at `position` and has no programs.
    pub fn new(position: P) -> (player: Self)
        ensures
            player.state == State::Stationary(Stationary { position }),
            player.programs.nop_slide == 0,
            player.programs.clip_count == 0,
    {
        Player { state: State::Stationary(Stationary { position }), programs: Programs::default() }
    }

    /// Lets `dt` pass: a move whose time is over ends, and the player
    /// stands at the target of the move.
    pub fn update(&mut self, dt: Duration)
        requires
            old(self).state matches State::Moving(moving) ==> nanos(moving.elapsed) + nanos(dt)
                <= longest(),
        ensures
            final(self).programs == old(self).programs,
            match old(self).state {
                State::Stationary(standing) => final(self).state == old(self).state,
                State::Moving(moving) => if nanos(moving.elapsed) + nanos(dt) >= nanos(
                    moving.time,
                ) {
                    final(self).state == State::Stationary(Stationary { position: moving.target })
                } else {
                    final(self).state matches State::Moving(still) && still.origin == moving.origin
                        && still.target == moving.target && still.time == moving.time && nanos(
                        still.elapsed,
                    ) == nanos(moving.elapsed) + nanos(dt)
                },
            },
    {
        let next = match &self.state {
            State::Stationary(standing) => State::Stationary(
                Stationary { position: standing.position },
            ),
            State::Moving(moving) => {
                let elapsed = span_add(moving.elapsed, dt);
                if span_reached(elapsed, moving.time) {
                    State::Stationary(Stationary { position: moving.target })
                } else {
                    State::Moving(
                        Moving {
                            origin: moving.origin,
                            target: moving.target,
                            time: moving.time,
                            elapsed,
                        },
                    )
                }
            },
        };
        self.state = next;
    }

    /// Whether the player is on its way.
    pub fn is_moving(&self) -> (moving: bool)
        ensures
            moving == (self.state is Moving),
    {
        match &self.state {
            State::Stationary(_) => false,
            State::Moving(_) => true,
        }
    }

    /// Sets out for `target`, to arrive after `time`. A player that is on
    /// its way already goes on as before; the answer is whether the player
    /// has set out.
    pub fn try_move(&mut self, target: P, time: Duration) -> (set_out: bool)
        ensures
            final(self).programs == old(self).programs,
            set_out == (old(self).state is Stationary),
            match old(self).state {
                State::Stationary(standing) => final(self).state matches State::Moving(moving)
                    && moving.origin == standing.position && moving.target == target && moving.time
                    == time && nanos(moving.elapsed) == 0,
                State::Moving(moving) => final(self).state == old(self).state,
            },
    {
        let origin = match &self.state {
            State::Stationary(standing) => standing.position,
            State::Moving(_) => {
                return false;
            },
        };
        self.state = State::Moving(Moving { origin, target, time, elapsed: no_time() });
        true
    }
}

} // verus!
