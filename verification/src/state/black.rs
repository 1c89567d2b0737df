//! The black screen after the player was caught.

use crate::input::{ElementState, VirtualKeyCode};
use crate::state::StateKind;
use crate::timing::{longest, nanos, no_time, span_add, span_reached};
use std::time::Duration;
use vstd::prelude::*;

verus! {

/// A black screen that holds for `wait_time` before a key leads on.
pub struct Black {
    pub wait_time: Duration,
    pub t: Duration,
}

impl Black {
    /// A black screen that has just begun.
    pub fn new(wait_time: Duration) -> (black: Black)
        ensures
            black.wait_time == wait_time,
            nanos(black.t) == 0,
    {
        Black { wait_time, t: no_time() }
    }

    /// Lets `dt` pass.
    pub fn update(&mut self, dt: Duration)
        requires
            nanos(old(self).t) + nanos(dt) <= longest(),
        ensures
            final(self).wait_time == old(self).wait_time,
            nanos(final(self).t) == nanos(old(self).t) + nanos(dt),
    {
        self.t = span_add(self.t, dt);
    }

    /// The scene that a key leads to: the first scene of the game, once
    /// the wait is over and a key comes up; no other scene before that.
    pub fn handle_key_event(&self, state: ElementState, _key_code: VirtualKeyCode) -> (next:
        Option<StateKind>)
        ensures
            next == if state == ElementState::Released && nanos(self.t) >= nanos(self.wait_time) {
                Some(StateKind::Menu)
            } else {
                None
            },
    {
        if state == ElementState::Released {
            if span_reached(self.t, self.wait_time) {
                Some(StateKind::default())
            } else {
                None
            }
        } else {
            None
        }
    }
}

} // verus!
