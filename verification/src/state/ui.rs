//! The panel of programs: closed, opening, open or closing.

use crate::input::{ElementState, VirtualKeyCode};
use crate::timing::{
    longest, nanos, no_time, span_add, span_nanos, span_of_millis, span_reached, span_sub,
};
use std::time::Duration;
use vstd::prelude::*;

verus! {

/// A clock that has run for `elapsed` of its `time`.
pub struct Timer {
    pub time: Duration,
    pub elapsed: Duration,
}

impl Timer {
    /// A clock that has not run yet.
    pub fn new(time: Duration) -> (timer: Timer)
        ensures
            timer.time == time,
            nanos(timer.elapsed) == 0,
    {
        Timer { time, elapsed: no_time() }
    }

    /// How far the clock has run and how far it runs in all, both in
    /// nanoseconds.
    pub fn progress(&self) -> (run: (u128, u128))
        ensures
            run.0 == nanos(self.elapsed),
            run.1 == nanos(self.time),
    {
        (span_nanos(self.elapsed), span_nanos(self.time))
    }

    /// Lets `dt` pass.
    pub fn update(&mut self, dt: Duration)
        requires
            nanos(old(self).elapsed) + nanos(dt) <= longest(),
        ensures
            final(self).time == old(self).time,
            nanos(final(self).elapsed) == nanos(old(self).elapsed) + nanos(dt),
    {
        self.elapsed = span_add(self.elapsed, dt);
    }

    /// Lets `dt` pass and says whether the clock has run its time. A
    /// clock that has, begins anew with what it has run beyond its time.
    pub fn lap(&mut self, dt: Duration) -> (over: bool)
        requires
            nanos(old(self).elapsed) + nanos(dt) <= longest(),
        ensures
            final(self).time == old(self).time,
            over == (nanos(old(self).elapsed) + nanos(dt) >= nanos(old(self).time)),
            nanos(final(self).elapsed) == if over {
                nanos(old(self).elapsed) + nanos(dt) - nanos(old(self).time)
            } else {
                nanos(old(self).elapsed) + nanos(dt)
            },
    {
        self.elapsed = span_add(self.elapsed, dt);
        if span_reached(self.elapsed, self.time) {
            self.elapsed = span_sub(self.elapsed, self.time);
            true
        } else {
            false
        }
    }
}

/// The open panel with its cursor on the entry `selected`.
#[derive(Copy, Clone, Debug, PartialEq, Eq, Structural)]
pub struct Open {
    pub selected: usize,
}

impl Default for Open {
    fn default() -> (open: Open)
        ensures
            open.selected == 0,
    {
        Open { selected: 0 }
    }
}

/// A program that the player can start from the panel.
#[derive(Copy, Clone, Debug, PartialEq, Eq, Structural)]
pub enum Program {
    NopSlide,
    NoClip,
}

/// The panel of programs.
pub enum UIState {
    Closed,
    Opening(Timer),
    Open(Open),
    Closing(Timer),
}

/// The panel with the clocks read in nanoseconds.
pub enum UiView {
    Closed,
    Opening { time: u128, elapsed: u128 },
    Open { selected: usize },
    Closing { time: u128, elapsed: u128 },
}

/// How long the panel takes to open or to close, in nanoseconds.
pub open spec fn transition_nanos() -> u128 {
    200_000_000
}

/// The last entry of the panel.
pub const LAST_ENTRY: usize = 2;

impl View for UIState {
    type V = UiView;

    open spec fn view(&self) -> UiView {
        match self {
            UIState::Closed => UiView::Closed,
            UIState::Opening(timer) => UiView::Opening {
                time: nanos(timer.time),
                elapsed: nanos(timer.elapsed),
            },
            UIState::Open(open) => UiView::Open { selected: open.selected },
            UIState::Closing(timer) => UiView::Closing {
                time: nanos(timer.time),
                elapsed: nanos(timer.elapsed),
            },
        }
    }
}

impl UiView {
    /// A panel on its way has not run longer than the way takes.
    pub open spec fn wf(self) -> bool {
        match self {
            UiView::Opening { time, elapsed } => time == transition_nanos() && elapsed <= time,
            UiView::Closing { time, elapsed } => time == transition_nanos() && elapsed <= time,
            _ => true,
        }
    }

    /// The panel after `dt` nanoseconds have passed: a panel on its way
    /// arrives once its time is over.
    pub open spec fn after(self, dt: u128) -> UiView {
        match self {
            UiView::Opening { time, elapsed } => if elapsed + dt >= time {
                UiView::Open { selected: 0 }
            } else {
                UiView::Opening { time, elapsed: (elapsed + dt) as u128 }
            },
            UiView::Closing { time, elapsed } => if elapsed + dt >= time {
                UiView::Closed
            } else {
                UiView::Closing { time, elapsed: (elapsed + dt) as u128 }
            },
            _ => self,
        }
    }

    /// The panel after it was told to be open or to be closed: it sets
    /// out, or turns round where it stands, so that the way back takes as
    /// long as the way so far.
    pub open spec fn told(self, open: bool) -> UiView {
        match self {
            UiView::Closed => if open {
                UiView::Opening { time: transition_nanos(), elapsed: 0 }
            } else {
                self
            },
            UiView::Opening { time, elapsed } => if !open {
                UiView::Closing {
                    time: transition_nanos(),
                    elapsed: (transition_nanos() - elapsed) as u128,
                }
            } else {
                self
            },
            UiView::Open { selected } => if !open {
                UiView::Closing { time: transition_nanos(), elapsed: 0 }
            } else {
                self
            },
            UiView::Closing { time, elapsed } => if open {
                UiView::Opening {
                    time: transition_nanos(),
                    elapsed: (transition_nanos() - elapsed) as u128,
                }
            } else {
                self
            },
        }
    }

    /// The panel after a key went down or came up: on the open panel, W
    /// and S move the cursor up and down.
    pub open spec fn keyed(self, state: ElementState, key: VirtualKeyCode) -> UiView {
        match self {
            UiView::Open { selected } => if state == ElementState::Pressed {
                match key {
                    VirtualKeyCode::W => UiView::Open {
                        selected: if selected == 0 {
                            0
                        } else {
                            (selected - 1) as usize
                        },
                    },
                    VirtualKeyCode::S => UiView::Open {
                        selected: if selected < LAST_ENTRY {
                            (selected + 1) as usize
                        } else {
                            LAST_ENTRY
                        },
                    },
                    _ => self,
                }
            } else {
                self
            },
            _ => self,
        }
    }

    /// The program that a key starts: on the open panel, D starts the
    /// program under the cursor.
    pub open spec fn started(self, state: ElementState, key: VirtualKeyCode) -> Option<Program> {
        match self {
            UiView::Open { selected } => if state == ElementState::Pressed && key
                == VirtualKeyCode::D {
                if selected == 0 {
                    Some(Program::NopSlide)
                } else if selected == 1 {
                    Some(Program::NoClip)
                } else {
                    None
                }
            } else {
                None
            },
            _ => None,
        }
    }
}

/// The time that the panel takes to open or to close.
pub fn transition_time() -> (time: Duration)
    ensures
        nanos(time) == transition_nanos(),
{
    span_of_millis(200)
}

impl UIState {
    /// Whether the panel is anything but closed.
    pub fn is_open(&self) -> (open: bool)
        ensures
            open == !(self@ is Closed),
    {
        match self {
            UIState::Closed => false,
            _ => true,
        }
    }

    /// Handles a key: moves the cursor of the open panel, and says which
    /// program the key starts, if any.
    pub fn handle_key_event(&mut self, state: ElementState, key_code: VirtualKeyCode) -> (program:
        Option<Program>)
        ensures
            final(self)@ == old(self)@.keyed(state, key_code),
            program == old(self)@.started(state, key_code),
    {
        let selected = match self {
            UIState::Open(open) => open.selected,
            _ => {
                return None;
            },
        };
        match state {
            ElementState::Pressed => match key_code {
                VirtualKeyCode::W => {
                    let moved: usize = if selected == 0 {
                        0
                    } else {
                        selected - 1
                    };
                    *self = UIState::Open(Open { selected: moved });
                    None
                },
                VirtualKeyCode::S => {
                    let moved: usize = if selected < LAST_ENTRY {
                        selected + 1
                    } else {
                        LAST_ENTRY
                    };
                    *self = UIState::Open(Open { selected: moved });
                    None
                },
                VirtualKeyCode::D => {
                    if selected == 0 {
                        Some(Program::NopSlide)
                    } else if selected == 1 {
                        Some(Program::NoClip)
                    } else {
                        None
                    }
                },
                _ => None,
            },
            ElementState::Released => None,
        }
    }

    /// Lets `dt` pass.
    pub fn update(&mut self, dt: Duration)
        ensures
            final(self)@ == old(self)@.after(nanos(dt)),
            old(self)@.wf() ==> final(self)@.wf(),
    {
        let step = span_nanos(dt);
        let next = match self {
            UIState::Closed => UIState::Closed,
            UIState::Opening(timer) => {
                if span_nanos(timer.elapsed) + step >= span_nanos(timer.time) {
                    UIState::Open(Open { selected: 0 })
                } else {
                    UIState::Opening(
                        Timer { time: timer.time, elapsed: span_add(timer.elapsed, dt) },
                    )
                }
            },
            UIState::Open(open) => UIState::Open(Open { selected: open.selected }),
            UIState::Closing(timer) => {
                if span_nanos(timer.elapsed) + step >= span_nanos(timer.time) {
                    UIState::Closed
                } else {
                    UIState::Closing(
                        Timer { time: timer.time, elapsed: span_add(timer.elapsed, dt) },
                    )
                }
            },
        };
        *self = next;
    }

    /// Tells the panel to be open or to be closed.
    pub fn set_open(&mut self, open: bool)
        requires
            old(self)@.wf(),
        ensures
            final(self)@ == old(self)@.told(open),
            final(self)@.wf(),
    {
        let next = match self {
            UIState::Closed => {
                if open {
                    UIState::Opening(Timer::new(transition_time()))
                } else {
                    UIState::Closed
                }
            },
            UIState::Opening(timer) => {
                if !open {
                    let time = transition_time();
                    UIState::Closing(Timer { time, elapsed: span_sub(time, timer.elapsed) })
                } else {
                    UIState::Opening(Timer { time: timer.time, elapsed: timer.elapsed })
                }
            },
            UIState::Open(panel) => {
                if !open {
                    UIState::Closing(Timer::new(transition_time()))
                } else {
                    UIState::Open(Open { selected: panel.selected })
                }
            },
            UIState::Closing(timer) => {
                if open {
                    let time = transition_time();
                    UIState::Opening(Timer { time, elapsed: span_sub(time, timer.elapsed) })
                } else {
                    UIState::Closing(Timer { time: timer.time, elapsed: timer.elapsed })
                }
            },
        };
        *self = next;
    }
}

} // verus!
