//! What the player does: keys that go down and come up.

use crate::direction::Direction;
use vstd::prelude::*;

verus! {

/// Whether a key or button went down or came up.
#[derive(Copy, Clone, Debug, PartialEq, Eq, Structural)]
pub enum ElementState {
    Pressed,
    Released,
}

/// The keys that the game tells apart; every other key is `Other`.
#[derive(Copy, Clone, Debug, PartialEq, Eq, Structural)]
pub enum VirtualKeyCode {
    W,
    A,
    S,
    D,
    Space,
    LControl,
    Other,
}

/// The buttons of the mouse.
#[derive(Copy, Clone, Debug, PartialEq, Eq, Structural)]
pub enum MouseButton {
    Left,
    Right,
    Middle,
    Other,
}

/// The keys that are held down at the moment.
#[derive(Copy, Clone, Debug, PartialEq, Eq, Structural)]
pub struct InputState {
    pub w: bool,
    pub a: bool,
    pub s: bool,
    pub d: bool,
    pub space: bool,
    pub ctrl: bool,
}

impl Default for InputState {
    fn default() -> (keys: InputState)
        ensures
            keys == (InputState {
                w: false,
                a: false,
                s: false,
                d: false,
                space: false,
                ctrl: false,
            }),
    {
        InputState { w: false, a: false, s: false, d: false, space: false, ctrl: false }
    }
}

impl InputState {
    /// The keys after `key` has gone down or come up.
    pub open spec fn with_key(self, state: ElementState, key: VirtualKeyCode) -> InputState {
        let pressed = state == ElementState::Pressed;
        match key {
            VirtualKeyCode::W => InputState { w: pressed, ..self },
            VirtualKeyCode::A => InputState { a: pressed, ..self },
            VirtualKeyCode::S => InputState { s: pressed, ..self },
            VirtualKeyCode::D => InputState { d: pressed, ..self },
            VirtualKeyCode::Space => InputState { space: pressed, ..self },
            VirtualKeyCode::LControl => InputState { ctrl: pressed, ..self },
            VirtualKeyCode::Other => self,
        }
    }

    /// The direction that the held keys ask for: up before down before
    /// left before right.
    pub open spec fn direction_spec(self) -> Option<Direction> {
        if self.w {
            Some(Direction::N)
        } else if self.s {
            Some(Direction::S)
        } else if self.a {
            Some(Direction::W)
        } else if self.d {
            Some(Direction::E)
        } else {
            None
        }
    }

    /// The held keys in the order control, space, W, A, S, D.
    pub fn key_states(&self) -> (keys: [bool; 6])
        ensures
            keys@ == seq![self.ctrl, self.space, self.w, self.a, self.s, self.d],
    {
        let keys = [self.ctrl, self.space, self.w, self.a, self.s, self.d];
        assert(keys@ =~= seq![self.ctrl, self.space, self.w, self.a, self.s, self.d]);
        keys
    }

    /// Notes that `key_code` went down or came up.
    pub fn handle_key_event(&mut self, state: ElementState, key_code: VirtualKeyCode)
        ensures
            *final(self) == old(self).with_key(state, key_code),
    {
        let pressed = match state {
            ElementState::Pressed => true,
            ElementState::Released => false,
        };
        match key_code {
            VirtualKeyCode::W => self.w = pressed,
            VirtualKeyCode::A => self.a = pressed,
            VirtualKeyCode::S => self.s = pressed,
            VirtualKeyCode::D => self.d = pressed,
            VirtualKeyCode::Space => self.space = pressed,
            VirtualKeyCode::LControl => self.ctrl = pressed,
            VirtualKeyCode::Other => {},
        }
    }

    /// The direction in which the player wants to go, if any.
    pub fn direction(&self) -> (wanted: Option<Direction>)
        ensures
            wanted == self.direction_spec(),
    {
        if self.w {
            Some(Direction::N)
        } else if self.s {
            Some(Direction::S)
        } else if self.a {
            Some(Direction::W)
        } else if self.d {
            Some(Direction::E)
        } else {
            None
        }
    }
}

} // verus!
