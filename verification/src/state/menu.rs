//! The first scene: the title with its volume knob.

use crate::input::{ElementState, MouseButton, VirtualKeyCode};
use crate::state::StateKind;
use vstd::prelude::*;

verus! {

/// The title scene: whether the volume knob is held, and whether the music
/// has been started.
#[derive(Copy, Clone, Debug, PartialEq, Eq, Structural)]
pub struct Menu {
    pub volume_clicked: bool,
    pub music: bool,
}

impl Menu {
    /// The title scene before anything was clicked.
    pub fn new() -> (menu: Menu)
        ensures
            !menu.volume_clicked,
            !menu.music,
    {
        Menu { volume_clicked: false, music: false }
    }

    /// The scene that a key leads to: the game, when one of W, A, S and D
    /// comes up.
    pub fn handle_key_event(&self, state: ElementState, key_code: VirtualKeyCode) -> (next: Option<
        StateKind,
    >)
        ensures
            next == if state == ElementState::Released && (key_code == VirtualKeyCode::W
                || key_code == VirtualKeyCode::A || key_code == VirtualKeyCode::S || key_code
                == VirtualKeyCode::D) {
                Some(StateKind::Main)
            } else {
                None
            },
    {
        if state == ElementState::Released {
            match key_code {
                VirtualKeyCode::W | VirtualKeyCode::A | VirtualKeyCode::S | VirtualKeyCode::D => {
                    Some(StateKind::Main)
                },
                _ => None,
            }
        } else {
            None
        }
    }

    /// Handles a button of the mouse. `on_knob` says whether the pointer
    /// is on the volume knob. The first press of the left button starts
    /// the music; the answer is whether this press did. A press of the
    /// left button on the knob takes hold of it, and any button that comes
    /// up lets go of it.
    pub fn handle_mouse_button(&mut self, state: ElementState, button: MouseButton, on_knob: bool)
        -> (start_music: bool)
        ensures
            start_music == (state == ElementState::Pressed && button == MouseButton::Left && !old(self).music),
            final(self).music == (old(self).music || start_music),
            final(self).volume_clicked == if state == ElementState::Pressed {
                old(self).volume_clicked || (button == MouseButton::Left && on_knob)
            } else {
                false
            },
    {
        if state == ElementState::Pressed {
            match button {
                MouseButton::Left => {
                    let start = !self.music;
                    self.music = true;
                    if on_knob {
                        self.volume_clicked = true;
                    }
                    start
                },
                _ => false,
            }
        } else {
            self.volume_clicked = false;
            false
        }
    }
}

} // verus!
