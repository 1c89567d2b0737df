//! The scenes of the game and the changes between them.

pub mod bad_end;
pub mod black;
pub mod menu;
pub mod transition;
pub mod ui;

use vstd::prelude::*;

verus! {

/// The scenes that the game can be in.
#[derive(Copy, Clone, Debug, PartialEq, Eq, Structural)]
pub enum StateKind {
    Menu,
    Main,
    MainToMain,
    MainToBlack,
    BadEnd,
    MainToBadEnd,
    Black,
}

impl Default for StateKind {
    fn default() -> (kind: StateKind)
        ensures
            kind == StateKind::Menu,
    {
        StateKind::Menu
    }
}

} // verus!
