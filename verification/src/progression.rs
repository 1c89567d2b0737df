//! The course of the game: which map follows which, and how it ends.

use crate::grid::Coord;
use vstd::prelude::*;

verus! {

/// How many programs a map hands out.
#[derive(Copy, Clone, Debug, PartialEq, Eq, Structural)]
pub struct ProgramGenSettings {
    pub nop_slide_count: usize,
}

/// The size of a map and what it hands out.
#[derive(Copy, Clone, Debug, PartialEq, Eq, Structural)]
pub struct MapGenSettings {
    pub width: usize,
    pub height: usize,
    pub programs: ProgramGenSettings,
}

/// What comes after a map: another map, or the end.
#[derive(Debug)]
pub enum ProgressionType {
    Standard(Box<MapProgression>),
    BadEnding,
}

/// A map and what comes after it.
#[derive(Debug)]
pub struct MapProgression {
    pub settings: MapGenSettings,
    pub exit: Option<ProgressionType>,
}

/// The settings of a square map of side `side` that hands out no programs.
pub open spec fn square_settings(side: usize) -> MapGenSettings {
    MapGenSettings {
        width: side,
        height: side,
        programs: ProgramGenSettings { nop_slide_count: 0 },
    }
}

impl MapProgression {
    /// The number of maps from this one on.
    pub open spec fn maps_left(self) -> nat
        decreases self,
    {
        match self.exit {
            Some(ProgressionType::Standard(next)) => 1 + next.maps_left(),
            _ => 1,
        }
    }

    /// A copy of this map with all that comes after it.
    pub fn copy(&self) -> (same: MapProgression)
        ensures
            same == *self,
        decreases *self,
    {
        let exit = match &self.exit {
            Some(ProgressionType::Standard(next)) => Some(
                ProgressionType::Standard(Box::new(next.copy())),
            ),
            Some(ProgressionType::BadEnding) => Some(ProgressionType::BadEnding),
            None => None,
        };
        MapProgression { settings: self.settings, exit }
    }

    /// A square map of side `side` that hands out no programs, with `exit`
    /// behind it.
    pub fn square(side: usize, exit: Option<ProgressionType>) -> (map: MapProgression)
        ensures
            map.settings == square_settings(side),
            map.exit == exit,
    {
        MapProgression {
            settings: MapGenSettings {
                width: side,
                height: side,
                programs: ProgramGenSettings { nop_slide_count: 0 },
            },
            exit,
        }
    }

    /// The course of the game: square maps of side four, eight and twelve,
    /// and the bad end behind the last.
    pub fn campaign() -> (first: MapProgression)
        ensures
            first.settings == square_settings(4),
            first.maps_left() == 3,
            first.exit matches Some(ProgressionType::Standard(second)) && second.settings
                == square_settings(8) && (second.exit matches Some(
                ProgressionType::Standard(third),
            ) && third.settings == square_settings(12) && third.exit matches Some(
                ProgressionType::BadEnding,
            )),
    {
        let third = MapProgression::square(12, Some(ProgressionType::BadEnding));
        let second = MapProgression::square(8, Some(ProgressionType::Standard(Box::new(third))));
        let first = MapProgression::square(4, Some(ProgressionType::Standard(Box::new(second))));
        proof {
            reveal_with_fuel(MapProgression::maps_left, 4);
        }
        first
    }
}

/// What follows when a frame finds the player on some cell of the map.
#[derive(Copy, Clone, Debug, PartialEq, Eq, Structural)]
pub enum ExitStep {
    /// The game goes on in the map.
    Stay,
    /// The next map is entered.
    NextMap,
    /// The bad end begins.
    BadEnding,
}

/// What follows for a player on `cell`: when the player stands on the exit
/// of the map and does not move, what the course of the game has behind
/// the map; in any other case, nothing.
pub open spec fn exit_step_spec(
    moving: bool,
    cell: Coord,
    exit: Option<Coord>,
    next: Option<ProgressionType>,
) -> ExitStep {
    if !moving && exit == Some(cell) {
        match next {
            Some(ProgressionType::Standard(_)) => ExitStep::NextMap,
            Some(ProgressionType::BadEnding) => ExitStep::BadEnding,
            None => ExitStep::Stay,
        }
    } else {
        ExitStep::Stay
    }
}

/// Decides what follows for a player on `cell`, where `exit` is the exit
/// of the map and `next` what comes after the map.
pub fn at_exit(moving: bool, cell: Coord, exit: Option<Coord>, next: &Option<ProgressionType>) -> (step:
    ExitStep)
    ensures
        step == exit_step_spec(moving, cell, exit, *next),
{
    let on_exit = match exit {
        Some(target) => target.0 == cell.0 && target.1 == cell.1,
        None => false,
    };
    if !moving && on_exit {
        match next {
            Some(ProgressionType::Standard(_)) => ExitStep::NextMap,
            Some(ProgressionType::BadEnding) => ExitStep::BadEnding,
            None => ExitStep::Stay,
        }
    } else {
        ExitStep::Stay
    }
}

} // verus!
