//! Programs: what the player can start from the panel to bend the rules of
//! the maze.

use crate::connectivity::cardinal;
use crate::cron::{callable, Answer, ControlFlow, Cron, TimerView, ID};
use crate::direction::{Direction, DirectionBits};
use crate::grid::{neighbor_coord_mult, neighbor_spec, Coord};
use crate::maze::{lemma_make_open, make_open_spec, DirectionGrid, MazeView};
use crate::timing::span_of_millis;
use vstd::prelude::*;

verus! {

/// How many programs of each kind the player has.
#[derive(Copy, Clone, Debug, PartialEq, Eq, Structural)]
pub struct Programs {
    pub nop_slide: usize,
    pub clip_count: usize,
}

impl Default for Programs {
    fn default() -> (programs: Programs)
        ensures
            programs.nop_slide == 0,
            programs.clip_count == 0,
    {
        Programs { nop_slide: 0, clip_count: 0 }
    }
}

/// The time between two rings of the slide, in milliseconds.
pub const SLIDE_INTERVAL_MILLIS: u64 = 100;

/// The running slide program: the handle of its task.
pub struct NopSlide {
    pub callback: ID,
}

impl NopSlide {
    /// Starts the slide: schedules `callback` for every tenth of a second.
    pub fn new<T, C: Answer, F: Fn(&mut T) -> C>(cron: &mut Cron<T, F>, callback: F) -> (slide:
        NopSlide)
        requires
            old(cron).index < usize::MAX,
        ensures
            slide.callback.0 == old(cron).index,
            final(cron).index == old(cron).index + 1,
            final(cron).every_timers() == old(cron).every_timers().push(
                TimerView { id: slide.callback.0, t: 100_000_000, running: 0, callback },
            ),
            final(cron).after_callbacks == old(cron).after_callbacks,
            old(cron).all_callable() && callable::<T, C, F>(callback) ==> final(cron).all_callable(),
    {
        let id = cron.every(span_of_millis(SLIDE_INTERVAL_MILLIS), callback);
        NopSlide { callback: id }
    }
}

/// The program that lets the player walk through walls.
pub struct NoClip;

impl NoClip {
    /// Starts the program: counts one more of its kind.
    pub fn new(programs: &mut Programs) -> (program: NoClip)
        requires
            old(programs).clip_count < usize::MAX,
        ensures
            final(programs).clip_count == old(programs).clip_count + 1,
            final(programs).nop_slide == old(programs).nop_slide,
    {
        programs.clip_count = programs.clip_count + 1;
        NoClip
    }
}

/// The slide at work: it opens corridors from `origin` outwards, one ring
/// at a time, in the four cardinal directions at once. `index` is the
/// ring that comes next.
#[derive(Copy, Clone, Debug)]
pub struct Slide {
    pub origin: Coord,
    pub index: i32,
}

/// The cells of `grid` after the ring `index` around `origin` has been
/// worked on in the first `k` cardinal directions: from the cell of the
/// ring in each direction the passage onwards in that direction is opened.
pub open spec fn slide_cells(grid: MazeView, origin: Coord, index: int, k: int) -> Seq<
    DirectionBits,
>
    decreases k,
{
    if k <= 0 {
        grid.cells
    } else {
        let before = slide_cells(grid, origin, index, k - 1);
        match neighbor_spec(origin, cardinal(k - 1), index) {
            Some(cell) => make_open_spec(grid.with_cells(before), cell, cardinal(k - 1)),
            None => before,
        }
    }
}

/// A cell of the ring `index` around `origin` in one of the first `k`
/// cardinal directions lies in the grid.
pub open spec fn slide_reaches(grid: MazeView, origin: Coord, index: int, k: int) -> bool {
    exists|j: int|
        0 <= j < k && (#[trigger] neighbor_spec(origin, cardinal(j), index)) is Some
            && grid.in_bounds(neighbor_spec(origin, cardinal(j), index).unwrap())
}

impl Slide {
    /// A slide that begins at the cell `origin` itself.
    pub fn new(origin: Coord) -> (slide: Slide)
        ensures
            slide.origin == origin,
            slide.index == 0,
    {
        Slide { origin, index: 0 }
    }

    /// Works on the next ring and says whether the slide goes on: it does
    /// while a cell of the ring lies in the grid, and not beyond the
    /// widest ring there is.
    pub fn step(&mut self, grid: &mut DirectionGrid) -> (flow: ControlFlow)
        requires
            old(grid).wf(),
        ensures
            final(grid).wf(),
            final(grid).width == old(grid).width,
            final(grid).height == old(grid).height,
            final(grid).data@ == slide_cells(old(grid)@, old(self).origin, old(self).index as int, 4),
            final(self).origin == old(self).origin,
            final(self).index == if old(self).index < i32::MAX {
                old(self).index + 1
            } else {
                old(self).index as int
            },
            flow == ControlFlow::Continue <==> old(self).index < i32::MAX && slide_reaches(
                old(grid)@,
                old(self).origin,
                old(self).index as int,
                4,
            ),
    {
        let ghost before = grid@;
        let ghost origin = self.origin;
        let ghost index = self.index as int;
        let mut changed = false;
        let directions = Direction::cardinals();
        let mut k: usize = 0;
        while k < 4
            invariant
                k <= 4,
                before.wf(),
                grid.wf(),
                grid.width == before.width,
                grid.height == before.height,
                self.origin == origin,
                self.index == index,
                *self == *old(self),
                directions@ == Direction::cardinal_seq(),
                grid.data@ == slide_cells(before, origin, index, k as int),
                changed == slide_reaches(before, origin, index, k as int),
            decreases 4 - k,
        {
            let direction = directions[k];
            assert(direction == cardinal(k as int));
            let ghost so_far = grid@;
            match neighbor_coord_mult(self.origin, direction, self.index) {
                Ok(cell) => {
                    proof {
                        lemma_make_open(so_far, cell, direction);
                    }
                    grid.make_open(cell, direction);
                    if grid.contains(cell) {
                        changed = true;
                    }
                    proof {
                        assert(so_far =~= before.with_cells(
                            slide_cells(before, origin, index, k as int),
                        ));
                    }
                },
                Err(_) => {},
            }
            proof {
                let reached = neighbor_spec(origin, cardinal(k as int), index) is Some
                    && before.in_bounds(neighbor_spec(origin, cardinal(k as int), index).unwrap());
                if slide_reaches(before, origin, index, k + 1) {
                    let j = choose|j: int|
                        0 <= j < k + 1 && (#[trigger] neighbor_spec(origin, cardinal(j), index))
                            is Some && before.in_bounds(
                            neighbor_spec(origin, cardinal(j), index).unwrap(),
                        );
                    if j < k {
                        assert(slide_reaches(before, origin, index, k as int));
                    }
                }
                if slide_reaches(before, origin, index, k as int) {
                    let j = choose|j: int|
                        0 <= j < k && (#[trigger] neighbor_spec(origin, cardinal(j), index))
                            is Some && before.in_bounds(
                            neighbor_spec(origin, cardinal(j), index).unwrap(),
                        );
                    assert(0 <= j < k + 1);
                }
                assert(slide_reaches(before, origin, index, k + 1) == (slide_reaches(
                    before,
                    origin,
                    index,
                    k as int,
                ) || reached));
            }
            k = k + 1;
        }
        if self.index < i32::MAX {
            self.index = self.index + 1;
            if changed {
                ControlFlow::Continue
            } else {
                ControlFlow::Stop
            }
        } else {
            ControlFlow::Stop
        }
    }
}

} // verus!
