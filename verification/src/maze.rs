//! Mazes: grids whose cells hold the directions in which they are open.

use crate::direction::{
    lemma_masks_disjoint, lemma_opposite_involution, lemma_or_mask, Direction, DirectionBits,
};
use crate::grid::{
    lemma_index_coord_inverse, lemma_index_injective, lemma_neighbor_round_trip, neighbor_coord,
    neighbor_spec, Coord, Grid, GridView,
};
use vstd::prelude::*;

verus! {

/// A maze: every cell holds the set of directions in which it is open.
pub type DirectionGrid = Grid<DirectionBits>;

/// The mathematical content of a maze.
pub type MazeView = GridView<DirectionBits>;

/// The cell that one step from `c` in direction `d` reaches inside `grid`.
pub open spec fn neighbor_in(grid: MazeView, c: Coord, d: Direction) -> Option<Coord> {
    match neighbor_spec(c, d, 1) {
        Some(n) => if grid.in_bounds(n) {
            Some(n)
        } else {
            None
        },
        None => None,
    }
}

/// Where a move from `c` in direction `d` ends: the neighbouring cell, if
/// `c` lies in the grid, is open towards `d` and the neighbour lies in the
/// grid too.
pub open spec fn step_spec(grid: MazeView, c: Coord, d: Direction) -> Option<Coord> {
    if grid.in_bounds(c) && grid.at(c).has(d) {
        neighbor_in(grid, c, d)
    } else {
        None
    }
}

/// Cardinal openings come in pairs: a cell that is open towards a
/// neighbour inside the grid finds that neighbour open towards itself.
pub open spec fn symmetric(grid: MazeView) -> bool {
    forall|c: Coord, d: Direction|
        #![trigger grid.at(c).has(d)]
        grid.in_bounds(c) && d.is_cardinal() && grid.at(c).has(d) && neighbor_in(grid, c, d)
            is Some ==> grid.at(neighbor_in(grid, c, d).unwrap()).has(d.opposite_spec())
}

/// No cardinal opening leads out of the grid.
pub open spec fn closed(grid: MazeView) -> bool {
    forall|c: Coord, d: Direction|
        #![trigger grid.at(c).has(d)]
        grid.in_bounds(c) && d.is_cardinal() && grid.at(c).has(d) ==> neighbor_in(grid, c, d)
            is Some
}

/// The set `bits` with `d` added.
pub open spec fn opened(bits: DirectionBits, d: Direction) -> DirectionBits {
    DirectionBits { bits: bits.bits | d.mask() }
}

/// The cells of `grid` after the passage from `from` towards `d` has been
/// opened from both sides; nothing changes unless both ends lie in the grid.
pub open spec fn make_open_spec(grid: MazeView, from: Coord, d: Direction) -> Seq<
    DirectionBits,
> {
    match neighbor_in(grid, from, d) {
        Some(to) => if grid.in_bounds(from) {
            let i = grid.index_of(from);
            let j = grid.index_of(to);
            let first = grid.cells.update(i, opened(grid.cells[i], d));
            first.update(j, opened(first[j], d.opposite_spec()))
        } else {
            grid.cells
        },
        None => grid.cells,
    }
}

impl DirectionGrid {
    /// Opens the passage between `from` and its neighbour in `direction`,
    /// on both cells. A passage with an end outside the grid is left alone.
    pub fn make_open(&mut self, from: Coord, direction: Direction)
        requires
            old(self).wf(),
        ensures
            final(self).wf(),
            final(self).width == old(self).width,
            final(self).height == old(self).height,
            final(self).data@ == make_open_spec(old(self)@, from, direction),
    {
        let cell = self.checked_coord_to_index(from);
        let neighbor = match neighbor_coord(from, direction) {
            Ok(coord) => self.checked_coord_to_index(coord),
            Err(_) => None,
        };
        match (cell, neighbor) {
            (Some(i), Some(j)) => {
                let mut here = self.data[i];
                here.insert(direction);
                self.data.set(i, here);
                let mut there = self.data[j];
                there.insert(direction.opposite());
                self.data.set(j, there);
            },
            _ => {},
        }
    }

    /// The cell that a move from `start` in `direction` reaches, or `None`
    /// when `start` is no cell of the grid, is not open in that direction,
    /// or the step would leave the grid.
    pub fn valid_move(&self, start: Coord, direction: Direction) -> (end: Option<Coord>)
        requires
            self.wf(),
        ensures
            end == step_spec(self@, start, direction),
    {
        match self.checked_coord_to_index(start) {
            Some(index) => {
                if self.data[index].contains(direction) {
                    match neighbor_coord(start, direction) {
                        Ok(end) => {
                            if self.checked_coord_to_index(end).is_some() {
                                Some(end)
                            } else {
                                None
                            }
                        },
                        Err(_) => None,
                    }
                } else {
                    None
                }
            },
            None => None,
        }
    }
}

/// The first of `directions` in which a move from `start` can be made, with
/// its place among the directions and the cell that the move leads to.
pub open spec fn is_first_move(
    grid: MazeView,
    start: Coord,
    directions: Seq<Direction>,
    k: int,
    end: Coord,
) -> bool {
    &&& 0 <= k < directions.len()
    &&& step_spec(grid, start, directions[k]) == Some(end)
    &&& forall|j: int| 0 <= j < k ==> step_spec(grid, start, #[trigger] directions[j]) is None
}

impl DirectionGrid {
    /// Tries `directions` in their order and answers with the first in
    /// which a move from `start` can be made, and with the cell that the
    /// move leads to.
    pub fn first_valid_move(&self, start: Coord, directions: &[Direction; 4]) -> (found: Option<
        (Direction, Coord),
    >)
        requires
            self.wf(),
        ensures
            match found {
                Some((direction, end)) => exists|k: int|
                    is_first_move(self@, start, directions@, k, end) && #[trigger] directions@[k]
                        == direction,
                None => forall|j: int|
                    0 <= j < 4 ==> step_spec(self@, start, #[trigger] directions@[j]) is None,
            },
    {
        let mut k: usize = 0;
        while k < 4
            invariant
                self.wf(),
                k <= 4,
                forall|j: int|
                    0 <= j < k ==> step_spec(self@, start, #[trigger] directions@[j]) is None,
            decreases 4 - k,
        {
            match self.valid_move(start, directions[k]) {
                Some(end) => {
                    assert(is_first_move(self@, start, directions@, k as int, end));
                    return Some((directions[k], end));
                },
                None => {},
            }
            k = k + 1;
        }
        None
    }
}

/// Two neighbouring cells are stored at different places, and the step
/// back from the neighbour leads to the cell.
pub proof fn lemma_neighbor_is_elsewhere(grid: MazeView, c: Coord, d: Direction)
    requires
        grid.wf(),
        grid.in_bounds(c),
        neighbor_in(grid, c, d) is Some,
    ensures
        neighbor_in(grid, c, d).unwrap() != c,
        grid.index_of(neighbor_in(grid, c, d).unwrap()) != grid.index_of(c),
        neighbor_in(grid, neighbor_in(grid, c, d).unwrap(), d.opposite_spec()) == Some(c),
{
    let n = neighbor_in(grid, c, d).unwrap();
    lemma_neighbor_round_trip(c, d, 1);
    if grid.index_of(n) == grid.index_of(c) {
        lemma_index_injective(grid, n, c);
    }
}

/// Opening a passage sets the direction on the cell and the opposite
/// direction on its neighbour and keeps every other flag as it was. With
/// an end outside the grid it changes nothing.
pub proof fn lemma_make_open(grid: MazeView, from: Coord, d: Direction)
    requires
        grid.wf(),
    ensures
        make_open_spec(grid, from, d).len() == grid.cells.len(),
        grid.in_bounds(from) && neighbor_in(grid, from, d) is Some ==> {
            let to = neighbor_in(grid, from, d).unwrap();
            let after = grid.with_cells(make_open_spec(grid, from, d));
            &&& after.at(from).has(d)
            &&& after.at(to).has(d.opposite_spec())
            &&& forall|c: Coord, e: Direction|
                #![trigger after.at(c).has(e)]
                grid.in_bounds(c) ==> (after.at(c).has(e) <==> grid.at(c).has(e) || (c == from
                    && e == d) || (c == to && e == d.opposite_spec()))
        },
        !(grid.in_bounds(from) && neighbor_in(grid, from, d) is Some) ==> make_open_spec(
            grid,
            from,
            d,
        ) == grid.cells,
{
    let after = grid.with_cells(make_open_spec(grid, from, d));
    if grid.in_bounds(from) && neighbor_in(grid, from, d) is Some {
        let to = neighbor_in(grid, from, d).unwrap();
        let back = d.opposite_spec();
        lemma_neighbor_is_elsewhere(grid, from, d);
        lemma_index_coord_inverse(grid, from, 0);
        lemma_index_coord_inverse(grid, to, 0);
        let i = grid.index_of(from);
        let j = grid.index_of(to);
        assert forall|c: Coord, e: Direction|
            #![trigger after.at(c).has(e)]
            grid.in_bounds(c) implies (after.at(c).has(e) <==> grid.at(c).has(e) || (c == from && e
            == d) || (c == to && e == back)) by {
            lemma_index_coord_inverse(grid, c, 0);
            let k = grid.index_of(c);
            if k == i {
                lemma_index_injective(grid, c, from);
                lemma_or_mask(grid.cells[i].bits, d.mask(), e.mask());
                lemma_masks_disjoint(d, e);
            } else if k == j {
                lemma_index_injective(grid, c, to);
                lemma_or_mask(grid.cells[j].bits, back.mask(), e.mask());
                lemma_masks_disjoint(back, e);
            }
        }
        assert(after.at(from).has(d));
        assert(after.at(to).has(back));
    }
}

/// Opening the same passage a second time changes nothing.
pub proof fn lemma_make_open_idempotent(grid: MazeView, from: Coord, d: Direction)
    requires
        grid.wf(),
    ensures
        make_open_spec(grid.with_cells(make_open_spec(grid, from, d)), from, d) == make_open_spec(
            grid,
            from,
            d,
        ),
{
    let after = grid.with_cells(make_open_spec(grid, from, d));
    assert(neighbor_in(after, from, d) == neighbor_in(grid, from, d));
    if grid.in_bounds(from) && neighbor_in(grid, from, d) is Some {
        let to = neighbor_in(grid, from, d).unwrap();
        let back = d.opposite_spec();
        lemma_neighbor_is_elsewhere(grid, from, d);
        lemma_index_coord_inverse(grid, from, 0);
        lemma_index_coord_inverse(grid, to, 0);
        let i = grid.index_of(from);
        let j = grid.index_of(to);
        lemma_or_mask(grid.cells[i].bits, d.mask(), d.mask());
        lemma_or_mask(grid.cells[j].bits, back.mask(), back.mask());
        assert(make_open_spec(after, from, d) =~= make_open_spec(grid, from, d));
    } else {
        assert(make_open_spec(after, from, d) =~= make_open_spec(grid, from, d));
    }
}

/// Opening a passage keeps the openings of a maze paired.
pub proof fn lemma_make_open_keeps_symmetry(grid: MazeView, from: Coord, d: Direction)
    requires
        grid.wf(),
        symmetric(grid),
    ensures
        symmetric(grid.with_cells(make_open_spec(grid, from, d))),
{
    let after = grid.with_cells(make_open_spec(grid, from, d));
    lemma_make_open(grid, from, d);
    if grid.in_bounds(from) && neighbor_in(grid, from, d) is Some {
        let to = neighbor_in(grid, from, d).unwrap();
        lemma_neighbor_is_elsewhere(grid, from, d);
        lemma_opposite_involution(d);
        assert forall|c: Coord, e: Direction|
            #![trigger after.at(c).has(e)]
            after.in_bounds(c) && e.is_cardinal() && after.at(c).has(e) && neighbor_in(after, c, e)
                is Some implies after.at(neighbor_in(after, c, e).unwrap()).has(
            e.opposite_spec(),
        ) by {
            let n = neighbor_in(after, c, e).unwrap();
            assert(neighbor_in(grid, c, e) == Some(n));
            if c == from && e == d {
                assert(after.at(to).has(d.opposite_spec()));
            } else if c == to && e == d.opposite_spec() {
                assert(after.at(from).has(d));
            } else {
                assert(grid.at(c).has(e));
                assert(grid.at(n).has(e.opposite_spec()));
                assert(after.at(n).has(e.opposite_spec()));
            }
        }
    } else {
        assert(after =~= grid);
    }
}

} // verus!
