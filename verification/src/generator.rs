//! The growing-tree maze builder.
//!
//! The builder keeps a list of active cells. It picks one of them, carves
//! a passage from it to a neighbour that no passage has reached yet, and
//! retires the cell once it has no such neighbour left. What remains when
//! the list runs empty is a perfect maze: all cells, one way between any
//! two of them.

use crate::counting::{
    count_filled, count_passages, filled_weight, lemma_count_filled_bound, lemma_tally_uniform,
    lemma_tally_update, passage_weight,
};
use crate::direction::{
    lemma_empty_iff_zero, lemma_masks_disjoint, lemma_opposite_involution, lemma_or_mask,
    Direction, DirectionBits,
};
use crate::grid::{lemma_index_coord_inverse, neighbor_coord, Coord, Grid, GridView};
use crate::maze::{
    closed, lemma_make_open, lemma_make_open_keeps_symmetry, lemma_neighbor_is_elsewhere,
    make_open_spec, neighbor_in, opened, step_spec, symmetric, DirectionGrid, MazeView,
};
use crate::random::{
    choice_weights, gen_below, gen_up_to, sample_choice, shuffle_directions, weighted_choice,
};
use crate::walks::{
    connected, extends, lemma_flood, lemma_reachable_monotone, lemma_reachable_self,
    lemma_reachable_step, lemma_reachable_symmetric, lemma_reachable_trans, linked, reachable,
};
use rand::rngs::SmallRng;
use vstd::prelude::*;

verus! {

/// How the builder picks the next cell to work on.
#[derive(Copy, Clone, Debug, PartialEq, Eq, Structural)]
pub enum Selector {
    Random,
    Newest,
    Middle,
    Oldest,
}

impl Selector {
    /// The index that the strategy picks among the indices `0..=ceil`.
    pub fn select(self, r: &mut SmallRng, ceil: usize) -> (index: usize)
        ensures
            index <= ceil,
            self == Selector::Newest ==> index == ceil,
            self == Selector::Middle ==> index == ceil / 2,
            self == Selector::Oldest ==> index == 0,
    {
        match self {
            Selector::Random => gen_up_to(r, ceil),
            Selector::Newest => ceil,
            Selector::Middle => ceil / 2,
            Selector::Oldest => 0,
        }
    }
}

/// How often each strategy is to be used, relative to the others.
#[derive(Copy, Clone, Debug, PartialEq, Eq, Structural)]
pub struct Weights {
    pub random: u32,
    pub newest: u32,
    pub middle: u32,
    pub oldest: u32,
}

impl Weights {
    /// No strategy has any weight.
    pub open spec fn all_zero(self) -> bool {
        self.random == 0 && self.newest == 0 && self.middle == 0 && self.oldest == 0
    }

    /// The weight of `selector`.
    pub open spec fn of(self, selector: Selector) -> u32 {
        match selector {
            Selector::Random => self.random,
            Selector::Newest => self.newest,
            Selector::Middle => self.middle,
            Selector::Oldest => self.oldest,
        }
    }
}

impl Default for Weights {
    fn default() -> (weights: Weights)
        ensures
            weights.all_zero(),
    {
        Weights { random: 0, newest: 0, middle: 0, oldest: 0 }
    }
}

/// Why no maze was built.
#[derive(Copy, Clone, Debug, PartialEq, Eq, Structural)]
pub enum MazeError {
    /// Every strategy has weight zero.
    AllWeightsZero,
    /// The grid has no cell.
    EmptyGrid,
}

/// A perfect maze: the openings are cardinal, paired and stay inside the
/// grid; every cell is reached from every other; and there is one passage
/// less than there are cells, so that no two walks between the same cells
/// differ. With more than one cell, every cell has an opening.
pub open spec fn perfect(grid: MazeView) -> bool {
    &&& grid.wf()
    &&& grid.cells.len() > 0
    &&& cardinal_only(grid)
    &&& closed(grid)
    &&& symmetric(grid)
    &&& connected(grid)
    &&& count_passages(grid.cells) + 1 == grid.cells.len()
    &&& grid.cells.len() > 1 ==> forall|i: int|
        0 <= i < grid.cells.len() ==> (#[trigger] grid.cells[i]).bits != 0
}

/// No cell has a corner marked.
pub open spec fn cardinal_only(grid: MazeView) -> bool {
    forall|c: Coord, d: Direction|
        #![trigger grid.at(c).has(d)]
        grid.in_bounds(c) && grid.at(c).has(d) ==> d.is_cardinal()
}

/// The cell at `c` has an opening.
pub open spec fn filled(grid: MazeView, c: Coord) -> bool {
    grid.at(c).bits != 0
}

/// What holds while a maze grows from `start` with the cells `active` still
/// to be worked on; `carved` says whether a passage exists yet.
pub open spec fn growing(grid: MazeView, active: Seq<Coord>, start: Coord, carved: bool) -> bool {
    &&& grid.wf()
    &&& grid.in_bounds(start)
    &&& cardinal_only(grid)
    &&& closed(grid)
    &&& symmetric(grid)
    &&& forall|k: int| 0 <= k < active.len() ==> grid.in_bounds(#[trigger] active[k])
    &&& !carved ==> {
        &&& forall|i: int| 0 <= i < grid.cells.len() ==> (#[trigger] grid.cells[i]).bits == 0
        &&& (active == seq![start] || (active.len() == 0 && grid.cells.len() == 1))
    }
    &&& carved ==> {
        &&& forall|k: int| 0 <= k < active.len() ==> filled(grid, #[trigger] active[k])
        &&& forall|c: Coord, d: Direction|
            #![trigger neighbor_in(grid, c, d)]
            grid.in_bounds(c) && filled(grid, c) && d.is_cardinal() && neighbor_in(grid, c, d)
                is Some && !filled(grid, neighbor_in(grid, c, d).unwrap()) ==> active.contains(c)
        &&& forall|c: Coord|
            grid.in_bounds(c) && #[trigger] filled(grid, c) ==> reachable(grid, start, c)
        &&& filled(grid, start)
        &&& count_passages(grid.cells) + 1 == count_filled(grid.cells)
    }
}

/// The first of `directions` that leads from `cell` to a cell without any
/// opening, with its position among the directions and the cell it leads to.
pub open spec fn is_first_unvisited(
    grid: MazeView,
    cell: Coord,
    directions: Seq<Direction>,
    k: int,
    next: Coord,
) -> bool {
    &&& 0 <= k < directions.len()
    &&& neighbor_in(grid, cell, directions[k]) == Some(next)
    &&& !filled(grid, next)
    &&& forall|j: int| 0 <= j < k ==> !leads_to_unvisited(grid, cell, #[trigger] directions[j])
}

/// The neighbour of `cell` in direction `d` lies in the grid and has no
/// opening yet.
pub open spec fn leads_to_unvisited(grid: MazeView, cell: Coord, d: Direction) -> bool {
    neighbor_in(grid, cell, d) is Some && !filled(grid, neighbor_in(grid, cell, d).unwrap())
}

/// Scans `directions` in order for the first that leads from `cell` to a
/// cell of the grid that no passage has reached.
pub fn first_unvisited(grid: &DirectionGrid, cell: Coord, directions: &[Direction; 4]) -> (found:
    Option<(usize, Coord)>)
    requires
        grid.wf(),
    ensures
        match found {
            Some((k, next)) => is_first_unvisited(grid@, cell, directions@, k as int, next),
            None => forall|j: int|
                0 <= j < 4 ==> !leads_to_unvisited(grid@, cell, #[trigger] directions@[j]),
        },
{
    let mut k: usize = 0;
    while k < 4
        invariant
            grid.wf(),
            k <= 4,
            forall|j: int| 0 <= j < k ==> !leads_to_unvisited(grid@, cell, #[trigger] directions@[j]),
        decreases 4 - k,
    {
        let direction = directions[k];
        match neighbor_coord(cell, direction) {
            Ok(next) => {
                match grid.checked_coord_to_index(next) {
                    Some(j) => {
                        if grid.data[j].is_empty() {
                            return Some((k, next));
                        }
                    },
                    None => {},
                }
            },
            Err(_) => {},
        }
        k = k + 1;
    }
    None
}

/// A grid of `area` cells without any opening.
fn blank_cells(area: usize) -> (cells: Vec<DirectionBits>)
    ensures
        cells.len() == area,
        forall|i: int| 0 <= i < area ==> (#[trigger] cells[i]).bits == 0,
{
    let mut cells: Vec<DirectionBits> = Vec::new();
    while cells.len() < area
        invariant
            cells.len() <= area,
            forall|i: int| 0 <= i < cells.len() ==> (#[trigger] cells[i]).bits == 0,
        decreases area - cells.len(),
    {
        cells.push(DirectionBits::empty());
    }
    cells
}

/// A shuffled copy of the four cardinals holds each of them, and nothing
/// else.
pub proof fn lemma_shuffled_cardinals(directions: Seq<Direction>)
    requires
        directions.to_multiset() == Direction::cardinal_seq().to_multiset(),
    ensures
        directions.len() == 4,
        forall|j: int| 0 <= j < 4 ==> (#[trigger] directions[j]).is_cardinal(),
        forall|d: Direction| d.is_cardinal() ==> directions.contains(d),
{
    let cardinals = Direction::cardinal_seq();
    vstd::seq_lib::to_multiset_len(directions);
    vstd::seq_lib::to_multiset_len(cardinals);
    assert forall|j: int| 0 <= j < 4 implies (#[trigger] directions[j]).is_cardinal() by {
        let d = directions[j];
        assert(directions.contains(d));
        vstd::seq_lib::to_multiset_contains(directions, d);
        vstd::seq_lib::to_multiset_contains(cardinals, d);
        let k = choose|k: int| 0 <= k < cardinals.len() && cardinals[k] == d;
        assert(cardinals[k].is_cardinal());
    }
    assert forall|d: Direction| d.is_cardinal() implies directions.contains(d) by {
        assert(cardinals[0] == Direction::N && cardinals[1] == Direction::E && cardinals[2]
            == Direction::S && cardinals[3] == Direction::W);
        assert(cardinals.contains(d));
        vstd::seq_lib::to_multiset_contains(directions, d);
        vstd::seq_lib::to_multiset_contains(cardinals, d);
    }
}

/// A cell with an opening has a direction set, and the other way round.
pub proof fn lemma_filled_has(cell: DirectionBits)
    ensures
        cell.bits != 0 <==> exists|d: Direction| cell.has(d),
{
    lemma_empty_iff_zero(cell);
}

/// A passage can be carved from the `index`-th active cell in direction
/// `d`: it leads to the cell `next`, which has no opening.
pub open spec fn carve_ready(
    grid: MazeView,
    active: Seq<Coord>,
    start: Coord,
    carved: bool,
    index: int,
    d: Direction,
    next: Coord,
) -> bool {
    &&& growing(grid, active, start, carved)
    &&& 0 <= index < active.len()
    &&& d.is_cardinal()
    &&& neighbor_in(grid, active[index], d) == Some(next)
    &&& !filled(grid, next)
}

/// The maze after the passage from `cur` towards `d` has been carved.
pub open spec fn carved_maze(grid: MazeView, cur: Coord, d: Direction) -> MazeView {
    grid.with_cells(make_open_spec(grid, cur, d))
}

/// What carving does to the cells: the two ends of the passage have an
/// opening, no cell loses one, the other cells are untouched, and the
/// openings stay cardinal, paired and inside the grid.
pub proof fn lemma_carve_cells(
    grid: MazeView,
    active: Seq<Coord>,
    start: Coord,
    carved: bool,
    index: int,
    d: Direction,
    next: Coord,
)
    requires
        carve_ready(grid, active, start, carved, index, d, next),
    ensures
        ({
            let cur = active[index];
            let after = carved_maze(grid, cur, d);
            &&& after.wf()
            &&& after.cells.len() == grid.cells.len()
            &&& cur != next
            &&& filled(after, cur)
            &&& filled(after, next)
            &&& forall|c: Coord|
                grid.in_bounds(c) && filled(grid, c) ==> #[trigger] filled(after, c)
            &&& forall|c: Coord|
                grid.in_bounds(c) && c != cur && c != next ==> #[trigger] after.at(c) == grid.at(c)
            &&& cardinal_only(after)
            &&& closed(after)
            &&& symmetric(after)
            &&& extends(grid, after)
            &&& step_spec(after, cur, d) == Some(next)
            &&& !grid.at(cur).has(d)
            &&& !carved ==> cur == start && forall|c: Coord|
                grid.in_bounds(c) ==> !#[trigger] filled(grid, c)
        }),
{
    let cur = active[index];
    let back = d.opposite_spec();
    let after = carved_maze(grid, cur, d);
    lemma_make_open(grid, cur, d);
    lemma_make_open_keeps_symmetry(grid, cur, d);
    lemma_neighbor_is_elsewhere(grid, cur, d);
    lemma_opposite_involution(d);
    assert(after.at(cur).has(d));
    assert(after.at(next).has(back));
    lemma_filled_has(after.at(cur));
    lemma_filled_has(after.at(next));
    assert forall|c: Coord| grid.in_bounds(c) && filled(grid, c) implies #[trigger] filled(
        after,
        c,
    ) by {
        lemma_filled_has(grid.at(c));
        lemma_filled_has(after.at(c));
        let e = choose|e: Direction| grid.at(c).has(e);
        assert(after.at(c).has(e));
    }
    assert forall|c: Coord| grid.in_bounds(c) && c != cur && c != next implies #[trigger] after.at(
        c,
    ) == grid.at(c) by {
        lemma_index_coord_inverse(grid, c, 0);
        lemma_index_coord_inverse(grid, cur, 0);
        lemma_index_coord_inverse(grid, next, 0);
        if grid.index_of(c) == grid.index_of(cur) {
            crate::grid::lemma_index_injective(grid, c, cur);
        }
        if grid.index_of(c) == grid.index_of(next) {
            crate::grid::lemma_index_injective(grid, c, next);
        }
    }
    assert(cardinal_only(after)) by {
        assert forall|c: Coord, e: Direction|
            #![trigger after.at(c).has(e)]
            after.in_bounds(c) && after.at(c).has(e) implies e.is_cardinal() by {
            if !grid.at(c).has(e) {
                assert(e == d || e == back);
            }
        }
    }
    assert(closed(after)) by {
        assert forall|c: Coord, e: Direction|
            #![trigger after.at(c).has(e)]
            after.in_bounds(c) && e.is_cardinal() && after.at(c).has(e) implies neighbor_in(
            after,
            c,
            e,
        ) is Some by {
            assert(neighbor_in(after, c, e) == neighbor_in(grid, c, e));
            if !grid.at(c).has(e) {
                assert((c == cur && e == d) || (c == next && e == back));
            }
        }
    }
    assert(!grid.at(cur).has(d)) by {
        if grid.at(cur).has(d) {
            assert(grid.at(next).has(back));
            lemma_filled_has(grid.at(next));
        }
    }
    if !carved {
        assert(active[0] == start);
        assert forall|c: Coord| grid.in_bounds(c) implies !#[trigger] filled(grid, c) by {
            lemma_index_coord_inverse(grid, c, 0);
        }
    }
}

/// After carving, every cell with an opening is reached from the start.
pub proof fn lemma_carve_reach(
    grid: MazeView,
    active: Seq<Coord>,
    start: Coord,
    carved: bool,
    index: int,
    d: Direction,
    next: Coord,
)
    requires
        carve_ready(grid, active, start, carved, index, d, next),
    ensures
        forall|c: Coord|
            grid.in_bounds(c) && #[trigger] filled(carved_maze(grid, active[index], d), c)
                ==> reachable(carved_maze(grid, active[index], d), start, c),
{
    let cur = active[index];
    let after = carved_maze(grid, cur, d);
    lemma_carve_cells(grid, active, start, carved, index, d, next);
    assert(reachable(after, start, cur)) by {
        if carved {
            assert(filled(grid, active[index]));
            lemma_reachable_monotone(grid, after, start, cur);
        } else {
            lemma_reachable_self(after, cur);
        }
    }
    assert(linked(after, cur, next));
    lemma_reachable_step(after, start, cur, next);
    assert forall|c: Coord| grid.in_bounds(c) && #[trigger] filled(after, c) implies reachable(
        after,
        start,
        c,
    ) by {
        if c != cur && c != next {
            assert(after.at(c) == grid.at(c));
            assert(filled(grid, c));
            lemma_reachable_monotone(grid, after, start, c);
        }
    }
}

/// After carving, the active cells with the new one among them lie in the
/// grid, have an opening, and hold every cell with an opening next to a
/// cell without.
pub proof fn lemma_carve_frontier(
    grid: MazeView,
    active: Seq<Coord>,
    start: Coord,
    carved: bool,
    index: int,
    d: Direction,
    next: Coord,
)
    requires
        carve_ready(grid, active, start, carved, index, d, next),
    ensures
        ({
            let after = carved_maze(grid, active[index], d);
            let more = active.push(next);
            &&& forall|k: int| 0 <= k < more.len() ==> grid.in_bounds(#[trigger] more[k])
            &&& forall|k: int| 0 <= k < more.len() ==> filled(after, #[trigger] more[k])
            &&& forall|c: Coord, e: Direction|
                #![trigger neighbor_in(after, c, e)]
                after.in_bounds(c) && filled(after, c) && e.is_cardinal() && neighbor_in(
                    after,
                    c,
                    e,
                ) is Some && !filled(after, neighbor_in(after, c, e).unwrap()) ==> more.contains(c)
        }),
{
    let cur = active[index];
    let after = carved_maze(grid, cur, d);
    let more = active.push(next);
    lemma_carve_cells(grid, active, start, carved, index, d, next);
    assert forall|k: int| 0 <= k < more.len() implies grid.in_bounds(#[trigger] more[k]) by {
        if k < active.len() {
            assert(more[k] == active[k]);
        }
    }
    assert forall|k: int| 0 <= k < more.len() implies filled(after, #[trigger] more[k]) by {
        if k < active.len() {
            assert(more[k] == active[k]);
            if carved {
                assert(filled(grid, active[k]));
            }
        }
    }
    assert forall|c: Coord, e: Direction|
        #![trigger neighbor_in(after, c, e)]
        after.in_bounds(c) && filled(after, c) && e.is_cardinal() && neighbor_in(after, c, e)
            is Some && !filled(after, neighbor_in(after, c, e).unwrap()) implies more.contains(
        c,
    ) by {
        let n = neighbor_in(after, c, e).unwrap();
        assert(neighbor_in(grid, c, e) == Some(n));
        assert(!filled(grid, n));
        if c == next {
            assert(more[active.len() as int] == c);
        } else if c == cur {
            assert(more[index] == c);
        } else {
            assert(after.at(c) == grid.at(c));
            assert(filled(grid, c));
            assert(active.contains(c));
            let k = choose|k: int| 0 <= k < active.len() && active[k] == c;
            assert(more[k] == c);
        }
    }
}

/// Carving adds one passage. It adds one cell with an opening, or two the
/// first time, so that there stays one passage less than such cells.
pub proof fn lemma_carve_counts(
    grid: MazeView,
    active: Seq<Coord>,
    start: Coord,
    carved: bool,
    index: int,
    d: Direction,
    next: Coord,
)
    requires
        carve_ready(grid, active, start, carved, index, d, next),
    ensures
        ({
            let after = make_open_spec(grid, active[index], d);
            &&& count_passages(after) + 1 == count_filled(after)
            &&& count_filled(after) > count_filled(grid.cells)
        }),
{
    let cur = active[index];
    let back = d.opposite_spec();
    let after = carved_maze(grid, cur, d);
    lemma_carve_cells(grid, active, start, carved, index, d, next);
    lemma_neighbor_is_elsewhere(grid, cur, d);
    lemma_index_coord_inverse(grid, cur, 0);
    lemma_index_coord_inverse(grid, next, 0);
    let i = grid.index_of(cur);
    let j = grid.index_of(next);
    let here = opened(grid.cells[i], d);
    let there = opened(grid.cells[j], back);
    let first = grid.cells.update(i, here);
    assert(first[j] == grid.cells[j]);
    assert(after.cells == first.update(j, there));
    lemma_filled_has(grid.cells[j]);
    lemma_filled_has(here);
    lemma_filled_has(there);
    assert forall|e: Direction| #[trigger] here.has(e) == (grid.cells[i].has(e) || e == d) by {
        lemma_or_mask(grid.cells[i].bits, d.mask(), e.mask());
        lemma_masks_disjoint(d, e);
    }
    assert forall|e: Direction| #[trigger] there.has(e) == (e == back) by {
        lemma_or_mask(grid.cells[j].bits, back.mask(), e.mask());
        lemma_masks_disjoint(back, e);
    }
    assert(here.has(d));
    assert(there.has(back));
    let owned: nat = if d == Direction::E || d == Direction::S {
        1
    } else {
        0
    };
    assert(!grid.cells[i].has(d));
    assert(passage_weight()(here) == passage_weight()(grid.cells[i]) + owned);
    assert(passage_weight()(there) == 1 - owned);
    assert(passage_weight()(grid.cells[j]) == 0);
    lemma_tally_update(grid.cells, passage_weight(), i, here);
    lemma_tally_update(first, passage_weight(), j, there);
    lemma_tally_update(grid.cells, filled_weight(), i, here);
    lemma_tally_update(first, filled_weight(), j, there);
    assert(filled_weight()(here) == 1);
    assert(filled_weight()(there) == 1);
    assert(filled_weight()(grid.cells[j]) == 0);
    assert(count_passages(after.cells) == count_passages(grid.cells) + 1);
    if carved {
        assert(filled(grid, active[index]));
        assert(filled_weight()(grid.cells[i]) == 1);
        assert(count_filled(after.cells) == count_filled(grid.cells) + 1);
    } else {
        assert forall|k: int| 0 <= k < grid.cells.len() implies passage_weight()(
            #[trigger] grid.cells[k],
        ) == 0 by {
            lemma_filled_has(grid.cells[k]);
        }
        lemma_tally_uniform(grid.cells, passage_weight(), 0);
        lemma_tally_uniform(grid.cells, filled_weight(), 0);
        assert(filled_weight()(grid.cells[i]) == 0);
        assert(count_filled(after.cells) == 2);
        assert(count_passages(after.cells) == 1);
    }
}

/// Carving a passage from an active cell to a neighbour without opening
/// keeps the maze growing, with the neighbour as a new active cell, and
/// leaves fewer cells without opening.
pub proof fn lemma_growing_carve(
    grid: MazeView,
    active: Seq<Coord>,
    start: Coord,
    carved: bool,
    index: int,
    d: Direction,
    next: Coord,
)
    requires
        carve_ready(grid, active, start, carved, index, d, next),
    ensures
        growing(carved_maze(grid, active[index], d), active.push(next), start, true),
        make_open_spec(grid, active[index], d).len() == grid.cells.len(),
        count_filled(make_open_spec(grid, active[index], d)) > count_filled(grid.cells),
{
    lemma_carve_cells(grid, active, start, carved, index, d, next);
    lemma_carve_reach(grid, active, start, carved, index, d, next);
    lemma_carve_frontier(grid, active, start, carved, index, d, next);
    lemma_carve_counts(grid, active, start, carved, index, d, next);
    let after = carved_maze(grid, active[index], d);
    assert(filled(after, start)) by {
        if carved {
            assert(filled(grid, start));
        }
    }
}

/// Retiring an active cell that has no neighbour without opening keeps the
/// maze growing.
pub proof fn lemma_growing_retire(
    grid: MazeView,
    active: Seq<Coord>,
    start: Coord,
    carved: bool,
    index: int,
)
    requires
        growing(grid, active, start, carved),
        0 <= index < active.len(),
        forall|d: Direction|
            d.is_cardinal() ==> !#[trigger] leads_to_unvisited(grid, active[index], d),
    ensures
        growing(grid, active.remove(index), start, carved),
{
    let cur = active[index];
    let rest = active.remove(index);
    assert forall|k: int| 0 <= k < rest.len() implies grid.in_bounds(#[trigger] rest[k]) by {
        if k < index {
            assert(rest[k] == active[k]);
        } else {
            assert(rest[k] == active[k + 1]);
        }
    }
    if carved {
        assert forall|k: int| 0 <= k < rest.len() implies filled(grid, #[trigger] rest[k]) by {
            if k < index {
                assert(rest[k] == active[k]);
            } else {
                assert(rest[k] == active[k + 1]);
            }
        }
        assert forall|c: Coord, d: Direction|
            #![trigger neighbor_in(grid, c, d)]
            grid.in_bounds(c) && filled(grid, c) && d.is_cardinal() && neighbor_in(grid, c, d)
                is Some && !filled(grid, neighbor_in(grid, c, d).unwrap()) implies rest.contains(
            c,
        ) by {
            assert(active.contains(c));
            let k = choose|k: int| 0 <= k < active.len() && active[k] == c;
            if c == cur {
                assert(leads_to_unvisited(grid, cur, d));
            }
            if k < index {
                assert(rest[k] == c);
            } else {
                assert(rest[k - 1] == c);
            }
        }
    } else {
        assert(active[0] == start);
        assert(rest.len() == 0);
        assert forall|d: Direction| d.is_cardinal() implies (#[trigger] neighbor_in(
            grid,
            start,
            d,
        )) is None by {
            if neighbor_in(grid, start, d) is Some {
                let n = neighbor_in(grid, start, d).unwrap();
                lemma_index_coord_inverse(grid, n, 0);
                assert(!filled(grid, n));
                assert(leads_to_unvisited(grid, start, d));
            }
        }
        assert(neighbor_in(grid, start, Direction::E) is None);
        assert(neighbor_in(grid, start, Direction::W) is None);
        assert(neighbor_in(grid, start, Direction::S) is None);
        assert(neighbor_in(grid, start, Direction::N) is None);
        assert(grid.width == 1 && grid.height == 1);
        assert(grid.cells.len() == 1) by (nonlinear_arith)
            requires
                grid.cells.len() == grid.width * grid.height,
                grid.width == 1,
                grid.height == 1,
        ;
    }
}

/// A maze that has grown until no cell is active is perfect.
pub proof fn lemma_growing_done(grid: MazeView, start: Coord, carved: bool)
    requires
        growing(grid, Seq::<Coord>::empty(), start, carved),
    ensures
        perfect(grid),
{
    lemma_index_coord_inverse(grid, start, 0);
    if carved {
        let known = Set::new(|c: Coord| grid.in_bounds(c) && filled(grid, c));
        assert forall|c: Coord, d: Direction|
            #![trigger neighbor_in(grid, c, d)]
            grid.in_bounds(c) && known.contains(c) && d.is_cardinal() && neighbor_in(grid, c, d)
                is Some implies known.contains(neighbor_in(grid, c, d).unwrap()) by {
            let n = neighbor_in(grid, c, d).unwrap();
            if !filled(grid, n) {
                assert(Seq::<Coord>::empty().contains(c));
                assert(false);
            }
        }
        assert forall|i: int| 0 <= i < grid.cells.len() implies (#[trigger] grid.cells[i]).bits
            != 0 by {
            lemma_index_coord_inverse(grid, start, i);
            let c = crate::grid::coord_at(i, grid.width as int);
            assert(grid.in_bounds(c));
            lemma_flood(grid, known, start, c);
            assert(grid.index_of(c) == i);
        }
        lemma_tally_uniform(grid.cells, filled_weight(), 1);
        assert(1 * grid.cells.len() == grid.cells.len()) by (nonlinear_arith);
        assert forall|a: Coord, b: Coord| grid.in_bounds(a) && grid.in_bounds(b) implies #[trigger]
            reachable(grid, a, b) by {
            lemma_index_coord_inverse(grid, a, 0);
            lemma_index_coord_inverse(grid, b, 0);
            assert(filled(grid, a) && filled(grid, b));
            lemma_reachable_symmetric(grid, start, a);
            lemma_reachable_trans(grid, a, start, b);
        }
    } else {
        assert(seq![start].len() == 1);
        assert(grid.cells.len() == 1);
        assert(grid.width == 1 && grid.height == 1) by (nonlinear_arith)
            requires
                grid.width * grid.height == 1,
        ;
        assert forall|k: int| 0 <= k < grid.cells.len() implies passage_weight()(
            #[trigger] grid.cells[k],
        ) == 0 by {
            lemma_filled_has(grid.cells[k]);
        }
        lemma_tally_uniform(grid.cells, passage_weight(), 0);
        assert forall|a: Coord, b: Coord| grid.in_bounds(a) && grid.in_bounds(b) implies #[trigger]
            reachable(grid, a, b) by {
            assert(a == b);
            lemma_reachable_self(grid, a);
        }
    }
}

/// Builds a perfect maze of `width` by `height` cells.
///
/// A first cell is drawn at random and made active. As long as a cell is
/// active, a strategy is drawn by the weights and picks one of the active
/// cells; the cardinals are shuffled and scanned for the first neighbour
/// that no passage has reached; the passage to it is carved and the
/// neighbour made active, or, where there is no such neighbour, the cell
/// is retired.
///
/// Weights that are all zero are reported as `AllWeightsZero`, and a grid
/// without cells as `EmptyGrid`.
pub fn growing_tree(width: usize, height: usize, weights: Weights, rng: &mut SmallRng) -> (r:
    Result<Vec<DirectionBits>, MazeError>)
    requires
        width * height <= usize::MAX,
    ensures
        r is Err <==> weights.all_zero() || width == 0 || height == 0,
        r matches Err(e) ==> e == if weights.all_zero() {
            MazeError::AllWeightsZero
        } else {
            MazeError::EmptyGrid
        },
        r matches Ok(cells) ==> perfect(
            GridView { cells: cells@, width: width as nat, height: height as nat },
        ),
{
    let choices = [Selector::Random, Selector::Newest, Selector::Middle, Selector::Oldest];
    let dist = match weighted_choice(
        [weights.random as u64, weights.newest as u64, weights.middle as u64, weights.oldest as u64],
    ) {
        Ok(dist) => dist,
        Err(_) => {
            return Err(MazeError::AllWeightsZero);
        },
    };
    if width == 0 || height == 0 {
        return Err(MazeError::EmptyGrid);
    }
    let area: usize = width * height;
    let start: Coord = (gen_below(rng, width), gen_below(rng, height));
    let mut cells: Vec<Coord> = Vec::new();
    cells.push(start);
    let mut grid = Grid { data: blank_cells(area), width, height };
    let mut cardinal_directions = Direction::cardinals();
    let ghost mut carved = false;
    proof {
        assert(cells@ == seq![start]);
        assert forall|c: Coord, d: Direction|
            #![trigger grid@.at(c).has(d)]
            grid@.in_bounds(c) implies !grid@.at(c).has(d) by {
            lemma_index_coord_inverse(grid@, c, 0);
            lemma_filled_has(grid@.at(c));
        }
    }
    while cells.len() > 0
        invariant
            grid.width == width,
            grid.height == height,
            growing(grid@, cells@, start, carved),
            choice_weights(dist).len() == 4,
            cardinal_directions@.to_multiset() == Direction::cardinal_seq().to_multiset(),
        decreases grid.data.len() - count_filled(grid.data@), cells.len(),
    {
        let selector = choices[sample_choice(&dist, rng)];
        let index = selector.select(rng, cells.len() - 1);
        let cell = cells[index];
        shuffle_directions(&mut cardinal_directions, rng);
        proof {
            lemma_shuffled_cardinals(cardinal_directions@);
            lemma_count_filled_bound(grid.data@);
        }
        match first_unvisited(&grid, cell, &cardinal_directions) {
            Some((k, next)) => {
                let direction = cardinal_directions[k];
                let ghost before = grid@;
                proof {
                    lemma_growing_carve(before, cells@, start, carved, index as int, direction, next);
                }
                grid.make_open(cell, direction);
                cells.push(next);
                proof {
                    carved = true;
                    assert(grid@ =~= before.with_cells(make_open_spec(before, cell, direction)));
                    lemma_count_filled_bound(grid.data@);
                }
            },
            None => {
                proof {
                    assert forall|d: Direction| d.is_cardinal() implies !#[trigger] leads_to_unvisited(
                        grid@,
                        cell,
                        d,
                    ) by {
                        assert(cardinal_directions@.contains(d));
                        let j = choose|j: int|
                            0 <= j < cardinal_directions@.len() && cardinal_directions@[j] == d;
                        assert(!leads_to_unvisited(grid@, cell, cardinal_directions@[j]));
                    }
                    lemma_growing_retire(grid@, cells@, start, carved, index as int);
                }
                cells.remove(index);
            },
        }
    }
    proof {
        assert(cells@ =~= Seq::<Coord>::empty());
        lemma_growing_done(grid@, start, carved);
    }
    Ok(grid.data)
}

impl DirectionGrid {
    /// A fresh perfect maze of `width` by `height` cells, built with the
    /// random and the newest-first strategy at equal weight.
    pub fn new(width: usize, height: usize, rng: &mut SmallRng) -> (r: Result<
        DirectionGrid,
        MazeError,
    >)
        requires
            width * height <= usize::MAX,
        ensures
            r is Err <==> width == 0 || height == 0,
            r matches Err(e) ==> e == MazeError::EmptyGrid,
            r matches Ok(grid) ==> grid.width == width && grid.height == height && perfect(grid@),
    {
        let weights = Weights { random: 1, newest: 1, middle: 0, oldest: 0 };
        match growing_tree(width, height, weights, rng) {
            Ok(data) => Ok(Grid { data, width, height }),
            Err(e) => Err(e),
        }
    }
}

} // verus!
