//! Walks through a maze: which cells can be reached from which.

use crate::direction::{lemma_opposite_involution, Direction};
use crate::grid::{neighbor_spec, Coord};
use crate::maze::{lemma_neighbor_is_elsewhere, neighbor_in, step_spec, symmetric, MazeView};
use vstd::prelude::*;

verus! {

/// One cardinal move leads from `a` to `b`.
pub open spec fn linked(grid: MazeView, a: Coord, b: Coord) -> bool {
    exists|d: Direction| d.is_cardinal() && #[trigger] step_spec(grid, a, d) == Some(b)
}

/// The cell after the `i`-th one of `path` is one move away from it.
pub open spec fn walk_step(grid: MazeView, path: Seq<Coord>, i: int) -> bool {
    linked(grid, path[i], path[i + 1])
}

/// `path` starts on a cell of the maze and goes on by moves.
pub open spec fn is_walk(grid: MazeView, path: Seq<Coord>) -> bool {
    &&& path.len() > 0
    &&& grid.in_bounds(path[0])
    &&& forall|i: int| 0 <= i < path.len() - 1 ==> #[trigger] walk_step(grid, path, i)
}

/// `path` is a walk that leads from `a` to `b`.
pub open spec fn walk_between(grid: MazeView, path: Seq<Coord>, a: Coord, b: Coord) -> bool {
    is_walk(grid, path) && path[0] == a && path.last() == b
}

/// Some walk leads from `a` to `b`.
pub open spec fn reachable(grid: MazeView, a: Coord, b: Coord) -> bool {
    exists|path: Seq<Coord>| #[trigger] walk_between(grid, path, a, b)
}

/// Every cell of the maze can be reached from every other.
pub open spec fn connected(grid: MazeView) -> bool {
    forall|a: Coord, b: Coord|
        grid.in_bounds(a) && grid.in_bounds(b) ==> #[trigger] reachable(grid, a, b)
}

/// `after` has the shape of `before` and every opening of it.
pub open spec fn extends(before: MazeView, after: MazeView) -> bool {
    &&& after.width == before.width
    &&& after.height == before.height
    &&& forall|c: Coord, d: Direction|
        #![trigger after.at(c).has(d)]
        before.in_bounds(c) && before.at(c).has(d) ==> after.at(c).has(d)
}

/// Every cell of a walk lies in the maze.
pub proof fn lemma_walk_in_bounds(grid: MazeView, path: Seq<Coord>, i: int)
    requires
        is_walk(grid, path),
        0 <= i < path.len(),
    ensures
        grid.in_bounds(path[i]),
    decreases i,
{
    if i > 0 {
        lemma_walk_in_bounds(grid, path, i - 1);
        assert(walk_step(grid, path, i - 1));
    }
}

/// A cell of the maze is reached from itself.
pub proof fn lemma_reachable_self(grid: MazeView, a: Coord)
    requires
        grid.in_bounds(a),
    ensures
        reachable(grid, a, a),
{
    assert(walk_between(grid, seq![a], a, a));
}

/// A walk can be made one move longer.
pub proof fn lemma_reachable_step(grid: MazeView, a: Coord, b: Coord, c: Coord)
    requires
        reachable(grid, a, b),
        linked(grid, b, c),
    ensures
        reachable(grid, a, c),
{
    let path = choose|path: Seq<Coord>| #[trigger] walk_between(grid, path, a, b);
    let longer = path.push(c);
    assert forall|i: int| 0 <= i < longer.len() - 1 implies #[trigger] walk_step(
        grid,
        longer,
        i,
    ) by {
        if i < path.len() - 1 {
            assert(walk_step(grid, path, i));
        }
    }
    assert(walk_between(grid, longer, a, c));
}

/// Two walks that meet make one walk.
pub proof fn lemma_reachable_trans(grid: MazeView, a: Coord, b: Coord, c: Coord)
    requires
        reachable(grid, a, b),
        reachable(grid, b, c),
    ensures
        reachable(grid, a, c),
{
    let first = choose|path: Seq<Coord>| #[trigger] walk_between(grid, path, a, b);
    let second = choose|path: Seq<Coord>| #[trigger] walk_between(grid, path, b, c);
    lemma_append_walk(grid, a, b, second, second.len() - 1);
}

/// Whatever is reached from `a` stays reached along a walk that begins
/// where it was reached.
proof fn lemma_append_walk(grid: MazeView, a: Coord, b: Coord, tail: Seq<Coord>, upto: int)
    requires
        reachable(grid, a, b),
        is_walk(grid, tail),
        tail[0] == b,
        0 <= upto < tail.len(),
    ensures
        reachable(grid, a, tail[upto]),
    decreases upto,
{
    if upto > 0 {
        lemma_append_walk(grid, a, b, tail, upto - 1);
        assert(walk_step(grid, tail, upto - 1));
        lemma_reachable_step(grid, a, tail[upto - 1], tail[upto]);
    }
}

/// A move that a maze allows is allowed by every maze that extends it.
pub proof fn lemma_linked_monotone(before: MazeView, after: MazeView, a: Coord, b: Coord)
    requires
        extends(before, after),
        linked(before, a, b),
    ensures
        linked(after, a, b),
{
    let d = choose|d: Direction| d.is_cardinal() && #[trigger] step_spec(before, a, d) == Some(b);
    assert(after.at(a).has(d));
    assert(neighbor_in(after, a, d) == neighbor_in(before, a, d));
    assert(step_spec(after, a, d) == Some(b));
}

/// What is reached in a maze is reached in every maze that extends it.
pub proof fn lemma_reachable_monotone(before: MazeView, after: MazeView, a: Coord, b: Coord)
    requires
        extends(before, after),
        reachable(before, a, b),
    ensures
        reachable(after, a, b),
{
    let path = choose|path: Seq<Coord>| #[trigger] walk_between(before, path, a, b);
    assert forall|i: int| 0 <= i < path.len() - 1 implies #[trigger] walk_step(after, path, i) by {
        assert(walk_step(before, path, i));
        lemma_linked_monotone(before, after, path[i], path[i + 1]);
    }
    assert(walk_between(after, path, a, b));
}

/// In a maze with paired openings a move can be taken back.
pub proof fn lemma_linked_symmetric(grid: MazeView, a: Coord, b: Coord)
    requires
        grid.wf(),
        symmetric(grid),
        linked(grid, a, b),
    ensures
        linked(grid, b, a),
{
    let d = choose|d: Direction| d.is_cardinal() && #[trigger] step_spec(grid, a, d) == Some(b);
    lemma_neighbor_is_elsewhere(grid, a, d);
    lemma_opposite_involution(d);
    assert(grid.at(a).has(d));
    assert(grid.at(b).has(d.opposite_spec()));
    assert(step_spec(grid, b, d.opposite_spec()) == Some(a));
}

/// In a maze with paired openings a walk can be walked back.
pub proof fn lemma_reachable_symmetric(grid: MazeView, a: Coord, b: Coord)
    requires
        grid.wf(),
        symmetric(grid),
        reachable(grid, a, b),
    ensures
        reachable(grid, b, a),
{
    let path = choose|path: Seq<Coord>| #[trigger] walk_between(grid, path, a, b);
    lemma_walk_back(grid, path, path.len() - 1);
}

/// From the `upto`-th cell of a walk its first cell is reached.
proof fn lemma_walk_back(grid: MazeView, path: Seq<Coord>, upto: int)
    requires
        grid.wf(),
        symmetric(grid),
        is_walk(grid, path),
        0 <= upto < path.len(),
    ensures
        reachable(grid, path[upto], path[0]),
    decreases upto,
{
    if upto == 0 {
        lemma_reachable_self(grid, path[0]);
    } else {
        lemma_walk_back(grid, path, upto - 1);
        assert(walk_step(grid, path, upto - 1));
        lemma_linked_symmetric(grid, path[upto - 1], path[upto]);
        lemma_walk_in_bounds(grid, path, upto);
        lemma_reachable_self(grid, path[upto]);
        lemma_reachable_step(grid, path[upto], path[upto], path[upto - 1]);
        lemma_reachable_trans(grid, path[upto], path[upto - 1], path[0]);
    }
}

/// The distance between two cells when only cardinal steps are taken.
pub open spec fn manhattan(a: Coord, b: Coord) -> int {
    (if a.0 <= b.0 {
        b.0 - a.0
    } else {
        a.0 - b.0
    }) + (if a.1 <= b.1 {
        b.1 - a.1
    } else {
        a.1 - b.1
    })
}

/// A set of cells that holds one cell of the grid, and with every cell of
/// it the neighbours of that cell inside the grid, holds every cell of the
/// grid.
pub proof fn lemma_flood(grid: MazeView, known: Set<Coord>, seed: Coord, target: Coord)
    requires
        grid.in_bounds(seed),
        grid.in_bounds(target),
        known.contains(seed),
        forall|c: Coord, d: Direction|
            #![trigger neighbor_in(grid, c, d)]
            grid.in_bounds(c) && known.contains(c) && d.is_cardinal() && neighbor_in(grid, c, d)
                is Some ==> known.contains(neighbor_in(grid, c, d).unwrap()),
    ensures
        known.contains(target),
    decreases manhattan(seed, target),
{
    if seed != target {
        let d = if seed.0 < target.0 {
            Direction::E
        } else if seed.0 > target.0 {
            Direction::W
        } else if seed.1 < target.1 {
            Direction::S
        } else {
            Direction::N
        };
        assert(neighbor_spec(seed, d, 1) is Some);
        let next = neighbor_spec(seed, d, 1).unwrap();
        assert(grid.in_bounds(next));
        assert(neighbor_in(grid, seed, d) == Some(next));
        assert(manhattan(next, target) < manhattan(seed, target));
        lemma_flood(grid, known, next, target);
    }
}

} // verus!
