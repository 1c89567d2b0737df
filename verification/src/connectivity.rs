//! From a maze to its graph: the cells that can be reached from the origin
//! become the nodes, the passages that lead to them the edges.

use crate::direction::Direction;
use crate::graph::{
    adjacent, edge_key, edges_cover, graph_add_edge, graph_add_node, graph_adjacency, graph_contains_node,
    graph_edges, graph_with_capacity, is_path, joined, no_nodes, path_between, path_step, row,
    with_rows, Adjacency, Graph, CAPACITY_HINT,
};
use crate::grid::{all_cells, lemma_all_cells, Coord};
use crate::maze::{step_spec, DirectionGrid, MazeView};
use crate::walks::{
    lemma_reachable_self, lemma_reachable_step, lemma_walk_in_bounds, linked, reachable,
    walk_between, walk_step,
};
use vstd::prelude::*;

verus! {

/// The cell where the graph of a maze begins.
pub open spec fn origin() -> Coord {
    (0usize, 0usize)
}

/// The graph with the rows `adjacency` and the edges `edges` is the graph
/// of `maze`: its nodes are the cells that walks from the origin reach,
/// every edge lies along a passage and is seen from both ends, every node
/// is joined to the origin, and the edges are one fewer than the nodes, so
/// that the graph is a tree.
pub open spec fn charts(maze: MazeView, adjacency: Adjacency, edges: Seq<(Coord, Coord)>) -> bool {
    &&& adjacency.dom().finite()
    &&& forall|n: Coord|
        #![trigger adjacency.dom().contains(n)]
        #![trigger reachable(maze, origin(), n)]
        adjacency.dom().contains(n) <==> reachable(maze, origin(), n)
    &&& forall|a: Coord, b: Coord| #[trigger]
        adjacent(adjacency, a, b) ==> adjacent(adjacency, b, a) && (linked(maze, a, b) || linked(
            maze,
            b,
            a,
        ))
    &&& forall|n: Coord| adjacency.dom().contains(n) ==> #[trigger] joined(adjacency, origin(), n)
    &&& edges_cover(adjacency, edges)
    &&& if adjacency.dom().len() == 0 {
        edges.len() == 0
    } else {
        edges.len() + 1 == adjacency.dom().len()
    }
}

/// The `j`-th cardinal in the order of exploration.
pub open spec fn cardinal(j: int) -> Direction {
    Direction::cardinal_seq()[j]
}

/// Direction `j` of node `n` is settled: the node waits on the stack for
/// that direction to be explored, or the move in that direction, if there
/// is one, leads to a node of the graph.
pub open spec fn settled(
    maze: MazeView,
    adjacency: Adjacency,
    stack: Seq<(Coord, usize)>,
    n: Coord,
    j: int,
) -> bool {
    ||| exists|k: int| 0 <= k < stack.len() && (#[trigger] stack[k]).0 == n && stack[k].1 <= j
    ||| (step_spec(maze, n, cardinal(j)) matches Some(t) ==> adjacency.dom().contains(t))
}

/// What holds while the graph of `maze` is being built, with the cells of
/// `stack` still being explored, each from the direction noted with it.
pub open spec fn charting(
    maze: MazeView,
    adjacency: Adjacency,
    edges: Seq<(Coord, Coord)>,
    stack: Seq<(Coord, usize)>,
) -> bool {
    &&& maze.wf()
    &&& adjacency.dom().finite()
    &&& adjacency.dom().contains(origin())
    &&& forall|n: Coord|
        #![trigger adjacency.dom().contains(n)]
        adjacency.dom().contains(n) ==> maze.in_bounds(n) && reachable(maze, origin(), n)
    &&& forall|a: Coord, b: Coord| #[trigger]
        adjacent(adjacency, a, b) ==> adjacent(adjacency, b, a) && (linked(maze, a, b) || linked(
            maze,
            b,
            a,
        ))
    &&& forall|n: Coord| adjacency.dom().contains(n) ==> #[trigger] joined(adjacency, origin(), n)
    &&& edges_cover(adjacency, edges)
    &&& edges.len() + 1 == adjacency.dom().len()
    &&& forall|i: int|
        0 <= i < edges.len() ==> adjacency.dom().contains((#[trigger] edges[i]).0)
            && adjacency.dom().contains(edges[i].1)
    &&& forall|k: int|
        0 <= k < stack.len() ==> adjacency.dom().contains((#[trigger] stack[k]).0) && stack[k].1
            <= 4
    &&& forall|n: Coord, j: int|
        adjacency.dom().contains(n) && 0 <= j < 4 ==> #[trigger] settled(
            maze,
            adjacency,
            stack,
            n,
            j,
        )
}

/// A value is in a sequence with one more value when it is that value or
/// was in the sequence.
pub proof fn lemma_push_contains(s: Seq<Coord>, last: Coord, x: Coord)
    ensures
        s.push(last).contains(x) <==> s.contains(x) || x == last,
{
    let longer = s.push(last);
    if s.contains(x) {
        let i = choose|i: int| 0 <= i < s.len() && s[i] == x;
        assert(longer[i] == x);
    }
    if x == last {
        assert(longer[s.len() as int] == x);
    }
    if longer.contains(x) {
        let i = choose|i: int| 0 <= i < longer.len() && longer[i] == x;
        if i < s.len() {
            assert(s[i] == x);
        }
    }
}

/// After an edge between `a` and `b` has been added, the nodes are those
/// of before and the two ends, and the adjacent pairs are those of before
/// and the two ends, seen from either.
pub proof fn lemma_with_rows(adjacency: Adjacency, a: Coord, b: Coord)
    requires
        a != b,
    ensures
        with_rows(adjacency, a, b).dom() == adjacency.dom().insert(a).insert(b),
        forall|x: Coord, y: Coord|
            #![trigger adjacent(with_rows(adjacency, a, b), x, y)]
            adjacent(with_rows(adjacency, a, b), x, y) <==> adjacent(adjacency, x, y) || (x == a
                && y == b) || (x == b && y == a),
{
    let first = adjacency.insert(a, row(adjacency, a).push(b));
    let after = with_rows(adjacency, a, b);
    assert(after.dom() =~= adjacency.dom().insert(a).insert(b));
    assert forall|x: Coord, y: Coord|
        #![trigger adjacent(after, x, y)]
        adjacent(after, x, y) <==> adjacent(adjacency, x, y) || (x == a && y == b) || (x == b && y
            == a) by {
        if x == b {
            assert(row(first, b) == row(adjacency, b));
            lemma_push_contains(row(adjacency, b), a, y);
        } else if x == a {
            lemma_push_contains(row(adjacency, a), b, y);
        } else {
            assert(row(after, x) == row(adjacency, x));
        }
    }
}

/// A node is joined to itself.
pub proof fn lemma_joined_self(adjacency: Adjacency, a: Coord)
    ensures
        joined(adjacency, a, a),
{
    assert(path_between(adjacency, seq![a], a, a));
}

/// A path can be made one edge longer.
pub proof fn lemma_joined_step(adjacency: Adjacency, a: Coord, b: Coord, c: Coord)
    requires
        joined(adjacency, a, b),
        adjacent(adjacency, b, c),
    ensures
        joined(adjacency, a, c),
{
    let path = choose|path: Seq<Coord>| #[trigger] path_between(adjacency, path, a, b);
    let longer = path.push(c);
    assert forall|i: int| 0 <= i < longer.len() - 1 implies #[trigger] path_step(
        adjacency,
        longer,
        i,
    ) by {
        if i < path.len() - 1 {
            assert(path_step(adjacency, path, i));
        }
    }
    assert(path_between(adjacency, longer, a, c));
}

/// What is joined stays joined when edges are added.
pub proof fn lemma_joined_monotone(before: Adjacency, after: Adjacency, a: Coord, b: Coord)
    requires
        forall|x: Coord, y: Coord| #[trigger] adjacent(before, x, y) ==> adjacent(after, x, y),
        joined(before, a, b),
    ensures
        joined(after, a, b),
{
    let path = choose|path: Seq<Coord>| #[trigger] path_between(before, path, a, b);
    assert forall|i: int| 0 <= i < path.len() - 1 implies #[trigger] path_step(after, path, i) by {
        assert(path_step(before, path, i));
    }
    assert(path_between(after, path, a, b));
}

/// A maze without cells has the graph without nodes.
pub proof fn lemma_chart_nothing(maze: MazeView)
    requires
        maze.wf(),
        maze.cells.len() == 0,
    ensures
        charts(maze, no_nodes(), Seq::<(Coord, Coord)>::empty()),
{
    let adjacency = no_nodes();
    assert(maze.width == 0 || maze.height == 0) by (nonlinear_arith)
        requires
            maze.width * maze.height == 0,
    ;
    assert forall|n: Coord| !reachable(maze, origin(), n) by {
        if reachable(maze, origin(), n) {
            let path = choose|path: Seq<Coord>| #[trigger] walk_between(maze, path, origin(), n);
            assert(maze.in_bounds(path[0]));
        }
    }
    assert forall|a: Coord, b: Coord| !#[trigger] adjacent(adjacency, a, b) by {
        assert(row(adjacency, a) =~= Seq::<Coord>::empty());
    }
    assert(adjacency.dom() =~= Set::<Coord>::empty());
}

/// The graph that holds the origin alone begins the charting of a maze
/// that has cells.
pub proof fn lemma_chart_begin(maze: MazeView)
    requires
        maze.wf(),
        maze.cells.len() > 0,
    ensures
        charting(
            maze,
            no_nodes().insert(origin(), Seq::empty()),
            Seq::<(Coord, Coord)>::empty(),
            seq![(origin(), 0usize)],
        ),
{
    let adjacency = no_nodes().insert(origin(), Seq::<Coord>::empty());
    let stack = seq![(origin(), 0usize)];
    assert(maze.width > 0 && maze.height > 0) by (nonlinear_arith)
        requires
            maze.width * maze.height > 0,
    ;
    assert(adjacency.dom() =~= Set::<Coord>::empty().insert(origin()));
    lemma_reachable_self(maze, origin());
    lemma_joined_self(adjacency, origin());
    assert forall|a: Coord, b: Coord| !#[trigger] adjacent(adjacency, a, b) by {
        assert(row(adjacency, a) =~= Seq::<Coord>::empty());
    }
    assert forall|n: Coord, j: int| adjacency.dom().contains(n) && 0 <= j < 4 implies #[trigger]
        settled(maze, adjacency, stack, n, j) by {
        assert(stack[0].0 == n && stack[0].1 <= j);
    }
}

/// A cell whose four directions have been explored leaves the stack.
pub proof fn lemma_chart_pop(
    maze: MazeView,
    adjacency: Adjacency,
    edges: Seq<(Coord, Coord)>,
    stack: Seq<(Coord, usize)>,
)
    requires
        charting(maze, adjacency, edges, stack),
        stack.len() > 0,
        stack.last().1 >= 4,
    ensures
        charting(maze, adjacency, edges, stack.drop_last()),
{
    let rest = stack.drop_last();
    assert forall|n: Coord, j: int| adjacency.dom().contains(n) && 0 <= j < 4 implies #[trigger]
        settled(maze, adjacency, rest, n, j) by {
        assert(settled(maze, adjacency, stack, n, j));
        if exists|k: int| 0 <= k < stack.len() && (#[trigger] stack[k]).0 == n && stack[k].1 <= j {
            let k = choose|k: int|
                0 <= k < stack.len() && (#[trigger] stack[k]).0 == n && stack[k].1 <= j;
            assert(k < stack.len() - 1);
            assert(rest[k].0 == n && rest[k].1 <= j);
        }
    }
    assert forall|k: int| 0 <= k < rest.len() implies adjacency.dom().contains(
        (#[trigger] rest[k]).0,
    ) && rest[k].1 <= 4 by {
        assert(rest[k] == stack[k]);
    }
}

/// The cell on top of the stack goes on to its next direction when the
/// direction at hand leads nowhere or to a node of the graph.
pub proof fn lemma_chart_skip(
    maze: MazeView,
    adjacency: Adjacency,
    edges: Seq<(Coord, Coord)>,
    stack: Seq<(Coord, usize)>,
)
    requires
        charting(maze, adjacency, edges, stack),
        stack.len() > 0,
        stack.last().1 < 4,
        step_spec(maze, stack.last().0, cardinal(stack.last().1 as int)) matches Some(t)
            ==> adjacency.dom().contains(t),
    ensures
        charting(
            maze,
            adjacency,
            edges,
            stack.update(stack.len() - 1, (stack.last().0, (stack.last().1 + 1) as usize)),
        ),
{
    let top = stack.len() - 1;
    let cell = stack.last().0;
    let turn = stack.last().1;
    let moved = stack.update(top, (cell, (turn + 1) as usize));
    assert forall|n: Coord, j: int| adjacency.dom().contains(n) && 0 <= j < 4 implies #[trigger]
        settled(maze, adjacency, moved, n, j) by {
        assert(settled(maze, adjacency, stack, n, j));
        if exists|k: int| 0 <= k < stack.len() && (#[trigger] stack[k]).0 == n && stack[k].1 <= j {
            let k = choose|k: int|
                0 <= k < stack.len() && (#[trigger] stack[k]).0 == n && stack[k].1 <= j;
            if k == top {
                if j > turn {
                    assert(moved[top].0 == n && moved[top].1 <= j);
                }
            } else {
                assert(moved[k].0 == n && moved[k].1 <= j);
            }
        }
    }
    assert forall|k: int| 0 <= k < moved.len() implies adjacency.dom().contains(
        (#[trigger] moved[k]).0,
    ) && moved[k].1 <= 4 by {
        if k != top {
            assert(moved[k] == stack[k]);
        } else {
            assert(adjacency.dom().contains(stack[top].0));
        }
    }
}

/// The rows after the new node `next` has been added and joined to `cell`.
pub open spec fn grown(adjacency: Adjacency, cell: Coord, next: Coord) -> Adjacency {
    with_rows(adjacency.insert(next, Seq::empty()), cell, next)
}

/// The stack after its top has gone on to its next direction and the new
/// node `next` has been put on it.
pub open spec fn descended(stack: Seq<(Coord, usize)>, next: Coord) -> Seq<(Coord, usize)> {
    stack.update(stack.len() - 1, (stack.last().0, (stack.last().1 + 1) as usize)).push(
        (next, 0usize),
    )
}

/// The direction at hand leads from the cell on top of the stack to
/// `next`, which is no node of the graph yet.
pub open spec fn can_grow(
    maze: MazeView,
    adjacency: Adjacency,
    edges: Seq<(Coord, Coord)>,
    stack: Seq<(Coord, usize)>,
    next: Coord,
) -> bool {
    &&& charting(maze, adjacency, edges, stack)
    &&& stack.len() > 0
    &&& stack.last().1 < 4
    &&& step_spec(maze, stack.last().0, cardinal(stack.last().1 as int)) == Some(next)
    &&& !adjacency.dom().contains(next)
}

/// What growing does to nodes and edges: one node more, and the new edge
/// is seen from both of its ends and from nowhere else.
pub proof fn lemma_grow_rows(
    maze: MazeView,
    adjacency: Adjacency,
    edges: Seq<(Coord, Coord)>,
    stack: Seq<(Coord, usize)>,
    next: Coord,
)
    requires
        can_grow(maze, adjacency, edges, stack, next),
    ensures
        stack.last().0 != next,
        !edges.contains(edge_key(stack.last().0, next)),
        grown(adjacency, stack.last().0, next).dom() == adjacency.dom().insert(next),
        grown(adjacency, stack.last().0, next).dom().len() == adjacency.dom().len() + 1,
        maze.in_bounds(next),
        linked(maze, stack.last().0, next),
        forall|x: Coord, y: Coord|
            #![trigger adjacent(grown(adjacency, stack.last().0, next), x, y)]
            adjacent(grown(adjacency, stack.last().0, next), x, y) <==> adjacent(adjacency, x, y)
                || (x == stack.last().0 && y == next) || (x == next && y == stack.last().0),
{
    let cell = stack.last().0;
    let with_node = adjacency.insert(next, Seq::<Coord>::empty());
    let after = grown(adjacency, cell, next);
    assert(adjacency.dom().contains(stack[stack.len() - 1].0));
    lemma_with_rows(with_node, cell, next);
    assert(after.dom() =~= adjacency.dom().insert(next));
    if edges.contains(edge_key(cell, next)) {
        let i = choose|i: int| 0 <= i < edges.len() && edges[i] == edge_key(cell, next);
        assert(adjacency.dom().contains(edges[i].0) && adjacency.dom().contains(edges[i].1));
    }
    assert forall|x: Coord, y: Coord|
        #![trigger adjacent(after, x, y)]
        adjacent(after, x, y) <==> adjacent(adjacency, x, y) || (x == cell && y == next) || (x
            == next && y == cell) by {
        if x == next {
            assert(row(with_node, x) =~= Seq::<Coord>::empty());
            assert(row(adjacency, x) =~= Seq::<Coord>::empty());
        } else {
            assert(row(with_node, x) == row(adjacency, x));
        }
    }
    let d = cardinal(stack.last().1 as int);
    assert(d.is_cardinal());
    assert(step_spec(maze, cell, d) == Some(next));
}

/// A new node that the direction at hand leads to joins the graph, with
/// the edge to it, and is explored next.
pub proof fn lemma_chart_grow(
    maze: MazeView,
    adjacency: Adjacency,
    edges: Seq<(Coord, Coord)>,
    stack: Seq<(Coord, usize)>,
    next: Coord,
)
    requires
        can_grow(maze, adjacency, edges, stack, next),
    ensures
        charting(
            maze,
            grown(adjacency, stack.last().0, next),
            edges.push(edge_key(stack.last().0, next)),
            descended(stack, next),
        ),
{
    let top = stack.len() - 1;
    let cell = stack.last().0;
    let turn = stack.last().1;
    let after = grown(adjacency, cell, next);
    let more = edges.push(edge_key(cell, next));
    let deeper = descended(stack, next);
    lemma_grow_rows(maze, adjacency, edges, stack, next);
    assert(adjacency.dom().contains(stack[top].0));
    lemma_reachable_step(maze, origin(), cell, next);
    assert forall|n: Coord| after.dom().contains(n) implies #[trigger] joined(
        after,
        origin(),
        n,
    ) by {
        if n == next {
            lemma_joined_monotone(adjacency, after, origin(), cell);
            lemma_joined_step(after, origin(), cell, next);
        } else {
            lemma_joined_monotone(adjacency, after, origin(), n);
        }
    }
    assert forall|a: Coord, b: Coord| #[trigger] adjacent(after, a, b) implies more.contains(
        edge_key(a, b),
    ) by {
        if adjacent(adjacency, a, b) {
            let i = choose|i: int| 0 <= i < edges.len() && edges[i] == edge_key(a, b);
            assert(more[i] == edge_key(a, b));
        } else {
            assert(edge_key(a, b) == edge_key(cell, next));
            assert(more[edges.len() as int] == edge_key(cell, next));
        }
    }
    assert forall|i: int| 0 <= i < more.len() implies after.dom().contains(
        (#[trigger] more[i]).0,
    ) && after.dom().contains(more[i].1) by {
        if i < edges.len() {
            assert(more[i] == edges[i]);
        }
    }
    assert forall|k: int| 0 <= k < deeper.len() implies after.dom().contains(
        (#[trigger] deeper[k]).0,
    ) && deeper[k].1 <= 4 by {
        if k < top {
            assert(deeper[k] == stack[k]);
        }
    }
    assert forall|n: Coord, j: int| after.dom().contains(n) && 0 <= j < 4 implies #[trigger]
        settled(maze, after, deeper, n, j) by {
        if n == next {
            assert(deeper[top + 1].0 == n && deeper[top + 1].1 <= j);
        } else {
            assert(settled(maze, adjacency, stack, n, j));
            if exists|k: int|
                0 <= k < stack.len() && (#[trigger] stack[k]).0 == n && stack[k].1 <= j {
                let k = choose|k: int|
                    0 <= k < stack.len() && (#[trigger] stack[k]).0 == n && stack[k].1 <= j;
                if k == top {
                    if j > turn {
                        assert(deeper[top].0 == n && deeper[top].1 <= j);
                    }
                } else {
                    assert(deeper[k].0 == n && deeper[k].1 <= j);
                }
            }
        }
    }
}

/// Every cell of a walk from the origin is a node, once no cell is left
/// on the stack.
proof fn lemma_walk_charted(
    maze: MazeView,
    adjacency: Adjacency,
    edges: Seq<(Coord, Coord)>,
    path: Seq<Coord>,
    upto: int,
)
    requires
        charting(maze, adjacency, edges, Seq::empty()),
        crate::walks::is_walk(maze, path),
        path[0] == origin(),
        0 <= upto < path.len(),
    ensures
        adjacency.dom().contains(path[upto]),
    decreases upto,
{
    if upto > 0 {
        lemma_walk_charted(maze, adjacency, edges, path, upto - 1);
        let a = path[upto - 1];
        let b = path[upto];
        assert(walk_step(maze, path, upto - 1));
        let d = choose|d: Direction| d.is_cardinal() && #[trigger] step_spec(maze, a, d) == Some(b);
        let j: int = if d == Direction::N {
            0
        } else if d == Direction::E {
            1
        } else if d == Direction::S {
            2
        } else {
            3
        };
        assert(cardinal(j) == d);
        assert(settled(maze, adjacency, Seq::empty(), a, j));
    }
}

/// When no cell is left on the stack, the graph is the graph of the maze.
pub proof fn lemma_chart_end(maze: MazeView, adjacency: Adjacency, edges: Seq<(Coord, Coord)>)
    requires
        charting(maze, adjacency, edges, Seq::empty()),
    ensures
        charts(maze, adjacency, edges),
{
    assert forall|n: Coord|
        #![trigger adjacency.dom().contains(n)]
        #![trigger reachable(maze, origin(), n)]
        adjacency.dom().contains(n) <==> reachable(maze, origin(), n) by {
        if reachable(maze, origin(), n) {
            let path = choose|path: Seq<Coord>| #[trigger] walk_between(maze, path, origin(), n);
            lemma_walk_charted(maze, adjacency, edges, path, path.len() - 1);
        }
    }
}

/// A graph in the making has no more nodes than the maze has cells.
pub proof fn lemma_nodes_bounded(
    maze: MazeView,
    adjacency: Adjacency,
    edges: Seq<(Coord, Coord)>,
    stack: Seq<(Coord, usize)>,
)
    requires
        charting(maze, adjacency, edges, stack),
    ensures
        adjacency.dom().len() <= maze.cells.len(),
{
    lemma_all_cells(maze);
    assert(adjacency.dom().subset_of(all_cells(maze)));
    vstd::set_lib::lemma_len_subset(adjacency.dom(), all_cells(maze));
}

impl DirectionGrid {
    /// The graph of the maze: the cells that can be reached from the cell
    /// at the origin, joined along the passages that a depth-first
    /// exploration takes to come upon them. A maze without cells has the
    /// graph without nodes.
    pub fn as_graph(&self) -> (graph: Graph)
        requires
            self.wf(),
        ensures
            charts(self@, graph_adjacency(graph), graph_edges(graph)),
    {
        let len = self.data.len();
        let node_hint = if len < CAPACITY_HINT {
            len
        } else {
            CAPACITY_HINT
        };
        let edge_hint = if len < CAPACITY_HINT / 2 {
            len * 2
        } else {
            CAPACITY_HINT
        };
        let mut graph = graph_with_capacity(node_hint, edge_hint);
        if len == 0 {
            proof {
                assert(graph_edges(graph) =~= Seq::<(Coord, Coord)>::empty());
                lemma_chart_nothing(self@);
            }
            return graph;
        }
        assert(self.width > 0) by (nonlinear_arith)
            requires
                self.width * self.height > 0,
        ;
        let first = self.index_to_coord(0);
        graph_add_node(&mut graph, first);
        let cardinals = Direction::cardinals();
        let mut stack: Vec<(Coord, usize)> = Vec::new();
        stack.push((first, 0));
        proof {
            assert(first == origin());
            assert(graph_edges(graph) =~= Seq::<(Coord, Coord)>::empty());
            assert(stack@ =~= seq![(origin(), 0usize)]);
            lemma_chart_begin(self@);
        }
        while stack.len() > 0
            invariant
                self.wf(),
                cardinals@ == Direction::cardinal_seq(),
                charting(self@, graph_adjacency(graph), graph_edges(graph), stack@),
            decreases
                    self.data.len() - graph_adjacency(graph).dom().len(),
                    stack.len(),
                    (if stack.len() > 0 {
                        4 - stack@.last().1
                    } else {
                        0
                    }),
        {
            let top = stack.len() - 1;
            let (cell, turn) = stack[top];
            proof {
                lemma_nodes_bounded(self@, graph_adjacency(graph), graph_edges(graph), stack@);
            }
            if turn >= 4 {
                proof {
                    lemma_chart_pop(self@, graph_adjacency(graph), graph_edges(graph), stack@);
                }
                stack.pop();
            } else {
                let direction = cardinals[turn];
                let ghost before = stack@;
                let ghost rows = graph_adjacency(graph);
                let ghost edges = graph_edges(graph);
                let step = self.valid_move(cell, direction);
                let fresh = match step {
                    Some(next) => !graph_contains_node(&graph, next),
                    None => false,
                };
                stack.set(top, (cell, turn + 1));
                if fresh {
                    let next = step.unwrap();
                    proof {
                        lemma_grow_rows(self@, rows, edges, before, next);
                        lemma_chart_grow(self@, rows, edges, before, next);
                    }
                    graph_add_node(&mut graph, next);
                    graph_add_edge(&mut graph, cell, next);
                    stack.push((next, 0));
                    proof {
                        assert(stack@ =~= descended(before, next));
                        lemma_nodes_bounded(
                            self@,
                            graph_adjacency(graph),
                            graph_edges(graph),
                            stack@,
                        );
                    }
                } else {
                    proof {
                        lemma_chart_skip(self@, rows, edges, before);
                        assert(stack@ =~= before.update(
                            before.len() - 1,
                            (before.last().0, (before.last().1 + 1) as usize),
                        ));
                    }
                }
            }
        }
        proof {
            assert(stack@ =~= Seq::<(Coord, usize)>::empty());
            lemma_chart_end(self@, graph_adjacency(graph), graph_edges(graph));
        }
        graph
    }
}

/// Two paths that meet make one path.
pub proof fn lemma_joined_trans(adjacency: Adjacency, a: Coord, b: Coord, c: Coord)
    requires
        joined(adjacency, a, b),
        joined(adjacency, b, c),
    ensures
        joined(adjacency, a, c),
{
    let second = choose|path: Seq<Coord>| #[trigger] path_between(adjacency, path, b, c);
    lemma_append_path(adjacency, a, b, second, second.len() - 1);
}

/// Whatever is joined to `a` stays joined along a path that begins where
/// it was joined.
proof fn lemma_append_path(adjacency: Adjacency, a: Coord, b: Coord, tail: Seq<Coord>, upto: int)
    requires
        joined(adjacency, a, b),
        is_path(adjacency, tail),
        tail[0] == b,
        0 <= upto < tail.len(),
    ensures
        joined(adjacency, a, tail[upto]),
    decreases upto,
{
    if upto > 0 {
        lemma_append_path(adjacency, a, b, tail, upto - 1);
        assert(path_step(adjacency, tail, upto - 1));
        lemma_joined_step(adjacency, a, tail[upto - 1], tail[upto]);
    }
}

/// Every edge is seen from both of its ends.
pub open spec fn two_way(adjacency: Adjacency) -> bool {
    forall|a: Coord, b: Coord| #[trigger] adjacent(adjacency, a, b) ==> adjacent(adjacency, b, a)
}

/// In a graph whose edges are seen from both ends a path can be gone back.
pub proof fn lemma_joined_symmetric(adjacency: Adjacency, a: Coord, b: Coord)
    requires
        two_way(adjacency),
        joined(adjacency, a, b),
    ensures
        joined(adjacency, b, a),
{
    let path = choose|path: Seq<Coord>| #[trigger] path_between(adjacency, path, a, b);
    lemma_path_back(adjacency, path, path.len() - 1);
}

/// From the `upto`-th node of a path its first node is reached.
proof fn lemma_path_back(adjacency: Adjacency, path: Seq<Coord>, upto: int)
    requires
        two_way(adjacency),
        is_path(adjacency, path),
        0 <= upto < path.len(),
    ensures
        joined(adjacency, path[upto], path[0]),
    decreases upto,
{
    if upto == 0 {
        lemma_joined_self(adjacency, path[0]);
    } else {
        lemma_path_back(adjacency, path, upto - 1);
        assert(path_step(adjacency, path, upto - 1));
        lemma_joined_self(adjacency, path[upto]);
        lemma_joined_step(adjacency, path[upto], path[upto], path[upto - 1]);
        lemma_joined_trans(adjacency, path[upto], path[upto - 1], path[0]);
    }
}

/// In a maze with paired openings, a path of its graph is a walk through
/// the maze: the way from the first cell of the longest path to its last
/// can be gone move by move.
pub proof fn lemma_path_is_walk(
    maze: MazeView,
    adjacency: Adjacency,
    edges: Seq<(Coord, Coord)>,
    path: Seq<Coord>,
)
    requires
        maze.wf(),
        crate::maze::symmetric(maze),
        charts(maze, adjacency, edges),
        is_path(adjacency, path),
        path.len() >= 2,
    ensures
        crate::walks::is_walk(maze, path),
{
    assert forall|i: int| 0 <= i < path.len() - 1 implies #[trigger] walk_step(maze, path, i) by {
        assert(path_step(adjacency, path, i));
        assert(adjacent(adjacency, path[i], path[i + 1]));
        if !linked(maze, path[i], path[i + 1]) {
            crate::walks::lemma_linked_symmetric(maze, path[i + 1], path[i]);
        }
    }
    assert(path_step(adjacency, path, 0));
    assert(adjacent(adjacency, path[0], path[1]));
    assert(adjacency.dom().contains(path[0]));
    assert(reachable(maze, origin(), path[0]));
    let to_first = choose|walk: Seq<Coord>| #[trigger] walk_between(maze, walk, origin(), path[0]);
    lemma_walk_in_bounds(maze, to_first, to_first.len() - 1);
}

/// The graph of a perfect maze holds every cell, is joined throughout and
/// has one edge less than the maze has cells.
pub proof fn lemma_graph_of_perfect_maze(
    maze: MazeView,
    adjacency: Adjacency,
    edges: Seq<(Coord, Coord)>,
)
    requires
        crate::generator::perfect(maze),
        charts(maze, adjacency, edges),
    ensures
        forall|c: Coord| maze.in_bounds(c) <==> #[trigger] adjacency.dom().contains(c),
        forall|c: Coord| maze.in_bounds(c) ==> #[trigger] joined(adjacency, origin(), c),
        adjacency.dom().len() == maze.cells.len(),
        edges.len() == maze.cells.len() - 1,
{
    assert(maze.width > 0 && maze.height > 0) by (nonlinear_arith)
        requires
            maze.width * maze.height > 0,
    ;
    assert(maze.in_bounds(origin()));
    assert forall|c: Coord| maze.in_bounds(c) <==> #[trigger] adjacency.dom().contains(c) by {
        if maze.in_bounds(c) {
            assert(reachable(maze, origin(), c));
        }
        if adjacency.dom().contains(c) {
            assert(reachable(maze, origin(), c));
            let path = choose|path: Seq<Coord>| #[trigger] walk_between(maze, path, origin(), c);
            lemma_walk_in_bounds(maze, path, path.len() - 1);
        }
    }
    lemma_all_cells(maze);
    assert(adjacency.dom() =~= all_cells(maze));
}

} // verus!
