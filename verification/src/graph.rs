//! The connectivity graph of a maze, kept in a `petgraph` graph map.
//!
//! The graph itself is opaque to the proofs. What they know of it is its
//! content, given as two mathematical values, and what the functions of
//! this module state about it. None of those statements is proved: each
//! function hands one request to `petgraph`, and its contract says what
//! the source of that crate shows of the answer.

use crate::grid::Coord;
use petgraph::graphmap::GraphMap;
use petgraph::Undirected;
use std::collections::hash_map::RandomState;
use vstd::prelude::*;

verus! {

/// `petgraph::graphmap::GraphMap`: a graph whose nodes are values.
#[verifier::external_type_specification]
#[verifier::external_body]
#[verifier::reject_recursive_types(N)]
#[verifier::reject_recursive_types(E)]
#[verifier::reject_recursive_types(Ty)]
#[verifier::reject_recursive_types(S)]
pub struct ExGraphMap<N, E, Ty, S: std::hash::BuildHasher>(GraphMap<N, E, Ty, S>);

/// `petgraph::Undirected`: the marker of graphs whose edges have no
/// direction.
#[verifier::external_type_specification]
#[verifier::external_body]
pub struct ExUndirected(Undirected);

/// An undirected graph over the cells of a grid.
pub type Graph = GraphMap<Coord, (), Undirected, RandomState>;

/// For every node of a graph its neighbours, in the order in which the
/// edges to them were added.
pub type Adjacency = Map<Coord, Seq<Coord>>;

/// The nodes of `graph`, each with the row of its neighbours.
pub uninterp spec fn graph_adjacency(graph: Graph) -> Adjacency;

/// The edges of `graph` in the order in which they were added, each with
/// its smaller end first.
pub uninterp spec fn graph_edges(graph: Graph) -> Seq<(Coord, Coord)>;

/// The nodes in the order in which a depth-first walk from `start` comes
/// upon them.
pub uninterp spec fn dfs_preorder(adjacency: Adjacency, start: Coord) -> Seq<Coord>;

/// The shortest path that the search finds from `from` to `to`.
pub uninterp spec fn astar_path(adjacency: Adjacency, from: Coord, to: Coord) -> Option<
    Seq<Coord>,
>;

/// The graph without nodes.
pub open spec fn no_nodes() -> Adjacency {
    Map::empty()
}

/// The row of neighbours of `node`; empty for a node that the graph lacks.
pub open spec fn row(adjacency: Adjacency, node: Coord) -> Seq<Coord> {
    if adjacency.dom().contains(node) {
        adjacency[node]
    } else {
        Seq::empty()
    }
}

/// An edge joins `a` and `b`, seen from `a`.
pub open spec fn adjacent(adjacency: Adjacency, a: Coord, b: Coord) -> bool {
    row(adjacency, a).contains(b)
}

/// The number of edges at `node`.
pub open spec fn degree(adjacency: Adjacency, node: Coord) -> nat {
    row(adjacency, node).len()
}

/// Whether `a` comes before `b`, or is `b`, in the order of pairs: by the
/// first part, then by the second.
pub open spec fn coord_le(a: Coord, b: Coord) -> bool {
    a.0 < b.0 || (a.0 == b.0 && a.1 <= b.1)
}

/// The edge between `a` and `b` as the graph stores it: smaller end first.
pub open spec fn edge_key(a: Coord, b: Coord) -> (Coord, Coord) {
    if coord_le(a, b) {
        (a, b)
    } else {
        (b, a)
    }
}

/// The rows after an edge between two different nodes `a` and `b` has been
/// added: each of the two is appended to the row of the other.
pub open spec fn with_rows(adjacency: Adjacency, a: Coord, b: Coord) -> Adjacency {
    let first = adjacency.insert(a, row(adjacency, a).push(b));
    first.insert(b, row(first, b).push(a))
}

/// Every edge that a row shows is among the edges of the graph.
pub open spec fn edges_cover(adjacency: Adjacency, edges: Seq<(Coord, Coord)>) -> bool {
    forall|a: Coord, b: Coord| #[trigger] adjacent(adjacency, a, b) ==> edges.contains(
        edge_key(a, b),
    )
}

/// The cell after the `i`-th one of `path` is adjacent to it.
pub open spec fn path_step(adjacency: Adjacency, path: Seq<Coord>, i: int) -> bool {
    adjacent(adjacency, path[i], path[i + 1])
}

/// `path` leads along edges.
pub open spec fn is_path(adjacency: Adjacency, path: Seq<Coord>) -> bool {
    &&& path.len() > 0
    &&& forall|i: int| 0 <= i < path.len() - 1 ==> #[trigger] path_step(adjacency, path, i)
}

/// `path` leads along edges from `a` to `b`.
pub open spec fn path_between(adjacency: Adjacency, path: Seq<Coord>, a: Coord, b: Coord) -> bool {
    is_path(adjacency, path) && path[0] == a && path.last() == b
}

/// Some path leads from `a` to `b`.
pub open spec fn joined(adjacency: Adjacency, a: Coord, b: Coord) -> bool {
    exists|path: Seq<Coord>| #[trigger] path_between(adjacency, path, a, b)
}

/// No path from `a` to `b` is shorter than `path`.
pub open spec fn shortest_between(adjacency: Adjacency, path: Seq<Coord>, a: Coord, b: Coord) -> bool {
    &&& path_between(adjacency, path, a, b)
    &&& forall|other: Seq<Coord>| #[trigger]
        path_between(adjacency, other, a, b) ==> path.len() <= other.len()
}

/// What a search has found, as a mathematical value.
pub open spec fn found_view(found: Option<Vec<Coord>>) -> Option<Seq<Coord>> {
    match found {
        Some(path) => Some(path@),
        None => None,
    }
}

/// The largest capacity that is asked of a new graph. A size hint beyond
/// it is cut down to it.
pub const CAPACITY_HINT: usize = 65536;

/// `GraphMap::with_capacity`: a graph without nodes and edges. The
/// capacities are hints only; they are kept small enough for the
/// allocation to be beyond doubt.
#[verifier::external_body]
pub(crate) fn graph_with_capacity(nodes: usize, edges: usize) -> (graph: Graph)
    requires
        nodes <= CAPACITY_HINT,
        edges <= CAPACITY_HINT,
    ensures
        graph_adjacency(graph) == no_nodes(),
        graph_edges(graph).len() == 0,
{
    GraphMap::with_capacity(nodes, edges)
}

/// `GraphMap::contains_node`: whether `node` is a node of the graph.
#[verifier::external_body]
pub(crate) fn graph_contains_node(graph: &Graph, node: Coord) -> (found: bool)
    ensures
        found == graph_adjacency(*graph).dom().contains(node),
{
    graph.contains_node(node)
}

/// `GraphMap::add_node`: a node that the graph lacks is added with an
/// empty row; a node that it has is left as it is. The edges stay.
#[verifier::external_body]
pub(crate) fn graph_add_node(graph: &mut Graph, node: Coord)
    ensures
        graph_adjacency(*final(graph)) == if graph_adjacency(*old(graph)).dom().contains(node) {
            graph_adjacency(*old(graph))
        } else {
            graph_adjacency(*old(graph)).insert(node, Seq::empty())
        },
        graph_edges(*final(graph)) == graph_edges(*old(graph)),
{
    graph.add_node(node);
}

/// `GraphMap::add_edge` between two different nodes: an edge that the
/// graph lacks is appended to the edges, and each end to the row of the
/// other; an edge that it has changes nothing.
#[verifier::external_body]
pub(crate) fn graph_add_edge(graph: &mut Graph, a: Coord, b: Coord)
    requires
        a != b,
    ensures
        graph_edges(*old(graph)).contains(edge_key(a, b)) ==> graph_edges(*final(graph))
            == graph_edges(*old(graph)) && graph_adjacency(*final(graph)) == graph_adjacency(
            *old(graph),
        ),
        !graph_edges(*old(graph)).contains(edge_key(a, b)) ==> graph_edges(*final(graph))
            == graph_edges(*old(graph)).push(edge_key(a, b)) && graph_adjacency(*final(graph))
            == with_rows(graph_adjacency(*old(graph)), a, b),
{
    graph.add_edge(a, b, ());
}

/// `GraphMap::neighbors`, counted: the number of edges at `node`, which is
/// zero for a node that the graph lacks.
#[verifier::external_body]
pub(crate) fn graph_degree(graph: &Graph, node: Coord) -> (count: usize)
    ensures
        count == degree(graph_adjacency(*graph), node),
{
    graph.neighbors(node).count()
}

/// `petgraph::visit::Dfs`, run to its end from `start`: the nodes in the
/// order of the walk. The walk comes upon `start` and upon every node that
/// a path leads to from it, upon each once, and upon no other node.
#[verifier::external_body]
pub(crate) fn dfs_order(graph: &Graph, start: Coord) -> (order: Vec<Coord>)
    ensures
        order@ == dfs_preorder(graph_adjacency(*graph), start),
        order@.no_duplicates(),
        forall|node: Coord|
            order@.contains(node) <==> #[trigger] joined(graph_adjacency(*graph), start, node),
{
    let walk = petgraph::visit::Dfs::new(graph, start);
    petgraph::visit::Walker::iter(walk, graph).collect()
}

/// Whether the search has arrived: `node` is the cell it looks for.
pub(crate) fn same_node(node: Coord, goal: Coord) -> (same: bool)
    ensures
        same == (node == goal),
{
    node.0 == goal.0 && node.1 == goal.1
}

/// The cost of one edge: every passage is one step long.
pub(crate) fn unit_cost() -> (cost: usize)
    ensures
        cost == 1,
{
    1
}

/// The estimate of the way that is left: none is made.
pub(crate) fn no_estimate() -> (cost: usize)
    ensures
        cost == 0,
{
    0
}

/// `petgraph::algo::astar` with every edge at cost one and without an
/// estimate: a path from `from` to `to` than which none is shorter, or
/// `None` where no path leads from `from` to `to`. The search looks up the
/// edge behind every entry of a row, so the rows must show no edge that
/// the graph lacks.
#[verifier::external_body]
pub(crate) fn shortest_path(graph: &Graph, from: Coord, to: Coord) -> (found: Option<Vec<Coord>>)
    requires
        edges_cover(graph_adjacency(*graph), graph_edges(*graph)),
    ensures
        found_view(found) == astar_path(graph_adjacency(*graph), from, to),
        found matches Some(path) ==> shortest_between(graph_adjacency(*graph), path@, from, to),
        found is None ==> !joined(graph_adjacency(*graph), from, to),
{
    petgraph::algo::astar(
        graph,
        from,
        |node| same_node(node, to),
        |_| unit_cost(),
        |_| no_estimate(),
    ).map(|found| found.1)
}

} // verus!
