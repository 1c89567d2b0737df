//! Dead ends of a maze graph and the longest way between two of them.

use crate::connectivity::origin;
use crate::graph::{
    astar_path, degree, dfs_order, dfs_preorder, edges_cover, found_view, graph_adjacency,
    graph_degree, graph_edges, joined, shortest_between, shortest_path, Adjacency, Graph,
};
use crate::grid::Coord;
use vstd::prelude::*;

verus! {

/// Those nodes of `order` at which exactly one edge ends, in their order.
pub open spec fn dead_ends_in(adjacency: Adjacency, order: Seq<Coord>) -> Seq<Coord>
    decreases order.len(),
{
    if order.len() == 0 {
        Seq::empty()
    } else {
        let before = dead_ends_in(adjacency, order.drop_last());
        if degree(adjacency, order.last()) == 1 {
            before.push(order.last())
        } else {
            before
        }
    }
}

/// The dead ends of a graph in the order in which a depth-first walk from
/// the origin comes upon them.
pub open spec fn dead_ends_of(adjacency: Adjacency) -> Seq<Coord> {
    dead_ends_in(adjacency, dfs_preorder(adjacency, origin()))
}

/// A node is a dead end when exactly one edge ends at it.
pub fn is_dead_end(edges_at_node: usize) -> (dead: bool)
    ensures
        dead == (edges_at_node == 1),
{
    edges_at_node == 1
}

/// The dead ends among the nodes that a depth-first walk from the origin
/// reaches, in the order of the walk.
pub fn find_dead_ends(graph: &Graph) -> (ends: Vec<Coord>)
    ensures
        ends@ == dead_ends_of(graph_adjacency(*graph)),
        ends@.no_duplicates(),
        forall|node: Coord|
            #![trigger ends@.contains(node)]
            ends@.contains(node) <==> joined(graph_adjacency(*graph), origin(), node) && degree(
                graph_adjacency(*graph),
                node,
            ) == 1,
{
    let order = dfs_order(graph, (0, 0));
    let ghost adjacency = graph_adjacency(*graph);
    let mut ends: Vec<Coord> = Vec::new();
    let mut i: usize = 0;
    while i < order.len()
        invariant
            i <= order.len(),
            adjacency == graph_adjacency(*graph),
            order@.no_duplicates(),
            ends@ == dead_ends_in(adjacency, order@.take(i as int)),
            ends@.no_duplicates(),
            forall|node: Coord|
                #![trigger ends@.contains(node)]
                ends@.contains(node) <==> (exists|k: int|
                    0 <= k < i && #[trigger] order@[k] == node) && degree(adjacency, node) == 1,
        decreases order.len() - i,
    {
        let node = order[i];
        let ghost before = ends@;
        proof {
            assert(order@.take(i + 1).drop_last() =~= order@.take(i as int));
            assert(order@.take(i + 1).last() == node);
        }
        if is_dead_end(graph_degree(graph, node)) {
            ends.push(node);
            proof {
                assert forall|a: int, b: int|
                    0 <= a < ends@.len() && 0 <= b < ends@.len() && a != b implies ends@[a]
                    != ends@[b] by {
                    if a == before.len() {
                        assert(before.contains(before[b]));
                    } else if b == before.len() {
                        assert(before.contains(before[a]));
                    }
                }
                assert forall|x: Coord|
                    #![trigger ends@.contains(x)]
                    ends@.contains(x) <==> (exists|k: int|
                        0 <= k < i + 1 && #[trigger] order@[k] == x) && degree(adjacency, x)
                        == 1 by {
                    crate::connectivity::lemma_push_contains(before, node, x);
                    if before.contains(x) {
                        let k = choose|k: int| 0 <= k < i && #[trigger] order@[k] == x;
                        assert(0 <= k < i + 1 && order@[k] == x);
                    }
                    if x == node {
                        assert(order@[i as int] == x);
                    }
                    if exists|k: int| 0 <= k < i + 1 && #[trigger] order@[k] == x {
                        let k = choose|k: int| 0 <= k < i + 1 && #[trigger] order@[k] == x;
                        if k < i {
                            assert(0 <= k < i && order@[k] == x);
                        }
                    }
                }
            }
        } else {
            proof {
                assert forall|x: Coord|
                    #![trigger ends@.contains(x)]
                    ends@.contains(x) <==> (exists|k: int|
                        0 <= k < i + 1 && #[trigger] order@[k] == x) && degree(adjacency, x)
                        == 1 by {
                    if before.contains(x) {
                        let k = choose|k: int| 0 <= k < i && #[trigger] order@[k] == x;
                        assert(0 <= k < i + 1 && order@[k] == x);
                    }
                    if (exists|k: int| 0 <= k < i + 1 && #[trigger] order@[k] == x) && degree(
                        adjacency,
                        x,
                    ) == 1 {
                        let k = choose|k: int| 0 <= k < i + 1 && #[trigger] order@[k] == x;
                        assert(k < i);
                        assert(0 <= k < i && order@[k] == x);
                    }
                }
            }
        }
        i = i + 1;
    }
    proof {
        assert(order@.take(i as int) =~= order@);
        assert forall|node: Coord|
            #![trigger ends@.contains(node)]
            ends@.contains(node) <==> joined(adjacency, origin(), node) && degree(adjacency, node)
                == 1 by {
            if order@.contains(node) {
                let k = choose|k: int| 0 <= k < order@.len() && order@[k] == node;
                assert(0 <= k < i && order@[k] == node);
            }
            if exists|k: int| 0 <= k < i && #[trigger] order@[k] == node {
                let k = choose|k: int| 0 <= k < i && #[trigger] order@[k] == node;
                assert(order@.contains(node));
            }
        }
    }
    ends
}

/// The pair `(i, j)` comes before the pair `(i2, j2)` when pairs are taken
/// by their first part, then by their second.
pub open spec fn pair_before(i: int, j: int, i2: int, j2: int) -> bool {
    i < i2 || (i == i2 && j < j2)
}

/// The shortest path that the search finds between the `i`-th and the
/// `j`-th of `ends`.
pub open spec fn candidate(adjacency: Adjacency, ends: Seq<Coord>, i: int, j: int) -> Option<
    Seq<Coord>,
> {
    astar_path(adjacency, ends[i], ends[j])
}

/// No path found for a pair of `ends` before the pair `(i, j)` is longer
/// than `len`.
pub open spec fn none_longer_before(
    adjacency: Adjacency,
    ends: Seq<Coord>,
    len: nat,
    i: int,
    j: int,
) -> bool {
    forall|i2: int, j2: int|
        #![trigger candidate(adjacency, ends, i2, j2)]
        0 <= i2 < j2 < ends.len() && pair_before(i2, j2, i, j) ==> (candidate(
            adjacency,
            ends,
            i2,
            j2,
        ) matches Some(path) ==> path.len() <= len)
}

/// No path found for a pair of `ends` before the pair `(i, j)` is as long
/// as `len`.
pub open spec fn all_shorter_before(
    adjacency: Adjacency,
    ends: Seq<Coord>,
    len: nat,
    i: int,
    j: int,
) -> bool {
    forall|i2: int, j2: int|
        #![trigger candidate(adjacency, ends, i2, j2)]
        0 <= i2 < j2 < ends.len() && pair_before(i2, j2, i, j) ==> (candidate(
            adjacency,
            ends,
            i2,
            j2,
        ) matches Some(path) ==> path.len() < len)
}

/// `best` is the path found for the pair `(i, j)` of `ends`, and every path
/// found for an earlier pair is shorter.
pub open spec fn first_of_its_length(
    adjacency: Adjacency,
    ends: Seq<Coord>,
    best: Seq<Coord>,
    i: int,
    j: int,
) -> bool {
    &&& 0 <= i < j < ends.len()
    &&& candidate(adjacency, ends, i, j) == Some(best)
    &&& all_shorter_before(adjacency, ends, best.len(), i, j)
}

/// `best` is the longest of the shortest paths between the pairs of `ends`
/// that come before the pair `(i, j)`, and among those of its length the
/// one that was found first; it is empty when no pair before `(i, j)` has a
/// path.
pub open spec fn longest_before(
    adjacency: Adjacency,
    ends: Seq<Coord>,
    best: Seq<Coord>,
    i: int,
    j: int,
) -> bool {
    &&& none_longer_before(adjacency, ends, best.len(), i, j)
    &&& best.len() > 0 ==> exists|a: int, b: int|
        #![trigger candidate(adjacency, ends, a, b)]
        pair_before(a, b, i, j) && first_of_its_length(adjacency, ends, best, a, b)
}

/// `best` is the longest of the shortest paths between any two of `ends`,
/// the first one found of that length, or empty when no two of them have
/// a path.
pub open spec fn longest_among(adjacency: Adjacency, ends: Seq<Coord>, best: Seq<Coord>) -> bool {
    longest_before(adjacency, ends, best, ends.len() as int, 0)
}

/// Some shortest path from `a` to `b` has no more than `len` cells.
pub open spec fn within(adjacency: Adjacency, a: Coord, b: Coord, len: nat) -> bool {
    exists|path: Seq<Coord>| #[trigger] shortest_between(adjacency, path, a, b) && path.len() <= len
}

/// The longer of the path kept so far and the path just found; on equal
/// length the one kept so far.
pub fn keep_longer(longest: Vec<Coord>, found: Option<Vec<Coord>>) -> (kept: Vec<Coord>)
    ensures
        kept@ == match found {
            Some(path) => if path.len() > longest.len() {
                path@
            } else {
                longest@
            },
            None => longest@,
        },
{
    match found {
        Some(path) => if path.len() > longest.len() {
            path
        } else {
            longest
        },
        None => longest,
    }
}

/// The longest of the shortest paths between any two of `dead_ends`. The
/// pairs are taken in order, each end with every later one, and of several
/// paths of the greatest length the first is kept.
pub fn longest_path(graph: &Graph, dead_ends: &Vec<Coord>) -> (best: Vec<Coord>)
    requires
        edges_cover(graph_adjacency(*graph), graph_edges(*graph)),
    ensures
        longest_among(graph_adjacency(*graph), dead_ends@, best@),
        best.len() > 0 ==> exists|i: int, j: int|
            #![trigger dead_ends@[i], dead_ends@[j]]
            0 <= i < j < dead_ends.len() && shortest_between(
                graph_adjacency(*graph),
                best@,
                dead_ends@[i],
                dead_ends@[j],
            ),
        forall|i: int, j: int|
            #![trigger dead_ends@[i], dead_ends@[j]]
            0 <= i < j < dead_ends.len() && joined(
                graph_adjacency(*graph),
                dead_ends@[i],
                dead_ends@[j],
            ) ==> within(graph_adjacency(*graph), dead_ends@[i], dead_ends@[j], best@.len()),
{
    let ghost adjacency = graph_adjacency(*graph);
    let ghost ends = dead_ends@;
    let mut best: Vec<Coord> = Vec::new();
    let ghost mut at: (int, int) = (0, 0);
    let mut i: usize = 0;
    while i < dead_ends.len()
        invariant
            i <= dead_ends.len(),
            adjacency == graph_adjacency(*graph),
            edges_cover(graph_adjacency(*graph), graph_edges(*graph)),
            ends == dead_ends@,
            none_longer_before(adjacency, ends, best@.len(), i as int, 0),
            best@.len() > 0 ==> pair_before(at.0, at.1, i as int, 0) && first_of_its_length(
                adjacency,
                ends,
                best@,
                at.0,
                at.1,
            ) && shortest_between(adjacency, best@, ends[at.0], ends[at.1]),
            forall|i2: int, j2: int|
                #![trigger ends[i2], ends[j2]]
                0 <= i2 < j2 < ends.len() && pair_before(i2, j2, i as int, 0) && joined(
                    adjacency,
                    ends[i2],
                    ends[j2],
                ) ==> within(adjacency, ends[i2], ends[j2], best@.len()),
        decreases dead_ends.len() - i,
    {
        let mut j: usize = i + 1;
        while j < dead_ends.len()
            invariant
                i < dead_ends.len(),
                i < j <= dead_ends.len(),
                adjacency == graph_adjacency(*graph),
                edges_cover(graph_adjacency(*graph), graph_edges(*graph)),
                ends == dead_ends@,
                none_longer_before(adjacency, ends, best@.len(), i as int, j as int),
                best@.len() > 0 ==> pair_before(at.0, at.1, i as int, j as int)
                    && first_of_its_length(adjacency, ends, best@, at.0, at.1) && shortest_between(
                    adjacency,
                    best@,
                    ends[at.0],
                    ends[at.1],
                ),
                forall|i2: int, j2: int|
                    #![trigger ends[i2], ends[j2]]
                    0 <= i2 < j2 < ends.len() && pair_before(i2, j2, i as int, j as int) && joined(
                        adjacency,
                        ends[i2],
                        ends[j2],
                    ) ==> within(adjacency, ends[i2], ends[j2], best@.len()),
            decreases dead_ends.len() - j,
        {
            let found = shortest_path(graph, dead_ends[i], dead_ends[j]);
            let ghost before = best@;
            let ghost seen = found_view(found);
            assert(seen == candidate(adjacency, ends, i as int, j as int));
            best = keep_longer(best, found);
            proof {
                if seen is Some && seen.unwrap().len() > before.len() {
                    assert(best@ == seen.unwrap());
                    at = (i as int, j as int);
                    assert(all_shorter_before(adjacency, ends, best@.len(), i as int, j as int));
                } else {
                    assert(best@ == before);
                }
                assert forall|i2: int, j2: int|
                    #![trigger ends[i2], ends[j2]]
                    0 <= i2 < j2 < ends.len() && pair_before(i2, j2, i as int, j + 1) && joined(
                        adjacency,
                        ends[i2],
                        ends[j2],
                    ) implies within(adjacency, ends[i2], ends[j2], best@.len()) by {
                    if i2 == i && j2 == j {
                        assert(seen is Some);
                        assert(shortest_between(adjacency, seen.unwrap(), ends[i2], ends[j2]));
                    } else {
                        assert(within(adjacency, ends[i2], ends[j2], before.len()));
                        let path = choose|path: Seq<Coord>| #[trigger]
                            shortest_between(adjacency, path, ends[i2], ends[j2]) && path.len()
                                <= before.len();
                        assert(shortest_between(adjacency, path, ends[i2], ends[j2]) && path.len()
                            <= best@.len());
                    }
                }
            }
            j = j + 1;
        }
        i = i + 1;
    }
    proof {
        if best@.len() > 0 {
            assert(pair_before(at.0, at.1, ends.len() as int, 0) && first_of_its_length(
                adjacency,
                ends,
                best@,
                at.0,
                at.1,
            ));
            assert(candidate(adjacency, ends, at.0, at.1) == Some(best@));
            assert(0 <= at.0 < at.1 < dead_ends.len() && shortest_between(
                adjacency,
                best@,
                dead_ends@[at.0],
                dead_ends@[at.1],
            ));
        }
    }
    best
}

} // verus!
