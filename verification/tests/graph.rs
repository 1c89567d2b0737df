use haex::direction::{Direction, DirectionBits};
use haex::grid::Grid;
use haex::maze::DirectionGrid;
use haex::navigation::{NavigableMap, TileMap};
use haex::paths::{find_dead_ends, is_dead_end, keep_longer, longest_path};
use rand::rngs::SmallRng;
use rand::SeedableRng;

fn blank(width: usize, height: usize) -> DirectionGrid {
    Grid { data: vec![DirectionBits::empty(); width * height], width, height }
}

fn map_of(grid: DirectionGrid) -> TileMap {
    let (width, height) = (grid.width, grid.height);
    TileMap {
        grid,
        tile_size: [32, 32],
        seen: Grid { data: vec![false; width * height], width, height },
    }
}

#[test]
fn graph_of_a_fresh_maze_is_a_spanning_tree() {
    for seed in 0..10u64 {
        let mut rng = SmallRng::seed_from_u64(seed);
        let grid = DirectionGrid::new(6, 5, &mut rng).unwrap();
        let graph = grid.as_graph();
        assert_eq!(graph.node_count(), 30);
        assert_eq!(graph.edge_count(), 29);
        for (a, b, _) in graph.all_edges() {
            let dx = b.0 as i64 - a.0 as i64;
            let dy = b.1 as i64 - a.1 as i64;
            assert_eq!(dx.abs() + dy.abs(), 1);
            let d = Direction::cardinals()
                .into_iter()
                .find(|d| {
                    let (x, y) = d.into_dir();
                    (x as i64, y as i64) == (dx, dy)
                })
                .unwrap();
            assert!(grid.data[grid.coord_to_index(a)].contains(d));
            assert!(grid.data[grid.coord_to_index(b)].contains(d.opposite()));
        }
    }
}

#[test]
fn graph_holds_what_the_origin_reaches() {
    let mut grid = blank(3, 2);
    grid.make_open((0, 0), Direction::E);
    grid.make_open((1, 0), Direction::S);
    // a passage that the origin does not reach
    grid.make_open((2, 0), Direction::S);
    let graph = grid.as_graph();
    assert_eq!(graph.node_count(), 3);
    assert_eq!(graph.edge_count(), 2);
    assert!(graph.contains_edge((0, 0), (1, 0)));
    assert!(graph.contains_edge((1, 0), (1, 1)));
    assert!(!graph.contains_node((2, 0)));
}

#[test]
fn graph_of_a_maze_with_a_loop_stays_a_tree() {
    let mut grid = blank(2, 2);
    grid.make_open((0, 0), Direction::E);
    grid.make_open((0, 0), Direction::S);
    grid.make_open((1, 0), Direction::S);
    grid.make_open((0, 1), Direction::E);
    let graph = grid.as_graph();
    assert_eq!(graph.node_count(), 4);
    assert_eq!(graph.edge_count(), 3);
    // east first, then on from there: the way south of the origin is not taken
    assert!(graph.contains_edge((0, 0), (1, 0)));
    assert!(graph.contains_edge((1, 0), (1, 1)));
    assert!(graph.contains_edge((1, 1), (0, 1)));
    assert!(!graph.contains_edge((0, 0), (0, 1)));
}

#[test]
fn empty_maze_has_the_empty_graph() {
    let grid = blank(0, 0);
    let graph = grid.as_graph();
    assert_eq!(graph.node_count(), 0);
    assert_eq!(graph.edge_count(), 0);
    let nav = NavigableMap::with_map(map_of(blank(0, 3)));
    assert!(nav.graph.longest_path.is_empty());
}

#[test]
fn dead_ends_have_one_edge() {
    assert!(is_dead_end(1));
    assert!(!is_dead_end(0));
    assert!(!is_dead_end(2));
    // a corridor with a side arm: (0,0)-(1,0)-(2,0) and (1,0)-(1,1)
    let mut grid = blank(3, 2);
    grid.make_open((0, 0), Direction::E);
    grid.make_open((1, 0), Direction::E);
    grid.make_open((1, 0), Direction::S);
    let graph = grid.as_graph();
    let ends = find_dead_ends(&graph);
    assert_eq!(ends.len(), 3);
    for end in [(0, 0), (2, 0), (1, 1)] {
        assert!(ends.contains(&end));
        assert_eq!(graph.neighbors(end).count(), 1);
    }
}

#[test]
fn longer_path_is_kept_and_ties_go_to_the_first() {
    assert_eq!(keep_longer(vec![(0, 0)], Some(vec![(1, 1), (1, 2)])), vec![(1, 1), (1, 2)]);
    assert_eq!(keep_longer(vec![(0, 0), (0, 1)], Some(vec![(1, 1), (1, 2)])), vec![
        (0, 0),
        (0, 1)
    ]);
    assert_eq!(keep_longer(vec![(0, 0)], None), vec![(0, 0)]);
    assert_eq!(keep_longer(vec![], Some(vec![])), vec![]);
}

#[test]
fn longest_path_runs_between_the_farthest_dead_ends() {
    // a corridor of four cells with a side arm of one cell at its second cell
    let mut grid = blank(4, 2);
    grid.make_open((0, 0), Direction::E);
    grid.make_open((1, 0), Direction::E);
    grid.make_open((2, 0), Direction::E);
    grid.make_open((1, 0), Direction::S);
    let graph = grid.as_graph();
    let ends = find_dead_ends(&graph);
    let path = longest_path(&graph, &ends);
    assert_eq!(path.len(), 4);
    let first = path[0];
    let last = path[3];
    assert!(first == (0, 0) && last == (3, 0) || first == (3, 0) && last == (0, 0));
    assert_eq!(path[1].1, 0);
    assert_eq!(path[2].1, 0);
    assert_eq!(longest_path(&graph, &vec![]), vec![]);
    assert_eq!(longest_path(&graph, &vec![(0, 0)]), vec![]);
}

#[test]
fn longest_path_of_fresh_mazes_ends_at_dead_ends() {
    for seed in 0..10u64 {
        let map = TileMap::with_seed(7, 6, seed).unwrap();
        let nav = NavigableMap::with_map(map);
        let graph = &nav.graph.inner;
        let path = &nav.graph.longest_path;
        assert!(path.len() >= 2);
        assert_eq!(graph.neighbors(path[0]).count(), 1);
        assert_eq!(graph.neighbors(*path.last().unwrap()).count(), 1);
        for pair in path.windows(2) {
            assert!(graph.contains_edge(pair[0], pair[1]));
        }
        let ends = find_dead_ends(graph);
        for a in &ends {
            for b in &ends {
                let found = petgraph::algo::astar(graph, *a, |n| n == *b, |_| 1usize, |_| 0usize);
                assert!(found.unwrap().1.len() <= path.len());
            }
        }
    }
}

#[test]
fn single_cell_has_no_longest_path() {
    let nav = NavigableMap::with_map(TileMap::with_seed(1, 1, 0).unwrap());
    assert!(nav.graph.longest_path.is_empty());
    assert_eq!(nav.graph.inner.node_count(), 1);
}
