use haex::corners::{apply_not_corner_bit, create_batch, map_gen};
use haex::direction::{Direction, DirectionBits};
use haex::generator::{growing_tree, MazeError, Selector, Weights};
use haex::grid::{neighbor_coord, neighbor_coord_mult, Grid, OutOfRange};
use haex::maze::DirectionGrid;
use rand::rngs::SmallRng;
use rand::SeedableRng;
use haex::tiles::{canonical, class_index, tile_index, CLASS_COUNT};

fn blank(width: usize, height: usize) -> DirectionGrid {
    Grid { data: vec![DirectionBits::empty(); width * height], width, height }
}

fn standard_weights() -> Weights {
    Weights { random: 1, newest: 1, middle: 0, oldest: 0 }
}

#[test]
fn growing_tree_test() {
    let mut rng = SmallRng::seed_from_u64(0);
    let grid = growing_tree(3, 3, standard_weights(), &mut rng).unwrap();

    assert_eq!(grid.len(), 3 * 3);
    for cell in grid {
        assert_ne!(cell, DirectionBits::empty());
    }
}

#[test]
fn graph_test() {
    let mut rng = SmallRng::seed_from_u64(0);
    let grid = growing_tree(3, 3, standard_weights(), &mut rng).unwrap();

    let grid = Grid { data: grid, width: 3, height: 3 };
    let graph = grid.as_graph();

    for x in 0..3 {
        for y in 0..3 {
            let coord = (x, y);
            let index = grid.coord_to_index(coord);

            for neighbor in graph.neighbors(coord) {
                let dx = neighbor.0 as i32 - coord.0 as i32;
                let dy = neighbor.1 as i32 - coord.1 as i32;

                let directions = grid.data[index];
                let all = [
                    Direction::N,
                    Direction::E,
                    Direction::S,
                    Direction::W,
                    Direction::NEC,
                    Direction::SEC,
                    Direction::SWC,
                    Direction::NWC,
                ];
                let valid = all.iter().filter(|d| directions.contains(**d)).any(|direction| {
                    let (nx, ny) = direction.into_dir();
                    nx as i32 == dx && ny as i32 == dy
                });
                assert!(valid, "({:?} -> {:?})", coord, neighbor);
            }
        }
    }
}

#[test]
fn neighbor_test() {
    let origin = (5, 4);
    assert_eq!(neighbor_coord(origin, Direction::N), Ok((5, 3)));

    assert_eq!(neighbor_coord_mult(origin, Direction::N, 2), Ok((5, 2)));
    assert_eq!(neighbor_coord_mult(origin, Direction::N, 3), Ok((5, 1)));
    assert_eq!(neighbor_coord_mult(origin, Direction::N, 4), Ok((5, 0)));
    assert!(neighbor_coord_mult(origin, Direction::N, 5).is_err());
}

#[test]
fn make_open_test() {
    let (width, height) = (2, 2);
    let mut grid = blank(width, height);

    let from = (0, 0);
    let to = (0, 1);
    grid.make_open(from, Direction::S);
    assert_eq!(grid.data[grid.coord_to_index(from)], DirectionBits::single(Direction::S));
    assert_eq!(grid.data[grid.coord_to_index(to)], DirectionBits::single(Direction::N));

    grid.make_open((1, 0), Direction::E);
    assert_eq!(grid.data[grid.coord_to_index((1, 0))], DirectionBits::empty());
    assert_ne!(grid.data[grid.coord_to_index((0, 1))], DirectionBits::empty());
}

#[test]
fn map_gen_test() {
    let map = map_gen(3, 3);
    assert_eq!(map.data[4], DirectionBits::all());
}

#[test]
fn direction_tables() {
    assert_eq!(Direction::N.into_dir(), (0, -1));
    assert_eq!(Direction::E.into_dir(), (1, 0));
    assert_eq!(Direction::S.into_dir(), (0, 1));
    assert_eq!(Direction::W.into_dir(), (-1, 0));
    assert_eq!(Direction::NEC.into_dir(), (1, -1));
    assert_eq!(Direction::SEC.into_dir(), (1, 1));
    assert_eq!(Direction::SWC.into_dir(), (-1, 1));
    assert_eq!(Direction::NWC.into_dir(), (-1, -1));
    assert_eq!(Direction::N.opposite(), Direction::S);
    assert_eq!(Direction::E.opposite(), Direction::W);
    assert_eq!(Direction::NEC.opposite(), Direction::SWC);
    assert_eq!(Direction::SEC.opposite(), Direction::NWC);
    assert_eq!(
        Direction::cardinals(),
        [Direction::N, Direction::E, Direction::S, Direction::W]
    );
    assert_eq!(Direction::N.bit(), 1);
    assert_eq!(Direction::NWC.bit(), 128);
}

#[test]
fn direction_bits_behave_like_a_set() {
    let mut bits = DirectionBits::empty();
    assert!(bits.is_empty());
    bits.insert(Direction::E);
    bits.insert(Direction::SWC);
    assert!(bits.contains(Direction::E));
    assert!(bits.contains(Direction::SWC));
    assert!(!bits.contains(Direction::N));
    assert_eq!(bits.bits(), 2 + 64);
    bits.remove(Direction::E);
    assert_eq!(bits, DirectionBits::single(Direction::SWC));
    let both = bits.union(DirectionBits::single(Direction::N));
    assert_eq!(both.bits(), 65);
    assert_eq!(DirectionBits::all().bits(), 255);
}

#[test]
fn neighbor_round_trip() {
    let all = [
        Direction::N,
        Direction::E,
        Direction::S,
        Direction::W,
        Direction::NEC,
        Direction::SEC,
        Direction::SWC,
        Direction::NWC,
    ];
    for d in all {
        let there = neighbor_coord((7, 9), d).unwrap();
        assert_eq!(neighbor_coord(there, d.opposite()), Ok((7, 9)));
    }
    assert_eq!(neighbor_coord((0, 0), Direction::W), Err(OutOfRange));
    assert_eq!(neighbor_coord((0, 3), Direction::NWC), Err(OutOfRange));
    assert_eq!(neighbor_coord_mult((2, 2), Direction::SEC, 3), Ok((5, 5)));
    assert_eq!(neighbor_coord_mult((2, 2), Direction::E, -2), Ok((0, 2)));
    assert_eq!(neighbor_coord_mult((2, 2), Direction::E, -3), Err(OutOfRange));
}

#[test]
fn grid_index_and_coordinate_are_inverse() {
    let grid = blank(4, 3);
    assert_eq!(grid.grid_size(), [4, 3]);
    for index in 0..12 {
        let coord = grid.index_to_coord(index);
        assert!(grid.contains(coord));
        assert_eq!(grid.coord_to_index(coord), index);
        assert_eq!(grid.checked_coord_to_index(coord), Some(index));
    }
    assert_eq!(grid.index_to_coord(5), (1, 1));
    assert_eq!(grid.coord_to_index((3, 2)), 11);
    assert_eq!(grid.checked_coord_to_index((4, 0)), None);
    assert_eq!(grid.checked_coord_to_index((0, 3)), None);
    assert!(!grid.contains((4, 2)));
    let cells = grid.iter();
    assert_eq!(cells.len(), 12);
    assert_eq!(cells[7].1, (3, 1));
}

#[test]
fn make_open_is_symmetric_and_idempotent() {
    let mut grid = blank(3, 3);
    grid.make_open((1, 1), Direction::E);
    let once = grid.data.clone();
    assert!(grid.data[4].contains(Direction::E));
    assert!(grid.data[5].contains(Direction::W));
    grid.make_open((1, 1), Direction::E);
    assert_eq!(grid.data, once);
    grid.make_open((2, 1), Direction::E);
    assert_eq!(grid.data, once);
    grid.make_open((5, 5), Direction::N);
    assert_eq!(grid.data, once);
}

#[test]
fn valid_move_needs_an_opening_and_a_cell() {
    let mut grid = blank(2, 2);
    grid.make_open((0, 0), Direction::E);
    assert_eq!(grid.valid_move((0, 0), Direction::E), Some((1, 0)));
    assert_eq!(grid.valid_move((1, 0), Direction::W), Some((0, 0)));
    assert_eq!(grid.valid_move((0, 0), Direction::S), None);
    assert_eq!(grid.valid_move((2, 0), Direction::W), None);
    grid.data[1].insert(Direction::E);
    assert_eq!(grid.valid_move((1, 0), Direction::E), None);
    grid.data[0].insert(Direction::N);
    assert_eq!(grid.valid_move((0, 0), Direction::N), None);
}

#[test]
fn generated_mazes_are_covered_and_symmetric() {
    for seed in 0..20u64 {
        for (width, height) in [(1usize, 2usize), (2, 1), (3, 3), (5, 4), (8, 8)] {
            let mut rng = SmallRng::seed_from_u64(seed);
            let grid = DirectionGrid::new(width, height, &mut rng).unwrap();
            assert_eq!(grid.data.len(), width * height);
            let mut openings = 0;
            for index in 0..grid.data.len() {
                let cell = grid.data[index];
                assert!(!cell.is_empty());
                assert_eq!(cell.bits() & 0xf0, 0);
                let coord = grid.index_to_coord(index);
                for d in Direction::cardinals() {
                    if cell.contains(d) {
                        openings += 1;
                        let next = grid.valid_move(coord, d).unwrap();
                        assert_eq!(grid.valid_move(next, d.opposite()), Some(coord));
                    }
                }
            }
            assert_eq!(openings, 2 * (width * height - 1));
        }
    }
}

#[test]
fn single_cell_maze_has_no_opening() {
    let mut rng = SmallRng::seed_from_u64(3);
    let cells = growing_tree(1, 1, standard_weights(), &mut rng).unwrap();
    assert_eq!(cells, vec![DirectionBits::empty()]);
}

#[test]
fn every_strategy_builds_a_maze() {
    for weights in [
        Weights { random: 1, newest: 0, middle: 0, oldest: 0 },
        Weights { random: 0, newest: 1, middle: 0, oldest: 0 },
        Weights { random: 0, newest: 0, middle: 1, oldest: 0 },
        Weights { random: 0, newest: 0, middle: 0, oldest: 1 },
        Weights { random: 3, newest: 2, middle: 1, oldest: 4 },
    ] {
        let mut rng = SmallRng::seed_from_u64(11);
        let cells = growing_tree(6, 5, weights, &mut rng).unwrap();
        assert!(cells.iter().all(|cell| !cell.is_empty()));
    }
}

#[test]
fn generation_reports_bad_settings() {
    let mut rng = SmallRng::seed_from_u64(0);
    assert_eq!(
        growing_tree(3, 3, Weights::default(), &mut rng),
        Err(MazeError::AllWeightsZero)
    );
    assert_eq!(growing_tree(0, 3, standard_weights(), &mut rng), Err(MazeError::EmptyGrid));
    assert_eq!(growing_tree(3, 0, standard_weights(), &mut rng), Err(MazeError::EmptyGrid));
    assert_eq!(growing_tree(0, 0, Weights::default(), &mut rng), Err(MazeError::AllWeightsZero));
    assert!(DirectionGrid::new(0, 0, &mut rng).is_err());
}

#[test]
fn selectors_pick_their_index() {
    let mut rng = SmallRng::seed_from_u64(5);
    assert_eq!(Selector::Newest.select(&mut rng, 9), 9);
    assert_eq!(Selector::Middle.select(&mut rng, 9), 4);
    assert_eq!(Selector::Oldest.select(&mut rng, 9), 0);
    for _ in 0..50 {
        assert!(Selector::Random.select(&mut rng, 9) <= 9);
    }
    assert_eq!(Selector::Random.select(&mut rng, 0), 0);
}

#[test]
fn corners_are_marked_around_open_blocks() {
    let mut grid = blank(2, 2);
    grid.make_open((0, 0), Direction::E);
    grid.make_open((0, 0), Direction::S);
    grid.make_open((1, 0), Direction::S);
    apply_not_corner_bit(&mut grid);
    // three sides of the block are open: no corner yet
    assert_eq!(grid.data[0].bits(), 2 + 4);
    grid.make_open((0, 1), Direction::E);
    apply_not_corner_bit(&mut grid);
    assert_eq!(grid.data[0].bits(), 2 + 4 + 32);
    assert_eq!(grid.data[1].bits(), 8 + 4 + 64);
    assert_eq!(grid.data[2].bits(), 1 + 2 + 16);
    assert_eq!(grid.data[3].bits(), 1 + 8 + 128);
}

#[test]
fn arena_is_open_towards_every_neighbour() {
    let map = map_gen(3, 2);
    assert_eq!(map.data[0].bits(), 2 + 4 + 32);
    assert_eq!(map.data[1].bits(), 2 + 4 + 8 + 32 + 64);
    assert_eq!(map.data[2].bits(), 4 + 8 + 64);
    assert_eq!(map.data[3].bits(), 1 + 2 + 16);
    assert_eq!(map.data[4].bits(), 1 + 2 + 8 + 16 + 128);
    assert_eq!(map.data[5].bits(), 1 + 8 + 128);
    assert_eq!(map_gen(1, 1).data, vec![DirectionBits::empty()]);
    assert!(map_gen(0, 4).data.is_empty());
}

#[test]
fn tiles_follow_the_table() {
    let tile = |bits: u8| tile_index(DirectionBits { bits });
    assert_eq!(tile(0), Some(342));
    assert_eq!(tile(1), Some(286));
    assert_eq!(tile(2), Some(313));
    assert_eq!(tile(4), Some(312));
    assert_eq!(tile(8), Some(285));
    assert_eq!(tile(3), Some(307));
    assert_eq!(tile(15), Some(341));
    assert_eq!(tile(16 + 1 + 2), Some(314));
    assert_eq!(tile(128 + 1 + 8), Some(315));
    assert_eq!(tile(32 + 64 + 14), Some(365));
    assert_eq!(tile(255), Some(340));
    assert_eq!(tile(16), None);
    assert_eq!(tile(15 + 16), None);
    assert_eq!(tile(15 + 16 + 64), None);
    let mut with_tile = 0;
    for bits in 0..=255u8 {
        if tile(bits).is_some() {
            with_tile += 1;
        }
    }
    assert_eq!(with_tile, 41);
}

#[test]
fn batch_lists_the_tiles_column_by_column() {
    let map = map_gen(2, 3);
    let batch = create_batch(&map).unwrap();
    assert_eq!(batch.len(), 6);
    assert_eq!(batch[0], ((0, 0), 287));
    assert_eq!(batch[1], ((0, 1), 338));
    assert_eq!(batch[2], ((0, 2), 314));
    assert_eq!(batch[3], ((1, 0), 288));
    assert_eq!(batch[5], ((1, 2), 315));
    let mut odd = blank(1, 1);
    odd.data[0].insert(Direction::NEC);
    assert_eq!(create_batch(&odd), None);
}

#[test]
fn every_pattern_falls_into_one_of_the_classes() {
    let mut used = vec![false; CLASS_COUNT];
    for bits in 0..=255u8 {
        let cell = DirectionBits { bits };
        let class = canonical(cell);
        assert_eq!(canonical(class), class);
        assert_eq!(class.bits() & 15, bits & 15);
        let index = class_index(cell);
        assert!(index < CLASS_COUNT);
        assert_eq!(class_index(class), index);
        used[index] = true;
        if tile_index(cell).is_some() {
            assert_eq!(class, cell);
        }
    }
    assert!(used.iter().all(|used| *used));
    assert_eq!(canonical(DirectionBits { bits: 16 + 1 }).bits(), 1);
    assert_eq!(canonical(DirectionBits { bits: 16 + 1 + 2 }).bits(), 19);
    assert_eq!(canonical(DirectionBits { bits: 255 - 8 }).bits(), 7 + 16 + 32);
    assert_eq!(class_index(DirectionBits { bits: 0 }), 0);
    assert_eq!(class_index(DirectionBits { bits: 19 }), 16);
    assert_eq!(class_index(DirectionBits { bits: 255 }), 46);
}
