use haex::cron::{ControlFlow, Cron};
use haex::direction::{Direction, DirectionBits};
use haex::grid::Grid;
use haex::maze::DirectionGrid;
use haex::navigation::{around, player_exclusion, steps_between, NavigableMap, TileMap};
use haex::programs::{NoClip, NopSlide, Programs, Slide};
use haex::progression::{at_exit, ExitStep, MapProgression, ProgressionType};
use rand::rngs::SmallRng;
use rand::SeedableRng;
use std::time::Duration;

fn blank(width: usize, height: usize) -> DirectionGrid {
    Grid { data: vec![DirectionBits::empty(); width * height], width, height }
}

#[test]
fn fresh_map_is_unseen_and_has_square_tiles() {
    let map = TileMap::with_seed(5, 4, 7).unwrap();
    assert_eq!(map.tile_size, [32, 32]);
    assert_eq!(map.seen.data, vec![false; 20]);
    assert_eq!(map.grid.grid_size(), [5, 4]);
    assert_eq!(map.pixel_dimensions(), [160, 128]);
    assert!(TileMap::with_seed(0, 4, 7).is_err());
    let again = TileMap::with_seed(5, 4, 7).unwrap();
    assert_eq!(map.grid.data, again.grid.data);
}

#[test]
fn pixels_and_cells_convert_both_ways() {
    let map = TileMap::with_seed(3, 3, 1).unwrap();
    assert_eq!(map.coord_to_mid_pixel((0, 0)), (16, 16));
    assert_eq!(map.coord_to_mid_pixel((2, 1)), (80, 48));
    assert_eq!(map.pixel_to_coord((0, 0)), (0, 0));
    assert_eq!(map.pixel_to_coord((31, 32)), (0, 1));
    assert_eq!(map.pixel_to_coord((95, 64)), (2, 2));
    for x in 0..3 {
        for y in 0..3 {
            assert_eq!(map.pixel_to_coord(map.coord_to_mid_pixel((x, y))), (x, y));
        }
    }
}

#[test]
fn looking_around_marks_the_cells_within_two_steps() {
    let mut map = TileMap::with_seed(6, 6, 2).unwrap();
    map.look_around((1, 0));
    let seen: Vec<(usize, usize)> = map
        .seen
        .iter()
        .into_iter()
        .filter(|(seen, _)| **seen)
        .map(|(_, coord)| coord)
        .collect();
    let mut expected = vec![(0, 0), (1, 0), (2, 0), (3, 0), (0, 1), (1, 1), (2, 1), (1, 2)];
    expected.sort_by_key(|c| (c.1, c.0));
    assert_eq!(seen, expected);
    map.look_around((5, 5));
    assert!(map.seen.data[35] && map.seen.data[33] && map.seen.data[23]);
    assert!(!map.seen.data[22]);
    assert!(map.seen.data[0]);
    assert!(!map.seen.all_set());
    map.look_around((usize::MAX, usize::MAX));
}

#[test]
fn places_around_a_coordinate() {
    assert_eq!(around(5, 0), Some(3));
    assert_eq!(around(5, 2), Some(5));
    assert_eq!(around(5, 4), Some(7));
    assert_eq!(around(1, 0), None);
    assert_eq!(around(1, 1), Some(0));
    assert_eq!(around(usize::MAX, 3), None);
    assert_eq!(steps_between(3, 8), 5);
    assert_eq!(steps_between(8, 3), 5);
}

#[test]
fn exclusion_is_a_square_close_to_the_player() {
    assert_eq!(player_exclusion((5, 1)), [3, 0, 7, 3]);
    assert_eq!(player_exclusion((7, 19)), [5, 17, 9, 21]);
    assert_eq!(player_exclusion((0, 0)), [0, 0, 2, 2]);
    assert_eq!(player_exclusion((usize::MAX, 2)), [usize::MAX - 2, 0, usize::MAX, 4]);
}

#[test]
fn enemy_spawns_keep_clear_of_the_player() {
    let map = TileMap::with_seed(8, 8, 3).unwrap();
    let nav = NavigableMap::with_map(map);
    let mut rng = SmallRng::seed_from_u64(3);
    let mut spawns = nav.get_enemy_spawns(4, (6, 6), &mut rng).unwrap();
    assert_eq!(spawns.bag.count, 64);
    assert_eq!(spawns.bag.prime, 67);
    assert_eq!(spawns.bag.next, 0);
    assert!(0 < spawns.bag.skip && spawns.bag.skip < 67);
    assert_eq!((spawns.max, spawns.taken, spawns.width), (4, 0, 8));
    assert_eq!(spawns.exclusion, [4, 4, 8, 8]);
    let mut cells = vec![];
    while let Some(cell) = spawns.next() {
        cells.push(cell);
    }
    assert_eq!(cells.len(), 4);
    for (x, y) in &cells {
        assert!(*x < 8 && *y < 8);
        assert!(!(4 <= *x && *x < 8 && 4 <= *y && *y < 8));
    }
    let mut sorted = cells.clone();
    sorted.sort();
    sorted.dedup();
    assert_eq!(sorted.len(), 4);
    // a player in the first corner keeps four cells clear: all others come out, each once
    let mut spawns = nav.get_enemy_spawns(100, (0, 0), &mut rng).unwrap();
    assert_eq!(spawns.exclusion, [0, 0, 2, 2]);
    let mut seen = vec![false; 64];
    let mut count = 0;
    while let Some((x, y)) = spawns.next() {
        assert!(x >= 2 || y >= 2);
        assert!(!seen[x + 8 * y]);
        seen[x + 8 * y] = true;
        count += 1;
    }
    assert_eq!(count, 60);
    // a player in the middle of a ten by ten map keeps sixteen cells clear
    let wide = NavigableMap::with_map(TileMap::with_seed(10, 10, 1).unwrap());
    let mut spawns = wide.get_enemy_spawns(100, (5, 5), &mut rng).unwrap();
    assert_eq!(spawns.exclusion, [3, 3, 7, 7]);
    let mut cells = vec![];
    while let Some(cell) = spawns.next() {
        cells.push(cell);
    }
    assert_eq!(cells.len(), 84);
    assert!(cells.contains(&(7, 5)) && cells.contains(&(8, 8)) && cells.contains(&(2, 5)));
    assert!(!cells.contains(&(3, 3)) && !cells.contains(&(6, 6)) && !cells.contains(&(5, 5)));
}

#[test]
fn slide_opens_one_ring_at_a_time() {
    let mut grid = blank(5, 5);
    let mut slide = Slide::new((2, 2));
    assert!(matches!(slide.step(&mut grid), ControlFlow::Continue));
    assert_eq!(slide.index, 1);
    assert_eq!(grid.data[12].bits(), 15);
    assert_eq!(grid.data[7].bits(), 4);
    assert_eq!(grid.data[13].bits(), 8);
    assert!(matches!(slide.step(&mut grid), ControlFlow::Continue));
    assert_eq!(grid.data[7].bits(), 1 + 4);
    assert_eq!(grid.data[2].bits(), 4);
    assert_eq!(grid.data[14].bits(), 8);
    assert!(matches!(slide.step(&mut grid), ControlFlow::Continue));
    // the cells of the third ring lie at the rim: no passage leads on from them
    assert_eq!(grid.data[2].bits(), 4);
    assert!(matches!(slide.step(&mut grid), ControlFlow::Stop));
    assert_eq!(slide.index, 4);
    let mut last = Slide { origin: (2, 2), index: i32::MAX };
    assert!(matches!(last.step(&mut grid), ControlFlow::Stop));
    assert_eq!(last.index, i32::MAX);
    assert!(grid.data[12].contains(Direction::N));
}

#[test]
fn programs_are_counted_and_scheduled() {
    let mut programs = Programs::default();
    NoClip::new(&mut programs);
    NoClip::new(&mut programs);
    assert_eq!(programs, Programs { nop_slide: 0, clip_count: 2 });
    let mut cron: Cron<i32, fn(&mut i32)> = Cron::default();
    fn tick(counter: &mut i32) {
        *counter += 1;
    }
    let slide = NopSlide::new(&mut cron, tick);
    assert!(cron.contains(slide.callback));
    assert_eq!(cron.every_callbacks[0].t, Duration::from_millis(100));
    let mut counter = 0;
    cron.update(Duration::from_millis(250), &mut counter);
    assert_eq!(counter, 1);
}

#[test]
fn campaign_has_three_maps_and_a_bad_end() {
    let first = MapProgression::campaign();
    let mut sides = vec![first.settings.width];
    let mut at = first.copy();
    loop {
        match at.exit {
            Some(ProgressionType::Standard(next)) => {
                assert_eq!(next.settings.width, next.settings.height);
                assert_eq!(next.settings.programs.nop_slide_count, 0);
                sides.push(next.settings.width);
                at = *next;
            },
            Some(ProgressionType::BadEnding) => break,
            None => panic!("the course has no end"),
        }
    }
    assert_eq!(sides, vec![4, 8, 12]);
}

#[test]
fn start_and_exit_are_the_ends_of_the_longest_path() {
    let nav = NavigableMap::with_map(TileMap::with_seed(6, 6, 9).unwrap());
    let path = nav.graph.longest_path.clone();
    assert_eq!(nav.spawn(), Some(path[0]));
    assert_eq!(nav.exit(), Some(path[path.len() - 1]));
    // the way from start to exit can be gone move by move
    for pair in path.windows(2) {
        let step = haex::direction::Direction::cardinals()
            .into_iter()
            .find(|d| nav.inner.grid.valid_move(pair[0], *d) == Some(pair[1]));
        assert!(step.is_some());
    }
    let small = NavigableMap::with_map(TileMap::with_seed(1, 1, 9).unwrap());
    assert_eq!(small.spawn(), None);
    assert_eq!(small.exit(), None);
}

#[test]
fn first_open_way_is_taken() {
    let mut grid = blank(3, 3);
    grid.make_open((1, 1), Direction::S);
    grid.make_open((1, 1), Direction::W);
    let order = [Direction::N, Direction::W, Direction::S, Direction::E];
    assert_eq!(grid.first_valid_move((1, 1), &order), Some((Direction::W, (0, 1))));
    let order = [Direction::E, Direction::S, Direction::W, Direction::N];
    assert_eq!(grid.first_valid_move((1, 1), &order), Some((Direction::S, (1, 2))));
    assert_eq!(grid.first_valid_move((2, 2), &order), None);
    assert_eq!(grid.first_valid_move((7, 7), &order), None);
}

#[test]
fn marking_sets_one_cell() {
    let mut seen = Grid { data: vec![false; 6], width: 3, height: 2 };
    seen.mark((2, 1));
    assert_eq!(seen.data, vec![false, false, false, false, false, true]);
    seen.mark((3, 0));
    seen.mark((0, 2));
    assert_eq!(seen.data.iter().filter(|set| **set).count(), 1);
    assert!(!seen.all_set());
    for x in 0..3 {
        for y in 0..2 {
            seen.mark((x, y));
        }
    }
    assert!(seen.all_set());
    assert!(Grid::<bool> { data: vec![], width: 0, height: 0 }.all_set());
}

#[test]
fn exit_leads_on_when_the_player_stands_on_it() {
    let course = MapProgression::campaign();
    let end = Some(ProgressionType::BadEnding);
    assert_eq!(at_exit(false, (3, 2), Some((3, 2)), &course.exit), ExitStep::NextMap);
    assert_eq!(at_exit(false, (3, 2), Some((3, 2)), &end), ExitStep::BadEnding);
    assert_eq!(at_exit(false, (3, 2), Some((3, 2)), &None), ExitStep::Stay);
    assert_eq!(at_exit(true, (3, 2), Some((3, 2)), &end), ExitStep::Stay);
    assert_eq!(at_exit(false, (2, 3), Some((3, 2)), &end), ExitStep::Stay);
    assert_eq!(at_exit(false, (3, 2), None, &end), ExitStep::Stay);
}
