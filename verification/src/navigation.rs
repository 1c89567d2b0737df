//! The map that the game plays on: a maze with its graph, the longest way
//! between two dead ends of it, and the cells that the player has seen.

use crate::connectivity::{
    charts, lemma_joined_symmetric, lemma_joined_trans, origin, two_way,
};
use crate::generator::{perfect, MazeError};
use crate::graph::{degree, graph_adjacency, graph_edges, joined, shortest_between, Adjacency};
use crate::grid::{lemma_index_coord_inverse, lemma_index_injective, Coord, Grid};
use crate::walks::manhattan;
use crate::maze::DirectionGrid;
use crate::paths::{dead_ends_of, find_dead_ends, longest_among, longest_path, within};
use crate::random::rng_from_seed;
use crate::primes::{is_next_prime, is_prime_spec};
use crate::spawn::{bag_random, is_drawn_step, SpawnIterator};
use rand::rngs::SmallRng;
use vstd::prelude::*;

verus! {

/// The side of a tile of a freshly built map, in pixels.
pub const TILE_SIZE: usize = 32;

/// How far the player is kept clear of spawn cells, in cells.
pub const PLAYER_EXCLUSION: usize = 2;

/// A maze with the size of its tiles and the cells seen so far.
pub struct TileMap {
    pub grid: DirectionGrid,
    pub tile_size: [usize; 2],
    pub seen: Grid<bool>,
}

/// A grid of `area` cells of which none has been seen.
fn unseen_cells(area: usize) -> (cells: Vec<bool>)
    ensures
        cells.len() == area,
        forall|i: int| 0 <= i < area ==> !#[trigger] cells[i],
{
    let mut cells: Vec<bool> = Vec::new();
    while cells.len() < area
        invariant
            cells.len() <= area,
            forall|i: int| 0 <= i < cells.len() ==> !#[trigger] cells[i],
        decreases area - cells.len(),
    {
        cells.push(false);
    }
    cells
}

impl TileMap {
    /// Maze and seen cells have the same shape, and the tiles have a size.
    pub open spec fn wf(&self) -> bool {
        &&& self.grid.wf()
        &&& self.seen.wf()
        &&& self.seen.width == self.grid.width
        &&& self.seen.height == self.grid.height
        &&& self.tile_size[0] > 0
        &&& self.tile_size[1] > 0
    }

    /// A fresh map whose maze is fixed by `seed`.
    pub fn with_seed(width: usize, height: usize, seed: u64) -> (r: Result<TileMap, MazeError>)
        requires
            width * height <= usize::MAX,
        ensures
            r is Err <==> width == 0 || height == 0,
            r matches Err(e) ==> e == MazeError::EmptyGrid,
            r matches Ok(map) ==> map.wf() && map.grid.width == width && map.grid.height == height
                && map.tile_size[0] == TILE_SIZE && map.tile_size[1] == TILE_SIZE && perfect(
                map.grid@,
            ) && forall|i: int| 0 <= i < map.seen.data.len() ==> !#[trigger] map.seen.data[i],
    {
        let mut rng = rng_from_seed(seed);
        TileMap::gen(width, height, &mut rng)
    }

    /// A fresh map: a perfect maze of `width` by `height` cells of which
    /// none has been seen.
    pub fn gen(width: usize, height: usize, rng: &mut SmallRng) -> (r: Result<TileMap, MazeError>)
        requires
            width * height <= usize::MAX,
        ensures
            r is Err <==> width == 0 || height == 0,
            r matches Err(e) ==> e == MazeError::EmptyGrid,
            r matches Ok(map) ==> map.wf() && map.grid.width == width && map.grid.height == height
                && map.tile_size[0] == TILE_SIZE && map.tile_size[1] == TILE_SIZE && perfect(
                map.grid@,
            ) && forall|i: int| 0 <= i < map.seen.data.len() ==> !#[trigger] map.seen.data[i],
    {
        match DirectionGrid::new(width, height, rng) {
            Ok(grid) => Ok(
                TileMap {
                    grid,
                    tile_size: [TILE_SIZE, TILE_SIZE],
                    seen: Grid { data: unseen_cells(width * height), width, height },
                },
            ),
            Err(e) => Err(e),
        }
    }

    /// Width and height of the map in pixels.
    pub fn pixel_dimensions(&self) -> (size: [usize; 2])
        requires
            self.tile_size[0] * self.grid.width <= usize::MAX,
            self.tile_size[1] * self.grid.height <= usize::MAX,
        ensures
            size[0] == self.tile_size[0] * self.grid.width,
            size[1] == self.tile_size[1] * self.grid.height,
    {
        [self.tile_size[0] * self.grid.width, self.tile_size[1] * self.grid.height]
    }

    /// The pixel in the middle of the tile of `coord`.
    pub fn coord_to_mid_pixel(&self, coord: Coord) -> (pixel: (usize, usize))
        requires
            coord.0 * self.tile_size[0] + self.tile_size[0] / 2 <= usize::MAX,
            coord.1 * self.tile_size[1] + self.tile_size[1] / 2 <= usize::MAX,
        ensures
            pixel.0 == coord.0 * self.tile_size[0] + self.tile_size[0] / 2,
            pixel.1 == coord.1 * self.tile_size[1] + self.tile_size[1] / 2,
    {
        assert(0 <= coord.0 * self.tile_size[0] && 0 <= coord.1 * self.tile_size[1])
            by (nonlinear_arith);
        (
            coord.0 * self.tile_size[0] + self.tile_size[0] / 2,
            coord.1 * self.tile_size[1] + self.tile_size[1] / 2,
        )
    }

    /// The cell whose tile holds `pixel`; the cell may lie outside the map.
    pub fn pixel_to_coord(&self, pixel: (usize, usize)) -> (coord: Coord)
        requires
            self.tile_size[0] > 0,
            self.tile_size[1] > 0,
        ensures
            coord.0 == pixel.0 / self.tile_size[0],
            coord.1 == pixel.1 / self.tile_size[1],
    {
        (pixel.0 / self.tile_size[0], pixel.1 / self.tile_size[1])
    }
}

impl Grid<bool> {
    /// Sets the cell at `coord`, if the grid has it.
    pub fn mark(&mut self, coord: Coord)
        requires
            old(self).wf(),
        ensures
            final(self).wf(),
            final(self).width == old(self).width,
            final(self).height == old(self).height,
            forall|c: Coord|
                old(self)@.in_bounds(c) ==> (#[trigger] final(self)@.at(c) == (old(self)@.at(c)
                    || c == coord)),
    {
        let ghost before = self@;
        match self.checked_coord_to_index(coord) {
            Some(index) => {
                self.data.set(index, true);
                proof {
                    assert forall|c: Coord| before.in_bounds(c) implies (#[trigger] self@.at(c) == (
                    before.at(c) || c == coord)) by {
                        lemma_index_coord_inverse(before, c, 0);
                        if before.index_of(c) == index {
                            lemma_index_injective(before, c, coord);
                        }
                    }
                }
            },
            None => {},
        }
    }

    /// Whether every cell is set.
    pub fn all_set(&self) -> (all: bool)
        ensures
            all == forall|i: int| 0 <= i < self.data.len() ==> #[trigger] self.data[i],
    {
        let mut i: usize = 0;
        while i < self.data.len()
            invariant
                i <= self.data.len(),
                forall|k: int| 0 <= k < i ==> #[trigger] self.data[k],
            decreases self.data.len() - i,
        {
            if !self.data[i] {
                return false;
            }
            i = i + 1;
        }
        true
    }
}

/// How far the player sees, in steps.
pub const VIEW_DISTANCE: usize = 2;

/// The player at `player` sees the cell `c`.
pub open spec fn in_view(player: Coord, c: Coord) -> bool {
    manhattan(player, c) <= VIEW_DISTANCE
}

/// The cell `c` lies in the square of five by five cells around `player`,
/// before the place `(dx, dy)` of that square when its places are taken
/// column by column.
pub open spec fn looked_at(player: Coord, c: Coord, dx: int, dy: int) -> bool {
    let ox = c.0 - player.0 + 2;
    let oy = c.1 - player.1 + 2;
    0 <= ox < 5 && 0 <= oy < 5 && (ox < dx || (ox == dx && oy < dy))
}

/// The coordinate at place `k` of the five places around `p`, if there is
/// such a coordinate.
pub fn around(p: usize, k: usize) -> (at: Option<usize>)
    requires
        k < 5,
    ensures
        at is Some <==> 0 <= p + k - 2 <= usize::MAX,
        at matches Some(x) ==> x == p + k - 2,
{
    if k >= 2 {
        p.checked_add(k - 2)
    } else if p >= 2 - k {
        Some(p - (2 - k))
    } else {
        None
    }
}

/// The number of steps between two coordinates.
pub fn steps_between(a: usize, b: usize) -> (steps: usize)
    ensures
        steps == if a <= b {
            b - a
        } else {
            a - b
        },
{
    if a <= b {
        b - a
    } else {
        a - b
    }
}

impl TileMap {
    /// Notes as seen the cells within two steps of the cell `player`.
    pub fn look_around(&mut self, player: Coord)
        requires
            old(self).wf(),
        ensures
            final(self).wf(),
            final(self).grid == old(self).grid,
            final(self).tile_size == old(self).tile_size,
            forall|c: Coord|
                old(self).seen@.in_bounds(c) ==> (#[trigger] final(self).seen@.at(c) == (old(self).seen@.at(c) || in_view(player, c))),
    {
        let ghost before = self.seen@;
        let mut dx: usize = 0;
        while dx < 5
            invariant
                dx <= 5,
                self.wf(),
                self.grid == old(self).grid,
                self.tile_size == old(self).tile_size,
                before == old(self).seen@,
                self.seen.width == before.width,
                self.seen.height == before.height,
                forall|c: Coord|
                    before.in_bounds(c) ==> (#[trigger] self.seen@.at(c) == (before.at(c)
                        || (in_view(player, c) && looked_at(player, c, dx as int, 0)))),
            decreases 5 - dx,
        {
            let mut dy: usize = 0;
            while dy < 5
                invariant
                    dx < 5,
                    dy <= 5,
                    self.wf(),
                    self.grid == old(self).grid,
                    self.tile_size == old(self).tile_size,
                    before == old(self).seen@,
                    self.seen.width == before.width,
                    self.seen.height == before.height,
                    forall|c: Coord|
                        before.in_bounds(c) ==> (#[trigger] self.seen@.at(c) == (before.at(c)
                            || (in_view(player, c) && looked_at(player, c, dx as int, dy as int)))),
                decreases 5 - dy,
            {
                let ghost so_far = self.seen@;
                let mut hit: Option<Coord> = None;
                match (around(player.0, dx), around(player.1, dy)) {
                    (Some(x), Some(y)) => {
                        let far = steps_between(player.0, x) + steps_between(player.1, y);
                        if far <= VIEW_DISTANCE {
                            self.seen.mark((x, y));
                            hit = Some((x, y));
                        }
                    },
                    _ => {},
                }
                proof {
                    assert forall|c: Coord| before.in_bounds(c) implies (#[trigger] self.seen@.at(c)
                        == (before.at(c) || (in_view(player, c) && looked_at(
                        player,
                        c,
                        dx as int,
                        dy + 1,
                    )))) by {
                        assert(so_far.at(c) == (before.at(c) || (in_view(player, c) && looked_at(
                            player,
                            c,
                            dx as int,
                            dy as int,
                        ))));
                        let here = c.0 - player.0 + 2 == dx && c.1 - player.1 + 2 == dy;
                        assert(looked_at(player, c, dx as int, dy + 1) == (looked_at(
                            player,
                            c,
                            dx as int,
                            dy as int,
                        ) || here));
                        if hit is Some {
                            assert(self.seen@.at(c) == (so_far.at(c) || c == hit.unwrap()));
                        }
                    }
                }
                dy = dy + 1;
            }
            proof {
                assert forall|c: Coord| before.in_bounds(c) implies (#[trigger] self.seen@.at(c)
                    == (before.at(c) || (in_view(player, c) && looked_at(
                    player,
                    c,
                    dx + 1,
                    0,
                )))) by {
                    assert(looked_at(player, c, dx + 1, 0) == looked_at(player, c, dx as int, 5));
                }
            }
            dx = dx + 1;
        }
        proof {
            assert forall|c: Coord| before.in_bounds(c) implies (#[trigger] self.seen@.at(c) == (
            before.at(c) || in_view(player, c))) by {
                assert(in_view(player, c) ==> looked_at(player, c, 5, 0));
            }
        }
    }
}

/// The pixel in the middle of a tile lies in that tile.
pub proof fn lemma_mid_pixel_round_trip(cell: int, tile: int)
    requires
        0 <= cell,
        0 < tile,
    ensures
        (cell * tile + tile / 2) / tile == cell,
{
    vstd::arithmetic::div_mod::lemma_fundamental_div_mod_converse(
        cell * tile + tile / 2,
        tile,
        cell,
        tile / 2,
    );
}

/// The graph of a maze and the longest way between two of its dead ends.
pub struct Graph {
    pub inner: crate::graph::Graph,
    pub longest_path: Vec<Coord>,
}

/// A map with its graph. The way from the first to the last cell of the
/// longest path is the way from where the player starts to the exit.
pub struct NavigableMap {
    pub inner: TileMap,
    pub graph: Graph,
}

/// `node` is a dead end of the graph: a depth-first walk from the origin
/// comes upon it, and exactly one edge ends at it.
pub open spec fn dead_end(adjacency: Adjacency, node: Coord) -> bool {
    joined(adjacency, origin(), node) && degree(adjacency, node) == 1
}

impl NavigableMap {
    /// The rows of the graph of the map.
    pub open spec fn adjacency(&self) -> Adjacency {
        graph_adjacency(self.graph.inner)
    }

    /// Charts `map`: builds the graph of its maze, finds the dead ends and
    /// searches the longest of the shortest paths between two of them.
    ///
    /// The path begins and ends at a dead end. It is as long as the way
    /// between any two dead ends at least, and where several ways are of
    /// that length, it is the first that the search has found. A graph
    /// with fewer than two dead ends has the empty path.
    pub fn with_map(map: TileMap) -> (nav: NavigableMap)
        requires
            map.grid.wf(),
        ensures
            nav.inner == map,
            charts(map.grid@, nav.adjacency(), graph_edges(nav.graph.inner)),
            longest_among(nav.adjacency(), dead_ends_of(nav.adjacency()), nav.graph.longest_path@),
            nav.graph.longest_path.len() > 0 ==> dead_end(
                nav.adjacency(),
                nav.graph.longest_path@[0],
            ) && dead_end(nav.adjacency(), nav.graph.longest_path@.last()) && shortest_between(
                nav.adjacency(),
                nav.graph.longest_path@,
                nav.graph.longest_path@[0],
                nav.graph.longest_path@.last(),
            ),
            dead_ends_of(nav.adjacency()).len() >= 2 ==> nav.graph.longest_path.len() >= 2,
            forall|a: Coord, b: Coord|
                #![trigger dead_end(nav.adjacency(), a), dead_end(nav.adjacency(), b)]
                dead_end(nav.adjacency(), a) && dead_end(nav.adjacency(), b) && a != b ==> within(
                    nav.adjacency(),
                    a,
                    b,
                    nav.graph.longest_path@.len(),
                ) || within(nav.adjacency(), b, a, nav.graph.longest_path@.len()),
    {
        let graph = map.grid.as_graph();
        let dead_ends = find_dead_ends(&graph);
        let longest = longest_path(&graph, &dead_ends);
        proof {
            let adjacency = graph_adjacency(graph);
            let ends = dead_ends@;
            assert(two_way(adjacency));
            assert forall|i: int, j: int| 0 <= i < j < ends.len() implies joined(
                adjacency,
                #[trigger] ends[i],
                #[trigger] ends[j],
            ) by {
                assert(ends.contains(ends[i]));
                assert(ends.contains(ends[j]));
                lemma_joined_symmetric(adjacency, origin(), ends[i]);
                lemma_joined_trans(adjacency, ends[i], origin(), ends[j]);
            }
            if longest@.len() > 0 {
                let (i, j) = choose|i: int, j: int|
                    #![trigger ends[i], ends[j]]
                    0 <= i < j < ends.len() && shortest_between(
                        adjacency,
                        longest@,
                        ends[i],
                        ends[j],
                    );
                assert(ends.contains(ends[i]));
                assert(ends.contains(ends[j]));
            }
            if ends.len() >= 2 {
                assert(joined(adjacency, ends[0], ends[1]));
                assert(within(adjacency, ends[0], ends[1], longest@.len()));
                let path = choose|path: Seq<Coord>| #[trigger]
                    shortest_between(adjacency, path, ends[0], ends[1]) && path.len()
                        <= longest@.len();
                assert(ends[0] != ends[1]);
                assert(path.len() >= 2);
            }
            assert forall|a: Coord, b: Coord|
                #![trigger dead_end(adjacency, a), dead_end(adjacency, b)]
                dead_end(adjacency, a) && dead_end(adjacency, b) && a != b implies within(
                adjacency,
                a,
                b,
                longest@.len(),
            ) || within(adjacency, b, a, longest@.len()) by {
                assert(ends.contains(a));
                assert(ends.contains(b));
                let i = choose|i: int| 0 <= i < ends.len() && ends[i] == a;
                let j = choose|j: int| 0 <= j < ends.len() && ends[j] == b;
                if i < j {
                    assert(joined(adjacency, ends[i], ends[j]));
                    assert(within(adjacency, ends[i], ends[j], longest@.len()));
                } else {
                    assert(joined(adjacency, ends[j], ends[i]));
                    assert(within(adjacency, ends[j], ends[i], longest@.len()));
                }
            }
        }
        NavigableMap { inner: map, graph: Graph { inner: graph, longest_path: longest } }
    }

    /// The cell where the player starts: the first of the longest path.
    pub fn spawn(&self) -> (cell: Option<Coord>)
        ensures
            cell == if self.graph.longest_path@.len() > 0 {
                Some(self.graph.longest_path@[0])
            } else {
                None
            },
    {
        if self.graph.longest_path.len() > 0 {
            Some(self.graph.longest_path[0])
        } else {
            None
        }
    }

    /// The cell of the exit: the last of the longest path.
    pub fn exit(&self) -> (cell: Option<Coord>)
        ensures
            cell == if self.graph.longest_path@.len() > 0 {
                Some(self.graph.longest_path@.last())
            } else {
                None
            },
    {
        let len = self.graph.longest_path.len();
        if len > 0 {
            Some(self.graph.longest_path[len - 1])
        } else {
            None
        }
    }

    /// Spawn cells for enemies: at most `max` cells of the map, in a
    /// random order, none of them in the square close to the cell `player`.
    /// The cells come from a fresh sampler of all cells of the map, which
    /// steps round the least prime that is not below their number.
    /// There are none when no sampler can be made for the map.
    pub fn get_enemy_spawns(&self, max: usize, player: Coord, rng: &mut SmallRng) -> (spawns:
        Option<SpawnIterator>)
        requires
            self.inner.grid.wf(),
        ensures
            spawns matches Some(cells) ==> cells.wf() && cells.max == max && cells.taken == 0
                && cells.bag.count == self.inner.grid.data.len() && is_next_prime(
                cells.bag.count as int,
                cells.bag.prime as int,
            ) && is_drawn_step(
                cells.bag.count as int,
                cells.bag.prime as int,
                cells.bag.skip as int,
            ) && cells.bag.next == 0 && cells.bag.returned == 0 && cells.bag.history()
                == Seq::<usize>::empty() && cells.width
                == self.inner.grid.width && cells.exclusion@ == exclusion_spec(player),
            (forall|q: int|
                self.inner.grid.data.len() <= q <= usize::MAX ==> !#[trigger] is_prime_spec(q))
                ==> spawns is None,
    {
        let exclusion = player_exclusion(player);
        let valid_count = self.inner.grid.data.len();
        assert(self.inner.grid.width > 0 || valid_count == 0) by (nonlinear_arith)
            requires
                valid_count == self.inner.grid.width * self.inner.grid.height,
        ;
        match bag_random(valid_count, rng) {
            Some(bag) => Some(SpawnIterator::new(max, bag, self.inner.grid.width, exclusion)),
            None => None,
        }
    }
}

/// The region that is kept free of spawn cells: the square of four by four
/// cells around the player, from two cells before the player to one cell
/// behind, as far as there are such coordinates. It is given by its least
/// column, its least row, and the column and the row that end it.
pub open spec fn exclusion_spec(player: Coord) -> Seq<usize> {
    seq![
        sub_or_zero(player.0 as int, PLAYER_EXCLUSION as int),
        sub_or_zero(player.1 as int, PLAYER_EXCLUSION as int),
        add_or_most(player.0 as int, PLAYER_EXCLUSION as int),
        add_or_most(player.1 as int, PLAYER_EXCLUSION as int),
    ]
}

/// `a - b`, or zero where that is negative.
pub open spec fn sub_or_zero(a: int, b: int) -> usize {
    if a >= b {
        (a - b) as usize
    } else {
        0
    }
}

/// `a + b`, or the largest number where that is too large.
pub open spec fn add_or_most(a: int, b: int) -> usize {
    if a + b <= usize::MAX {
        (a + b) as usize
    } else {
        usize::MAX
    }
}

/// The region around the cell `player` that is kept free of spawn cells.
pub fn player_exclusion(player: Coord) -> (region: [usize; 4])
    ensures
        region@ == exclusion_spec(player),
{
    let (x, y) = player;
    let x1: usize = if x >= PLAYER_EXCLUSION {
        x - PLAYER_EXCLUSION
    } else {
        0
    };
    let y1: usize = if y >= PLAYER_EXCLUSION {
        y - PLAYER_EXCLUSION
    } else {
        0
    };
    let x2: usize = if x <= usize::MAX - PLAYER_EXCLUSION {
        x + PLAYER_EXCLUSION
    } else {
        usize::MAX
    };
    let y2: usize = if y <= usize::MAX - PLAYER_EXCLUSION {
        y + PLAYER_EXCLUSION
    } else {
        usize::MAX
    };
    let region = [x1, y1, x2, y2];
    assert(region@ =~= exclusion_spec(player));
    region
}

} // verus!
