//! Corner marks: a pass over a finished maze that marks, on every cell, the
//! corners around which the maze is open on all sides.

use crate::direction::{Direction, DirectionBits};
use crate::grid::{d1_to_d2, Grid};
use crate::tiles::{tile_index, tile_spec};
use crate::grid::{coord_at, lemma_index_coord_inverse, Coord};
use crate::maze::{neighbor_in, DirectionGrid, MazeView};
use vstd::prelude::*;

verus! {

/// The horizontal and the vertical cardinal between which the corner
/// direction `k` lies.
pub open spec fn corner_parts(k: Direction) -> (Direction, Direction) {
    match k {
        Direction::NEC => (Direction::E, Direction::N),
        Direction::SEC => (Direction::E, Direction::S),
        Direction::SWC => (Direction::W, Direction::S),
        Direction::NWC => (Direction::W, Direction::N),
        _ => (k, k),
    }
}

/// Whether the block of four cells around corner `k` of cell `c` is open:
/// `c` is open towards both cardinals of the corner, its neighbour on the
/// horizontal side is open towards the vertical cardinal, and its
/// neighbour on the vertical side is open towards the horizontal one.
pub open spec fn corner_is_open(grid: MazeView, c: Coord, k: Direction) -> bool {
    let (h, v) = corner_parts(k);
    &&& !k.is_cardinal()
    &&& grid.in_bounds(c)
    &&& grid.at(c).has(h)
    &&& grid.at(c).has(v)
    &&& neighbor_in(grid, c, h) is Some
    &&& grid.at(neighbor_in(grid, c, h).unwrap()).has(v)
    &&& neighbor_in(grid, c, v) is Some
    &&& grid.at(neighbor_in(grid, c, v).unwrap()).has(h)
}

/// `after` is `before` with every open corner marked and nothing else
/// changed.
pub open spec fn corners_resolved(before: MazeView, after: MazeView) -> bool {
    &&& after.width == before.width
    &&& after.height == before.height
    &&& after.cells.len() == before.cells.len()
    &&& forall|c: Coord, d: Direction|
        #![trigger after.at(c).has(d)]
        before.in_bounds(c) ==> (after.at(c).has(d) <==> before.at(c).has(d) || corner_is_open(
            before,
            c,
            d,
        ))
}

/// Two mazes of the same shape whose cells agree on the cardinals have the
/// same open corners.
pub proof fn lemma_corner_reads_cardinals(a: MazeView, b: MazeView, c: Coord, k: Direction)
    requires
        a.wf(),
        b.wf(),
        a.width == b.width,
        a.height == b.height,
        forall|i: int, d: Direction|
            #![trigger a.cells[i].has(d)]
            0 <= i < a.cells.len() && d.is_cardinal() ==> a.cells[i].has(d) == b.cells[i].has(d),
    ensures
        corner_is_open(a, c, k) == corner_is_open(b, c, k),
{
    if a.in_bounds(c) && !k.is_cardinal() {
        let (h, v) = corner_parts(k);
        lemma_index_coord_inverse(a, c, 0);
        assert(a.at(c).has(h) == b.at(c).has(h));
        assert(a.at(c).has(v) == b.at(c).has(v));
        if neighbor_in(a, c, h) is Some {
            let side = neighbor_in(a, c, h).unwrap();
            lemma_index_coord_inverse(a, side, 0);
            assert(a.at(side).has(v) == b.at(side).has(v));
        }
        if neighbor_in(a, c, v) is Some {
            let above = neighbor_in(a, c, v).unwrap();
            lemma_index_coord_inverse(a, above, 0);
            assert(a.at(above).has(h) == b.at(above).has(h));
        }
    }
}

/// Whether corner `corner` of the cell at `coord` is open in `grid`.
fn corner_open(grid: &DirectionGrid, coord: Coord, corner: Direction) -> (r: bool)
    requires
        grid.wf(),
        !corner.is_cardinal(),
    ensures
        r == corner_is_open(grid@, coord, corner),
{
    let (h, v) = match corner {
        Direction::NEC => (Direction::E, Direction::N),
        Direction::SEC => (Direction::E, Direction::S),
        Direction::SWC => (Direction::W, Direction::S),
        _ => (Direction::W, Direction::N),
    };
    match (grid.valid_move(coord, h), grid.valid_move(coord, v)) {
        (Some(side), Some(above)) => {
            match (grid.checked_coord_to_index(side), grid.checked_coord_to_index(above)) {
                (Some(i), Some(j)) => grid.data[i].contains(v) && grid.data[j].contains(h),
                _ => false,
            }
        },
        _ => false,
    }
}

/// Marks on every cell the corners around which the maze is open. The
/// cardinal openings are only read, never changed.
pub fn apply_not_corner_bit(grid: &mut DirectionGrid)
    requires
        old(grid).wf(),
    ensures
        final(grid).wf(),
        corners_resolved(old(grid)@, final(grid)@),
{
    let ghost before = grid@;
    let mut index: usize = 0;
    while index < grid.data.len()
        invariant
            before.wf(),
            grid.wf(),
            grid.width == before.width,
            grid.height == before.height,
            grid.data.len() == before.cells.len(),
            index <= grid.data.len(),
            forall|i: int, d: Direction|
                #![trigger grid.data@[i].has(d)]
                0 <= i < grid.data.len() ==> (grid.data@[i].has(d) <==> before.cells[i].has(d) || (i
                    < index && corner_is_open(before, coord_at(i, before.width as int), d))),
        decreases grid.data.len() - index,
    {
        proof {
            lemma_index_coord_inverse(before, (0, 0), index as int);
        }
        let coord = grid.index_to_coord(index);
        assert(coord == coord_at(index as int, before.width as int));
        proof {
            assert forall|i: int, d: Direction|
                #![trigger grid@.cells[i].has(d)]
                0 <= i < grid@.cells.len() && d.is_cardinal() implies grid@.cells[i].has(d)
                == before.cells[i].has(d) by {
                assert(grid.data@[i].has(d) <==> before.cells[i].has(d) || (i < index
                    && corner_is_open(before, coord_at(i, before.width as int), d)));
            }
            lemma_corner_reads_cardinals(grid@, before, coord, Direction::NEC);
            lemma_corner_reads_cardinals(grid@, before, coord, Direction::SEC);
            lemma_corner_reads_cardinals(grid@, before, coord, Direction::SWC);
            lemma_corner_reads_cardinals(grid@, before, coord, Direction::NWC);
        }
        let south_east = corner_open(grid, coord, Direction::SEC);
        let south_west = corner_open(grid, coord, Direction::SWC);
        let north_west = corner_open(grid, coord, Direction::NWC);
        let north_east = corner_open(grid, coord, Direction::NEC);
        let mut cell = grid.data[index];
        let ghost was = cell;
        if south_east {
            cell.insert(Direction::SEC);
        }
        if south_west {
            cell.insert(Direction::SWC);
        }
        if north_west {
            cell.insert(Direction::NWC);
        }
        if north_east {
            cell.insert(Direction::NEC);
        }
        proof {
            assert forall|d: Direction| #[trigger]
                cell.has(d) == (was.has(d) || corner_is_open(before, coord, d)) by {
                assert(was.has(d) == before.cells[index as int].has(d)) by {
                    assert(grid.data@[index as int].has(d) <==> before.cells[index as int].has(d)
                        || (index < index && corner_is_open(
                        before,
                        coord_at(index as int, before.width as int),
                        d,
                    )));
                }
            }
        }
        let ghost prior = grid.data@;
        grid.data.set(index, cell);
        proof {
            assert forall|i: int, d: Direction|
                #![trigger grid.data@[i].has(d)]
                0 <= i < grid.data.len() implies (grid.data@[i].has(d) <==> before.cells[i].has(d)
                || (i < index + 1 && corner_is_open(
                before,
                coord_at(i, before.width as int),
                d,
            ))) by {
                if i == index {
                    assert(cell.has(d) == (was.has(d) || corner_is_open(before, coord, d)));
                    assert(was.has(d) == before.cells[i].has(d)) by {
                        assert(prior[i].has(d) <==> before.cells[i].has(d) || (i < index
                            && corner_is_open(before, coord_at(i, before.width as int), d)));
                    }
                } else {
                    assert(prior[i].has(d) <==> before.cells[i].has(d) || (i < index
                        && corner_is_open(before, coord_at(i, before.width as int), d)));
                }
            }
        }
        index = index + 1;
    }
    proof {
        let after = grid@;
        assert forall|c: Coord, d: Direction|
            #![trigger after.at(c).has(d)]
            before.in_bounds(c) implies (after.at(c).has(d) <==> before.at(c).has(d)
            || corner_is_open(before, c, d)) by {
            lemma_index_coord_inverse(before, c, 0);
            let i = before.index_of(c);
            assert(coord_at(i, before.width as int) == c);
            assert(grid.data@[i].has(d) <==> before.cells[i].has(d) || (i < index
                && corner_is_open(before, coord_at(i, before.width as int), d)));
        }
    }
}

/// The arena: a maze of `width` by `height` cells in which every cell is
/// open towards each of its eight neighbours, as far as it has them.
pub fn map_gen(width: usize, height: usize) -> (grid: DirectionGrid)
    requires
        width * height <= usize::MAX,
    ensures
        grid.wf(),
        grid.width == width,
        grid.height == height,
        forall|c: Coord, d: Direction|
            #![trigger grid@.at(c).has(d)]
            grid@.in_bounds(c) ==> (grid@.at(c).has(d) <==> neighbor_in(grid@, c, d) is Some),
{
    let area: usize = width * height;
    let mut data: Vec<DirectionBits> = Vec::new();
    let ghost shape = crate::grid::GridView::<DirectionBits> {
        cells: Seq::empty(),
        width: width as nat,
        height: height as nat,
    };
    while data.len() < area
        invariant
            area == width * height,
            shape.width == width,
            shape.height == height,
            data.len() <= area,
            forall|i: int, d: Direction|
                #![trigger data@[i].has(d)]
                0 <= i < data.len() ==> (data@[i].has(d) <==> d.is_cardinal() && neighbor_in(
                    shape,
                    coord_at(i, width as int),
                    d,
                ) is Some),
        decreases area - data.len(),
    {
        assert(width > 0 && height > 0) by (nonlinear_arith)
            requires
                width * height > 0,
        ;
        let index = data.len();
        let (x, y) = d1_to_d2(index, width);
        proof {
            crate::grid::lemma_coord_of_bounds(index as int, width as int, height as int);
            assert(x == (index as int) % (width as int));
            assert(y == (index as int) / (width as int));
            assert(x < width && y < height);
        }
        let mut cell = DirectionBits::empty();
        cell.insert(Direction::N);
        cell.insert(Direction::E);
        cell.insert(Direction::S);
        cell.insert(Direction::W);
        let ghost open = cell;
        assert forall|d: Direction| #[trigger] open.has(d) == d.is_cardinal() by {}
        if y == 0 {
            cell.remove(Direction::N);
        }
        let ghost north = cell;
        if y == height - 1 {
            cell.remove(Direction::S);
        }
        let ghost south = cell;
        if x == 0 {
            cell.remove(Direction::W);
        }
        let ghost west = cell;
        if x == width - 1 {
            cell.remove(Direction::E);
        }
        assert forall|d: Direction| #[trigger]
            cell.has(d) == (d.is_cardinal() && neighbor_in(shape, (x, y), d) is Some) by {
            assert(north.has(d) == (open.has(d) && !(y == 0 && d == Direction::N)));
            assert(south.has(d) == (north.has(d) && !(y == height - 1 && d == Direction::S)));
            assert(west.has(d) == (south.has(d) && !(x == 0 && d == Direction::W)));
            assert(cell.has(d) == (west.has(d) && !(x == width - 1 && d == Direction::E)));
            assert(shape.in_bounds((x, y)));
            if d == Direction::N {
                assert(neighbor_in(shape, (x, y), d) is Some <==> y != 0);
            } else if d == Direction::S {
                assert(neighbor_in(shape, (x, y), d) is Some <==> y != height - 1);
            } else if d == Direction::W {
                assert(neighbor_in(shape, (x, y), d) is Some <==> x != 0);
            } else if d == Direction::E {
                assert(neighbor_in(shape, (x, y), d) is Some <==> x != width - 1);
            }
        }
        let ghost earlier = data@;
        data.push(cell);
        proof {
            assert forall|i: int, d: Direction|
                #![trigger data@[i].has(d)]
                0 <= i < data.len() implies (data@[i].has(d) <==> d.is_cardinal() && neighbor_in(
                shape,
                coord_at(i, width as int),
                d,
            ) is Some) by {
                if i < index {
                    assert(data@[i] == earlier[i]);
                } else {
                    assert(coord_at(i, width as int) == (x, y));
                    assert(data@[i] == cell);
                }
            }
        }
    }
    let mut grid = Grid { data, width, height };
    let ghost before = grid@;
    proof {
        assert forall|c: Coord, d: Direction|
            #![trigger before.at(c).has(d)]
            before.in_bounds(c) implies (before.at(c).has(d) <==> d.is_cardinal() && neighbor_in(
            before,
            c,
            d,
        ) is Some) by {
            lemma_index_coord_inverse(before, c, 0);
            let i = before.index_of(c);
            assert(coord_at(i, width as int) == c);
            assert(neighbor_in(shape, c, d) == neighbor_in(before, c, d));
        }
    }
    apply_not_corner_bit(&mut grid);
    proof {
        let after = grid@;
        assert forall|c: Coord, d: Direction|
            #![trigger after.at(c).has(d)]
            after.in_bounds(c) implies (after.at(c).has(d) <==> neighbor_in(after, c, d)
            is Some) by {
            assert(neighbor_in(after, c, d) == neighbor_in(before, c, d));
            assert(after.at(c).has(d) <==> before.at(c).has(d) || corner_is_open(before, c, d));
            if !d.is_cardinal() {
                let (h, v) = corner_parts(d);
                assert(h.is_cardinal() && v.is_cardinal());
                if neighbor_in(before, c, h) is Some {
                    let side = neighbor_in(before, c, h).unwrap();
                    assert(before.at(side).has(v) <==> neighbor_in(before, side, v) is Some);
                }
                if neighbor_in(before, c, v) is Some {
                    let above = neighbor_in(before, c, v).unwrap();
                    assert(before.at(above).has(h) <==> neighbor_in(before, above, h) is Some);
                }
            }
        }
    }
    grid
}

/// Every cell of the maze has a tile.
pub open spec fn all_tiled(grid: MazeView) -> bool {
    forall|c: Coord| grid.in_bounds(c) ==> tile_spec(#[trigger] grid.at(c)) is Some
}

/// After the corners of a maze without corner marks have been marked, every
/// cell is the class that decides its looks: no corner is marked that does
/// not stand between two open cardinals.
pub proof fn lemma_resolved_cells_are_classes(before: MazeView, after: MazeView, c: Coord)
    requires
        corners_resolved(before, after),
        before.in_bounds(c),
        forall|d: Direction| #[trigger] before.at(c).has(d) ==> d.is_cardinal(),
    ensures
        crate::tiles::canonical_bits(after.at(c).bits) == after.at(c).bits,
{
    let cell = after.at(c);
    assert forall|d: Direction| cell.has(d) implies crate::tiles::keeps(cell, d) by {
        assert(after.at(c).has(d) <==> before.at(c).has(d) || corner_is_open(before, c, d));
        if !d.is_cardinal() {
            let (h, v) = corner_parts(d);
            assert(corner_is_open(before, c, d));
            assert(after.at(c).has(h) <==> before.at(c).has(h) || corner_is_open(before, c, h));
            assert(after.at(c).has(v) <==> before.at(c).has(v) || corner_is_open(before, c, v));
        }
    }
    crate::tiles::lemma_canonical_fixed(cell);
}

/// A maze without marked corners, such as one that has just been built,
/// has a tile for every cell.
pub proof fn lemma_cardinal_mazes_are_tiled(grid: MazeView)
    requires
        grid.wf(),
        forall|c: Coord, d: Direction|
            #![trigger grid.at(c).has(d)]
            grid.in_bounds(c) && grid.at(c).has(d) ==> d.is_cardinal(),
    ensures
        all_tiled(grid),
{
    assert forall|c: Coord| grid.in_bounds(c) implies tile_spec(#[trigger] grid.at(c)) is Some by {
        let cell = grid.at(c);
        assert(cell.only_cardinals()) by {
            assert forall|d: Direction| cell.has(d) implies d.is_cardinal() by {
                assert(grid.at(c).has(d));
            }
        }
        crate::tiles::lemma_cardinal_cells_have_tiles(cell);
    }
}

/// The cell at position `k` when the cells are taken column by column.
pub open spec fn column_major(k: int, height: int) -> Coord {
    ((k / height) as usize, (k % height) as usize)
}

/// `entry` is the cell at position `k` of the batch with its tile.
pub open spec fn is_tile_of(grid: MazeView, entry: (Coord, u16), k: int) -> bool {
    &&& entry.0 == column_major(k, grid.height as int)
    &&& grid.in_bounds(entry.0)
    &&& tile_spec(grid.at(entry.0)) == Some(entry.1)
}

/// The tiles of a maze, each with its cell, column by column. There is no
/// batch for a maze with a cell that has no tile.
pub fn create_batch(grid: &DirectionGrid) -> (batch: Option<Vec<(Coord, u16)>>)
    requires
        grid.wf(),
    ensures
        batch is Some <==> all_tiled(grid@),
        batch matches Some(tiles) ==> tiles.len() == grid.width * grid.height && forall|k: int|
            0 <= k < tiles.len() ==> is_tile_of(grid@, #[trigger] tiles[k], k),
{
    let mut tiles: Vec<(Coord, u16)> = Vec::new();
    let mut x: usize = 0;
    while x < grid.width
        invariant
            grid.wf(),
            x <= grid.width,
            tiles.len() == x * grid.height,
            forall|k: int| 0 <= k < tiles.len() ==> is_tile_of(grid@, #[trigger] tiles[k], k),
        decreases grid.width - x,
    {
        let mut y: usize = 0;
        while y < grid.height
            invariant
                grid.wf(),
                x < grid.width,
                y <= grid.height,
                tiles.len() == x * grid.height + y,
                forall|k: int| 0 <= k < tiles.len() ==> is_tile_of(grid@, #[trigger] tiles[k], k),
            decreases grid.height - y,
        {
            let index = match grid.checked_coord_to_index((x, y)) {
                Some(index) => index,
                None => {
                    return None;
                },
            };
            let cell = grid.data[index];
            let ghost earlier = tiles@;
            match tile_index(cell) {
                Some(tile) => {
                    proof {
                        vstd::arithmetic::div_mod::lemma_fundamental_div_mod_converse(
                            x * grid.height + y,
                            grid.height as int,
                            x as int,
                            y as int,
                        );
                    }
                    tiles.push(((x, y), tile));
                },
                None => {
                    assert(!all_tiled(grid@)) by {
                        assert(grid@.in_bounds((x, y)));
                        assert(tile_spec(grid@.at((x, y))) is None);
                    }
                    return None;
                },
            }
            proof {
                assert forall|k: int| 0 <= k < tiles.len() implies is_tile_of(
                    grid@,
                    #[trigger] tiles[k],
                    k,
                ) by {
                    if k < earlier.len() {
                        assert(tiles[k] == earlier[k]);
                    }
                }
            }
            y = y + 1;
        }
        proof {
            assert((x + 1) * grid.height == x * grid.height + grid.height) by (nonlinear_arith);
        }
        x = x + 1;
    }
    proof {
        assert(x * grid.height == grid.width * grid.height) by (nonlinear_arith)
            requires
                x == grid.width,
        ;
        assert forall|c: Coord| grid@.in_bounds(c) implies tile_spec(#[trigger] grid@.at(c))
            is Some by {
            let k = c.0 * grid.height + c.1;
            crate::grid::lemma_index_in_range((c.1, c.0), grid.height as int, grid.width as int);
            assert(grid.height * grid.width == grid.width * grid.height) by (nonlinear_arith);
            vstd::arithmetic::div_mod::lemma_fundamental_div_mod_converse(
                k,
                grid.height as int,
                c.0 as int,
                c.1 as int,
            );
            assert(is_tile_of(grid@, tiles[k], k));
        }
    }
    Some(tiles)
}

} // verus!
