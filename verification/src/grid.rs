//! Dense row-major grids and the arithmetic of cell coordinates.

use crate::direction::Direction;
use vstd::arithmetic::div_mod::{lemma_fundamental_div_mod, lemma_fundamental_div_mod_converse};
use vstd::arithmetic::mul::{lemma_mul_inequality, lemma_mul_is_commutative};
use vstd::prelude::*;

verus! {

/// A cell of a grid: column `x` first, row `y` second.
pub type Coord = (usize, usize);

/// The answer to a step that leaves the range of coordinates.
#[derive(Copy, Clone, Debug, PartialEq, Eq, Structural)]
pub struct OutOfRange;

/// Where `mult` steps from `from` in direction `d` lead, when both
/// coordinates stay within the range of `usize`.
pub open spec fn neighbor_spec(from: Coord, d: Direction, mult: int) -> Option<Coord> {
    let nx = from.0 + d.dx() * mult;
    let ny = from.1 + d.dy() * mult;
    if 0 <= nx <= usize::MAX && 0 <= ny <= usize::MAX {
        Some((nx as usize, ny as usize))
    } else {
        None
    }
}

/// The cell `mult` steps away from `from` in `direction`, or `OutOfRange`
/// when a coordinate of it would be negative or too large to represent.
pub fn neighbor_coord_mult(from: Coord, direction: Direction, mult: i32) -> (r: Result<
    Coord,
    OutOfRange,
>)
    ensures
        match r {
            Ok(c) => neighbor_spec(from, direction, mult as int) == Some(c),
            Err(_) => neighbor_spec(from, direction, mult as int) is None,
        },
{
    let (dx, dy) = direction.into_dir();
    let sx: i128 = if dx == 1 {
        mult as i128
    } else if dx == -1 {
        -(mult as i128)
    } else {
        0
    };
    let sy: i128 = if dy == 1 {
        mult as i128
    } else if dy == -1 {
        -(mult as i128)
    } else {
        0
    };
    let nx: i128 = from.0 as i128 + sx;
    let ny: i128 = from.1 as i128 + sy;
    proof {
        lemma_unit_step_times(direction.dx(), mult as int);
        lemma_unit_step_times(direction.dy(), mult as int);
    }
    if nx < 0 || ny < 0 || nx > usize::MAX as i128 || ny > usize::MAX as i128 {
        Err(OutOfRange)
    } else {
        Ok((nx as usize, ny as usize))
    }
}

/// The product of a unit step and a count of steps.
pub proof fn lemma_unit_step_times(unit: int, mult: int)
    requires
        -1 <= unit <= 1,
    ensures
        unit * mult == if unit == 1 {
            mult
        } else if unit == -1 {
            -mult
        } else {
            0
        },
{
    assert(1 * mult == mult && (-1) * mult == -mult && 0 * mult == 0) by (nonlinear_arith);
}

/// The cell next to `from` in `direction`, or `OutOfRange` when there is no
/// such coordinate.
pub fn neighbor_coord(from: Coord, direction: Direction) -> (r: Result<Coord, OutOfRange>)
    ensures
        match r {
            Ok(c) => neighbor_spec(from, direction, 1) == Some(c),
            Err(_) => neighbor_spec(from, direction, 1) is None,
        },
{
    neighbor_coord_mult(from, direction, 1)
}

/// A step and the step back along the opposite direction end where they
/// began: where the step can be taken, the step back can be taken too.
pub proof fn lemma_neighbor_round_trip(c: Coord, d: Direction, mult: int)
    requires
        neighbor_spec(c, d, mult) is Some,
    ensures
        neighbor_spec(neighbor_spec(c, d, mult).unwrap(), d.opposite_spec(), mult) == Some(c),
{
    let back = d.opposite_spec();
    assert(back.dx() == -d.dx() && back.dy() == -d.dy());
    assert(back.dx() * mult == -(d.dx() * mult)) by (nonlinear_arith)
        requires
            back.dx() == -d.dx(),
    ;
    assert(back.dy() * mult == -(d.dy() * mult)) by (nonlinear_arith)
        requires
            back.dy() == -d.dy(),
    ;
}

/// The column and row of the `index`-th cell of a row-major grid that is
/// `width` cells wide.
pub open spec fn coord_of(index: int, width: int) -> (int, int) {
    (index % width, index / width)
}

/// The mathematical content of a grid: its cells row by row and its two
/// dimensions.
#[verifier::ext_equal]
pub struct GridView<T> {
    pub cells: Seq<T>,
    pub width: nat,
    pub height: nat,
}

impl<T> GridView<T> {
    /// There is exactly one value for each cell, and the dimensions are
    /// such as a machine can hold.
    pub open spec fn wf(self) -> bool {
        &&& self.cells.len() == self.width * self.height
        &&& self.width <= usize::MAX
        &&& self.height <= usize::MAX
    }

    /// Whether `coord` names a cell of the grid.
    pub open spec fn in_bounds(self, coord: Coord) -> bool {
        coord.0 < self.width && coord.1 < self.height
    }

    /// The position of `coord` in the row-major sequence of cells.
    pub open spec fn index_of(self, coord: Coord) -> int {
        coord.0 + coord.1 * self.width
    }

    /// The value of the cell at `coord`.
    pub open spec fn at(self, coord: Coord) -> T {
        self.cells[self.index_of(coord)]
    }

    /// The same grid with other cells.
    pub open spec fn with_cells(self, cells: Seq<T>) -> GridView<T> {
        GridView { cells, width: self.width, height: self.height }
    }
}

/// A dense `width` by `height` array of cells, stored row by row.
#[derive(Debug)]
pub struct Grid<T> {
    pub data: Vec<T>,
    pub width: usize,
    pub height: usize,
}

impl<T> View for Grid<T> {
    type V = GridView<T>;

    open spec fn view(&self) -> GridView<T> {
        GridView { cells: self.data@, width: self.width as nat, height: self.height as nat }
    }
}

impl<T> Grid<T> {
    /// The grid holds exactly one value for each of its cells.
    pub open spec fn wf(&self) -> bool {
        self@.wf()
    }

    /// Width and height, in this order.
    pub fn grid_size(&self) -> (size: [usize; 2])
        ensures
            size[0] == self.width,
            size[1] == self.height,
    {
        [self.width, self.height]
    }

    /// Whether `coord` lies inside the grid.
    pub fn contains(&self, coord: Coord) -> (r: bool)
        ensures
            r == self@.in_bounds(coord),
    {
        let (x, y) = coord;
        x < self.width && y < self.height
    }

    /// The storage index of `coord`; the coordinate need not lie inside the
    /// grid, but the index must be representable.
    pub fn coord_to_index(&self, coord: Coord) -> (index: usize)
        requires
            coord.0 + coord.1 * self.width <= usize::MAX,
        ensures
            index == self@.index_of(coord),
    {
        assert(0 <= coord.1 * self.width) by (nonlinear_arith);
        coord.0 + coord.1 * self.width
    }

    /// The storage index of `coord` when it lies inside the grid.
    pub fn checked_coord_to_index(&self, coord: Coord) -> (r: Option<usize>)
        requires
            self.wf(),
        ensures
            r is Some == self@.in_bounds(coord),
            r is Some ==> r.unwrap() == self@.index_of(coord) && r.unwrap() < self.data.len(),
    {
        if coord.0 < self.width && coord.1 < self.height {
            proof {
                lemma_index_in_range(coord, self.width as int, self.height as int);
                assert(self.data.len() == (self.width as int) * (self.height as int));
            }
            Some(self.coord_to_index(coord))
        } else {
            None
        }
    }

    /// The coordinate of the cell stored at `index`.
    pub fn index_to_coord(&self, index: usize) -> (coord: Coord)
        requires
            self.width > 0,
        ensures
            (coord.0 as int, coord.1 as int) == coord_of(index as int, self.width as int),
    {
        d1_to_d2(index, self.width)
    }

    /// Every cell with its coordinate, in storage order.
    pub fn iter(&self) -> (cells: Vec<(&T, Coord)>)
        requires
            self.wf(),
        ensures
            cells.len() == self.data.len(),
            forall|i: int|
                0 <= i < cells.len() ==> *(#[trigger] cells[i]).0 == self.data[i] && (
                cells[i].1.0 as int,
                cells[i].1.1 as int,
            ) == coord_of(i, self.width as int),
    {
        let mut cells: Vec<(&T, Coord)> = Vec::new();
        let mut index: usize = 0;
        while index < self.data.len()
            invariant
                self.wf(),
                index <= self.data.len(),
                cells.len() == index,
                forall|i: int|
                    0 <= i < cells.len() ==> *(#[trigger] cells[i]).0 == self.data[i] && (
                    cells[i].1.0 as int,
                    cells[i].1.1 as int,
                ) == coord_of(i, self.width as int),
            decreases self.data.len() - index,
        {
            assert(self.width > 0) by (nonlinear_arith)
                requires
                    self.width * self.height > 0,
            ;
            let coord = d1_to_d2(index, self.width);
            cells.push((&self.data[index], coord));
            index = index + 1;
        }
        cells
    }
}

/// Splits a storage index into column and row.
pub fn d1_to_d2(index: usize, width: usize) -> (coord: Coord)
    requires
        width > 0,
    ensures
        (coord.0 as int, coord.1 as int) == coord_of(index as int, width as int),
{
    (index % width, index / width)
}

/// Inside a `width` by `height` grid the row-major index of a cell is below
/// the number of cells.
pub proof fn lemma_index_in_range(coord: Coord, width: int, height: int)
    requires
        0 <= coord.0 < width,
        0 <= coord.1 < height,
    ensures
        0 <= coord.0 + coord.1 * width < width * height,
        0 <= coord.1 * width,
{
    assert(coord.1 * width <= (height - 1) * width) by (nonlinear_arith)
        requires
            0 <= coord.1 <= height - 1,
            0 <= width,
    ;
    assert((height - 1) * width == width * height - width) by (nonlinear_arith);
    assert(0 <= coord.1 * width) by (nonlinear_arith)
        requires
            0 <= coord.1,
            0 <= width,
    ;
}

/// Column and row of a position below `width * height` are below `width`
/// and `height`.
pub proof fn lemma_coord_of_bounds(index: int, width: int, height: int)
    requires
        0 <= index < width * height,
        0 <= width,
        0 <= height,
    ensures
        0 < width,
        0 <= index % width < width,
        0 <= index / width < height,
        (index % width) + (index / width) * width == index,
{
    let w = width;
    let h = height;
    assert(w > 0) by (nonlinear_arith)
        requires
            w * h > 0,
            w >= 0,
    ;
    lemma_fundamental_div_mod(index, w);
    let q = index / w;
    assert(0 <= index % w < w);
    assert(q >= 0) by (nonlinear_arith)
        requires
            index >= 0,
            w > 0,
            q == index / w,
    ;
    if q >= h {
        lemma_mul_inequality(h, q, w);
        lemma_mul_is_commutative(h, w);
        lemma_mul_is_commutative(q, w);
        assert(false);
    }
    lemma_mul_is_commutative(q, w);
}

/// Index and coordinate are exact inverses of each other inside a grid.
pub proof fn lemma_index_coord_inverse<T>(grid: GridView<T>, coord: Coord, index: int)
    requires
        grid.wf(),
    ensures
        grid.in_bounds(coord) ==> {
            &&& 0 <= grid.index_of(coord) < grid.cells.len()
            &&& coord_of(grid.index_of(coord), grid.width as int) == (
                coord.0 as int,
                coord.1 as int,
            )
        },
        0 <= index < grid.cells.len() ==> {
            let c = coord_of(index, grid.width as int);
            &&& 0 <= c.0 < grid.width
            &&& 0 <= c.1 < grid.height
            &&& c.0 + c.1 * grid.width == index
        },
{
    let w = grid.width as int;
    let h = grid.height as int;
    if grid.in_bounds(coord) {
        lemma_index_in_range(coord, w, h);
        lemma_fundamental_div_mod_converse(
            grid.index_of(coord),
            w,
            coord.1 as int,
            coord.0 as int,
        );
    }
    if 0 <= index < grid.cells.len() {
        lemma_coord_of_bounds(index, w, h);
    }
}

/// Two cells of a grid that are stored at the same place are the same cell.
pub proof fn lemma_index_injective<T>(grid: GridView<T>, a: Coord, b: Coord)
    requires
        grid.wf(),
        grid.in_bounds(a),
        grid.in_bounds(b),
        grid.index_of(a) == grid.index_of(b),
    ensures
        a == b,
{
    lemma_index_coord_inverse(grid, a, 0);
    lemma_index_coord_inverse(grid, b, 0);
}

/// The cell stored at position `i` of a grid that is `width` cells wide.
pub open spec fn coord_at(i: int, width: int) -> Coord {
    ((i % width) as usize, (i / width) as usize)
}

/// The cells of a grid that are stored before position `k`.
pub open spec fn cells_before<T>(grid: GridView<T>, k: int) -> Set<Coord> {
    Set::new(|c: Coord| grid.in_bounds(c) && grid.index_of(c) < k)
}

/// All cells of a grid.
pub open spec fn all_cells<T>(grid: GridView<T>) -> Set<Coord> {
    Set::new(|c: Coord| grid.in_bounds(c))
}

/// There are `k` cells before position `k`.
pub proof fn lemma_cells_before<T>(grid: GridView<T>, k: int)
    requires
        grid.wf(),
        0 <= k <= grid.cells.len(),
    ensures
        cells_before(grid, k).finite(),
        cells_before(grid, k).len() == k,
    decreases k,
{
    if k == 0 {
        assert forall|c: Coord| !cells_before(grid, 0).contains(c) by {
            if grid.in_bounds(c) {
                lemma_index_coord_inverse(grid, c, 0);
            }
        }
        assert(cells_before(grid, 0) =~= Set::<Coord>::empty());
    } else {
        lemma_cells_before(grid, k - 1);
        let c = coord_at(k - 1, grid.width as int);
        lemma_index_coord_inverse(grid, c, k - 1);
        assert(grid.in_bounds(c) && grid.index_of(c) == k - 1);
        assert forall|x: Coord|
            cells_before(grid, k).contains(x) <==> cells_before(grid, k - 1).insert(c).contains(
                x,
            ) by {
            if grid.in_bounds(x) && grid.index_of(x) == k - 1 {
                lemma_index_injective(grid, x, c);
            }
        }
        assert(cells_before(grid, k) =~= cells_before(grid, k - 1).insert(c));
    }
}

/// A grid has as many cells as it stores values.
pub proof fn lemma_all_cells<T>(grid: GridView<T>)
    requires
        grid.wf(),
    ensures
        all_cells(grid).finite(),
        all_cells(grid).len() == grid.cells.len(),
{
    lemma_cells_before(grid, grid.cells.len() as int);
    assert forall|c: Coord|
        all_cells(grid).contains(c) <==> cells_before(grid, grid.cells.len() as int).contains(
            c,
        ) by {
        if grid.in_bounds(c) {
            lemma_index_coord_inverse(grid, c, 0);
        }
    }
    assert(all_cells(grid) =~= cells_before(grid, grid.cells.len() as int));
}

} // verus!
