//! The square grid: coordinates, row-major indexing, bounded lookup and the
//! enumeration of all coordinates.

use vstd::prelude::*;
use vstd::arithmetic::div_mod::{lemma_fundamental_div_mod, lemma_fundamental_div_mod_converse};
use crate::building::{empty_cell, Building, Cell};

verus! {

/// Whether `(x, y)` lies on a grid of side `size`.
pub open spec fn in_bounds(size: int, x: int, y: int) -> bool {
    0 <= x < size && 0 <= y < size
}

/// The row-major index of `(x, y)` on a grid of side `size`.
pub open spec fn cell_index(size: int, x: int, y: int) -> int {
    y * size + x
}

/// The coordinate whose row-major index is `index`.
pub open spec fn coord_of(size: int, index: int) -> (int, int) {
    (index % size, index / size)
}

/// Whether `cells` holds exactly the cells of a grid of side `size`.
pub open spec fn is_grid(cells: Seq<Cell>, size: int) -> bool {
    0 <= size && cells.len() == size * size
}

/// The cell at `(x, y)`, or `None` where the coordinate is off the grid: the
/// world's edge is an ordinary outcome, not a failure.
pub open spec fn cell_at(cells: Seq<Cell>, size: int, x: int, y: int) -> Option<Cell> {
    if in_bounds(size, x, y) {
        Some(cells[cell_index(size, x, y)])
    } else {
        None
    }
}

/// The grid of side `size` on which nothing has been built.
pub open spec fn empty_cells(size: int) -> Seq<Cell> {
    Seq::new((size * size) as nat, |i: int| empty_cell())
}

/// Every coordinate of a grid of side `size`, row by row: all `x` for
/// `y = 0`, then all `x` for `y = 1`, and so on.
pub open spec fn all_coords(size: int) -> Seq<(int, int)> {
    Seq::new((size * size) as nat, |i: int| coord_of(size, i))
}

/// A coordinate on the grid has its index within the grid, and the index
/// leads back to the coordinate.
pub proof fn lemma_index_of_coord(size: int, x: int, y: int)
    requires
        in_bounds(size, x, y),
    ensures
        0 <= cell_index(size, x, y) < size * size,
        coord_of(size, cell_index(size, x, y)) == (x, y),
{
    assert(0 <= y * size && y * size + size <= size * size) by (nonlinear_arith)
        requires
            0 <= y < size,
    ;
    lemma_fundamental_div_mod_converse(cell_index(size, x, y), size, y, x);
}

/// An index within the grid is the index of a coordinate on the grid.
pub proof fn lemma_coord_of_index(size: int, index: int)
    requires
        0 <= size,
        0 <= index < size * size,
    ensures
        in_bounds(size, coord_of(size, index).0, coord_of(size, index).1),
        cell_index(size, coord_of(size, index).0, coord_of(size, index).1) == index,
{
    assert(size > 0) by (nonlinear_arith)
        requires
            0 <= size,
            0 <= index < size * size,
    ;
    lemma_fundamental_div_mod(index, size);
    let q = index / size;
    let r = index % size;
    assert(0 <= r < size);
    assert(0 <= q < size) by (nonlinear_arith)
        requires
            index == size * q + r,
            0 <= r < size,
            0 <= index < size * size,
    ;
    assert(size * q == q * size) by (nonlinear_arith);
}

/// The enumeration visits every cell exactly once, in row-major order: each
/// coordinate of the grid stands at its own index, and nothing else stands
/// anywhere.
pub proof fn lemma_coords_cover_grid(size: int)
    requires
        0 <= size,
    ensures
        all_coords(size).len() == size * size,
        forall|x: int, y: int|
            in_bounds(size, x, y) ==> {
                &&& 0 <= #[trigger] cell_index(size, x, y) < size * size
                &&& all_coords(size)[cell_index(size, x, y)] == (x, y)
            },
        forall|i: int|
            0 <= i < size * size ==> {
                let coord = #[trigger] all_coords(size)[i];
                &&& in_bounds(size, coord.0, coord.1)
                &&& cell_index(size, coord.0, coord.1) == i
            },
{
    assert(0 <= size * size) by (nonlinear_arith)
        requires
            0 <= size,
    ;
    assert forall|x: int, y: int| in_bounds(size, x, y) implies {
        &&& 0 <= #[trigger] cell_index(size, x, y) < size * size
        &&& all_coords(size)[cell_index(size, x, y)] == (x, y)
    } by {
        lemma_index_of_coord(size, x, y);
    }
    assert forall|i: int| 0 <= i < size * size implies {
        let coord = #[trigger] all_coords(size)[i];
        &&& in_bounds(size, coord.0, coord.1)
        &&& cell_index(size, coord.0, coord.1) == i
    } by {
        lemma_coord_of_index(size, i);
    }
}

/// The row-major index of a coordinate on the grid, as a machine integer.
fn index_of(size: u16, x: i32, y: i32) -> (index: usize)
    requires
        in_bounds(size as int, x as int, y as int),
    ensures
        index == cell_index(size as int, x as int, y as int),
        index < size * size,
    no_unwind
{
    proof {
        lemma_index_of_coord(size as int, x as int, y as int);
        assert(size * size <= 0xFFFF_FFFF) by (nonlinear_arith)
            requires
                size <= 0xFFFF,
        ;
        assert(0 <= y * size <= size * size) by (nonlinear_arith)
            requires
                0 <= y < size,
        ;
    }
    (y as usize) * (size as usize) + (x as usize)
}

/// A square grid of cells, stored row by row. Its length is fixed when it is
/// made and never changes.
pub struct Grid {
    size: u16,
    cells: Vec<Cell>,
}

impl View for Grid {
    type V = Seq<Cell>;

    /// The cells in row-major order.
    closed spec fn view(&self) -> Seq<Cell> {
        self.cells@
    }
}

impl Grid {
    /// The side length.
    pub closed spec fn side(&self) -> int {
        self.size as int
    }

    /// A grid holds one cell for each of its coordinates, at every moment.
    #[verifier::type_invariant]
    pub open spec fn holds_every_cell(self) -> bool {
        is_grid(self@, self.side())
    }

    /// The side length is that of a `u16`.
    pub proof fn lemma_side_fits(&self)
        ensures
            0 <= self.side() <= u16::MAX,
    {
    }

    /// A grid of side `size` with nothing built on it.
    pub fn new(size: u16) -> (grid: Grid)
        ensures
            grid.side() == size,
            grid@ == empty_cells(size as int),
    {
        assert(size * size <= 0xFFFF_FFFF) by (nonlinear_arith)
            requires
                size <= 0xFFFF,
        ;
        let count = (size as usize) * (size as usize);
        let mut cells: Vec<Cell> = Vec::new();
        let mut filled: usize = 0;
        while filled < count
            invariant
                filled <= count,
                cells@.len() == filled,
                forall|i: int| 0 <= i < filled ==> cells@[i] == empty_cell(),
            decreases count - filled,
        {
            cells.push(Cell { building: Building::Empty });
            filled += 1;
        }
        assert(cells@ =~= empty_cells(size as int));
        Grid { size, cells }
    }

    /// The side length. A grid always holds `size * size` cells.
    pub fn size(&self) -> (size: u16)
        ensures
            size == self.side(),
            is_grid(self@, size as int),
        no_unwind
    {
        proof {
            use_type_invariant(self);
        }
        self.size
    }

    /// The cells in row-major order, for reading.
    pub fn cells(&self) -> (cells: &Vec<Cell>)
        ensures
            cells@ == self@,
            is_grid(self@, self.side()),
    {
        proof {
            use_type_invariant(self);
        }
        &self.cells
    }

    /// Puts `building` at `(x, y)` and says whether the coordinate lies on the
    /// grid. Off the grid nothing is changed.
    pub fn place(&mut self, x: i32, y: i32, building: Building) -> (placed: bool)
        ensures
            final(self).side() == old(self).side(),
            placed == in_bounds(old(self).side(), x as int, y as int),
            placed ==> final(self)@ == old(self)@.update(
                cell_index(old(self).side(), x as int, y as int),
                (Cell { building }),
            ),
            !placed ==> final(self)@ == old(self)@,
        no_unwind
    {
        proof {
            use_type_invariant(&*self);
        }
        if x >= 0 && x < self.size as i32 && y >= 0 && y < self.size as i32 {
            let index = index_of(self.size, x, y);
            self.cells[index] = Cell { building };
            true
        } else {
            false
        }
    }
}

/// The cell at `coord`, or `None` where the coordinate lies off the grid.
pub fn get_cell(grid: &Grid, coord: (i32, i32)) -> (cell: Option<&Cell>)
    ensures
        cell.is_some() == in_bounds(grid.side(), coord.0 as int, coord.1 as int),
        match cell {
            Some(c) => Some(*c) == cell_at(grid@, grid.side(), coord.0 as int, coord.1 as int),
            None => cell_at(grid@, grid.side(), coord.0 as int, coord.1 as int) is None,
        },
    no_unwind
{
    proof {
        use_type_invariant(grid);
    }
    let (x, y) = coord;
    if x >= 0 && x < grid.size as i32 && y >= 0 && y < grid.size as i32 {
        let index = index_of(grid.size, x, y);
        Some(&grid.cells[index])
    } else {
        None
    }
}

/// A pass over every coordinate of a grid, in row-major order. Each call of
/// [`grid_coords`] starts a fresh pass, whatever was consumed before.
pub struct GridCoords {
    size: u16,
    x: u16,
    y: u16,
}

impl GridCoords {
    #[verifier::type_invariant]
    spec fn on_grid_or_done(self) -> bool {
        (self.x < self.size && self.y < self.size) || (self.x == 0 && self.y == self.size)
    }

    /// The side length of the grid that is enumerated.
    pub closed spec fn side(&self) -> int {
        self.size as int
    }

    /// How many coordinates have been handed out.
    pub closed spec fn position(&self) -> int {
        cell_index(self.size as int, self.x as int, self.y as int)
    }

    /// The next coordinate of the pass, or `None` once every cell has been
    /// visited.
    pub fn next(&mut self) -> (coord: Option<(i32, i32)>)
        ensures
            final(self).side() == old(self).side(),
            0 <= old(self).position() <= old(self).side() * old(self).side(),
            old(self).position() < old(self).side() * old(self).side() ==> {
                &&& final(self).position() == old(self).position() + 1
                &&& coord matches Some(c)
                &&& (c.0 as int, c.1 as int) == all_coords(old(self).side())[old(self).position()]
            },
            old(self).position() == old(self).side() * old(self).side() ==> {
                &&& final(self).position() == old(self).position()
                &&& coord is None
            },
        no_unwind
    {
        proof {
            use_type_invariant(&*self);
            if self.y < self.size {
                lemma_index_of_coord(self.size as int, self.x as int, self.y as int);
            }
        }
        if self.y < self.size {
            let coord = (self.x as i32, self.y as i32);
            assert((self.y + 1) * self.size == self.y * self.size + self.size)
                by (nonlinear_arith);
            if self.x + 1 < self.size {
                self.x += 1;
            } else {
                self.x = 0;
                self.y += 1;
            }
            Some(coord)
        } else {
            None
        }
    }
}

/// Starts a pass over every coordinate of a grid of side `size`.
pub fn grid_coords(size: u16) -> (coords: GridCoords)
    ensures
        coords.side() == size,
        coords.position() == 0,
    no_unwind
{
    GridCoords { size, x: 0, y: 0 }
}

} // verus!
