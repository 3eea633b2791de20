//! The rule that takes one frame to the next: every building stays what it
//! is, and each road takes the smallest distance that a neighbour offers,
//! plus one hop.

use vstd::prelude::*;
use crate::building::{nearer, one_hop_further, Building, Cell, BIG_DIST};
use crate::grid::{
    cell_at, cell_index, coord_of, get_cell, in_bounds, lemma_index_of_coord, Grid,
};

verus! {

/// The distance that the position `(x, y)` offers to a road beside it. A
/// position off the grid offers what an unreachable cell offers.
pub open spec fn offered_at(cells: Seq<Cell>, size: int, x: int, y: int) -> int {
    match cell_at(cells, size, x, y) {
        Some(cell) => cell.building.offered_distance(),
        None => BIG_DIST as int,
    }
}

/// The smallest distance offered by the four neighbours of `(x, y)`: above,
/// left, right and below. Diagonals do not count.
pub open spec fn nearest_offer(cells: Seq<Cell>, size: int, x: int, y: int) -> int {
    nearer(
        nearer(offered_at(cells, size, x, y - 1), offered_at(cells, size, x - 1, y)),
        nearer(offered_at(cells, size, x + 1, y), offered_at(cells, size, x, y + 1)),
    )
}

/// The distance of a road at `(x, y)` after one relaxation step.
pub open spec fn relaxed_distance(cells: Seq<Cell>, size: int, x: int, y: int) -> int {
    one_hop_further(nearest_offer(cells, size, x, y))
}

/// What stands at `(x, y)` in the next frame: the same building, and for a
/// road the relaxed distance.
pub open spec fn next_building(cells: Seq<Cell>, size: int, x: int, y: int) -> Building {
    match cells[cell_index(size, x, y)].building {
        Building::Road { .. } => Building::Road {
            distance_to_work: relaxed_distance(cells, size, x, y) as u16,
        },
        other => other,
    }
}

/// The next frame's cells: each one a function of the previous frame alone,
/// so that the order in which they are computed does not matter.
pub open spec fn step_cells(cells: Seq<Cell>, size: int) -> Seq<Cell> {
    Seq::new(
        (size * size) as nat,
        |i: int|
            {
                let (x, y) = coord_of(size, i);
                Cell { building: next_building(cells, size, x, y) }
            },
    )
}

/// The cells after `ticks` steps from `start`.
pub open spec fn cells_after(start: Seq<Cell>, size: int, ticks: nat) -> Seq<Cell>
    decreases ticks,
{
    if ticks == 0 {
        start
    } else {
        step_cells(cells_after(start, size, (ticks - 1) as nat), size)
    }
}

/// Whether every road among `cells` is still at the sentinel, as it is before
/// the first tick.
pub open spec fn unresolved(cells: Seq<Cell>) -> bool {
    forall|i: int|
        0 <= i < cells.len() ==> ((#[trigger] cells[i]).building is Road
            ==> cells[i].building.road_distance() == BIG_DIST)
}

/// Whether `later` holds cell by cell what `earlier` holds: the same kinds
/// with the same population and the same jobs. Only the distances of roads
/// may differ.
pub open spec fn keeps_layout(later: Seq<Cell>, earlier: Seq<Cell>) -> bool {
    &&& later.len() == earlier.len()
    &&& forall|i: int|
        0 <= i < later.len() ==> (#[trigger] later[i]).building.same_layout(earlier[i].building)
}

/// Whether no cell of `later` holds a larger distance than the same cell of
/// `earlier`.
pub open spec fn is_no_further(later: Seq<Cell>, earlier: Seq<Cell>) -> bool {
    &&& later.len() == earlier.len()
    &&& forall|i: int|
        0 <= i < later.len() ==> (#[trigger] later[i]).building.road_distance()
            <= earlier[i].building.road_distance()
}

/// The jobs offered by all offices among `cells`.
pub open spec fn total_jobs(cells: Seq<Cell>) -> nat
    decreases cells.len(),
{
    if cells.len() == 0 {
        0
    } else {
        total_jobs(cells.drop_last()) + cells.last().building.jobs_offered()
    }
}

/// The workers housed by all residential buildings among `cells`.
pub open spec fn total_workers(cells: Seq<Cell>) -> nat
    decreases cells.len(),
{
    if cells.len() == 0 {
        0
    } else {
        total_workers(cells.drop_last()) + cells.last().building.workers_housed()
    }
}

/// Each cell adds at most 255 to either sum.
pub proof fn lemma_totals_bounded(cells: Seq<Cell>)
    ensures
        total_jobs(cells) <= 255 * cells.len(),
        total_workers(cells) <= 255 * cells.len(),
    decreases cells.len(),
{
    if cells.len() > 0 {
        lemma_totals_bounded(cells.drop_last());
    }
}

/// The cell of the next frame at a coordinate on the grid is the next
/// building of that coordinate.
pub proof fn lemma_step_at(cells: Seq<Cell>, size: int, x: int, y: int)
    requires
        in_bounds(size, x, y),
    ensures
        0 <= cell_index(size, x, y) < step_cells(cells, size).len(),
        step_cells(cells, size).len() == size * size,
        step_cells(cells, size)[cell_index(size, x, y)].building == next_building(
            cells,
            size,
            x,
            y,
        ),
{
    lemma_index_of_coord(size, x, y);
}

/// The smaller of two distances.
pub fn nearer_of(a: u16, b: u16) -> (least: u16)
    ensures
        least == nearer(a as int, b as int),
    no_unwind
{
    if a <= b {
        a
    } else {
        b
    }
}

/// One hop more than `distance`, saturating at [`BIG_DIST`]: the sum never
/// wraps and never exceeds the sentinel.
pub fn add_hop(distance: u16) -> (further: u16)
    ensures
        further == one_hop_further(distance as int),
        further <= BIG_DIST,
    no_unwind
{
    if distance >= BIG_DIST - 1 {
        BIG_DIST
    } else {
        distance + 1
    }
}

/// The distance that the position `(x, y)` offers to a road beside it:
/// 0 for an office, its own distance for a road, [`BIG_DIST`] for anything
/// else and for a position off the grid.
pub fn neighbour_distance(grid: &Grid, x: i32, y: i32) -> (distance: u16)
    ensures
        distance == offered_at(grid@, grid.side(), x as int, y as int),
    no_unwind
{
    match get_cell(grid, (x, y)) {
        Some(cell) => match cell.building {
            Building::Road { distance_to_work } => distance_to_work,
            Building::Office { .. } => 0,
            _ => BIG_DIST,
        },
        None => BIG_DIST,
    }
}

/// One relaxation step for a road at `(x, y)`: the smallest distance among
/// the four neighbours in `grid`, plus one hop, saturating at [`BIG_DIST`].
pub fn relax(grid: &Grid, x: i32, y: i32) -> (distance: u16)
    requires
        i32::MIN < x < i32::MAX,
        i32::MIN < y < i32::MAX,
    ensures
        distance == relaxed_distance(grid@, grid.side(), x as int, y as int),
        distance <= BIG_DIST,
    no_unwind
{
    let above = neighbour_distance(grid, x, y - 1);
    let left = neighbour_distance(grid, x - 1, y);
    let right = neighbour_distance(grid, x + 1, y);
    let below = neighbour_distance(grid, x, y + 1);
    add_hop(nearer_of(nearer_of(above, left), nearer_of(right, below)))
}

/// What stands at `(x, y)` after a tick from `grid`: the same kind with the
/// same population or jobs, and for a road the relaxed distance. Off the grid
/// nothing stands.
pub fn advance_cell(grid: &Grid, x: i32, y: i32) -> (building: Building)
    ensures
        in_bounds(grid.side(), x as int, y as int) ==> building == next_building(
            grid@,
            grid.side(),
            x as int,
            y as int,
        ),
        !in_bounds(grid.side(), x as int, y as int) ==> building == Building::Empty,
    no_unwind
{
    proof {
        grid.lemma_side_fits();
    }
    match get_cell(grid, (x, y)) {
        Some(cell) => match cell.building {
            Building::Road { .. } => Building::Road { distance_to_work: relax(grid, x, y) },
            other => other,
        },
        None => Building::Empty,
    }
}

} // verus!
