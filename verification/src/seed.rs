//! Seed configurations: what to build where before the first tick.

use vstd::prelude::*;
use crate::building::{empty_cell, Building, Cell, BIG_DIST};
use crate::grid::{cell_index, empty_cells, in_bounds, is_grid, lemma_index_of_coord};
use crate::rules::unresolved;

verus! {

/// The four kinds of building that a seed can name.
#[derive(Clone, Copy, Debug, PartialEq, Eq, Structural)]
pub enum BuildingKind {
    Empty,
    Residential,
    Office,
    Road,
}

/// One entry of a seed configuration: what to build at `(x, y)`. `payload` is
/// the population of a residential building or the jobs of an office; the
/// other kinds ignore it.
#[derive(Clone, Copy, Debug, PartialEq, Eq, Structural)]
pub struct Seed {
    pub x: i32,
    pub y: i32,
    pub kind: BuildingKind,
    pub payload: u8,
}

/// Why a seed configuration was turned down.
#[derive(Clone, Copy, Debug, PartialEq, Eq, Structural)]
pub enum ConfigError {
    /// The seed at `index` names the coordinate `(x, y)`, which lies off the
    /// grid.
    SeedOutOfBounds { index: usize, x: i32, y: i32 },
}

impl Seed {
    /// The building that this seed puts down. A road starts with no known
    /// path to any office.
    pub open spec fn building(self) -> Building {
        match self.kind {
            BuildingKind::Empty => Building::Empty,
            BuildingKind::Residential => Building::Residential { population: self.payload },
            BuildingKind::Office => Building::Office { jobs: self.payload },
            BuildingKind::Road => Building::Road { distance_to_work: BIG_DIST },
        }
    }

    /// Whether this seed names a coordinate on a grid of side `size`.
    pub open spec fn fits(self, size: int) -> bool {
        in_bounds(size, self.x as int, self.y as int)
    }

    /// Whether this seed names the coordinate `(x, y)`.
    pub open spec fn is_at(self, x: int, y: int) -> bool {
        self.x == x && self.y == y
    }

    /// The building that this seed puts down.
    pub fn to_building(&self) -> (building: Building)
        ensures
            building == self.building(),
    {
        match self.kind {
            BuildingKind::Empty => Building::Empty,
            BuildingKind::Residential => Building::Residential { population: self.payload },
            BuildingKind::Office => Building::Office { jobs: self.payload },
            BuildingKind::Road => Building::Road { distance_to_work: BIG_DIST },
        }
    }
}

/// The cells of a grid of side `size` after the seeds were applied in order
/// to an empty grid. Where two seeds name one coordinate, the later one
/// stays. A seed that names no coordinate of the grid changes nothing.
pub open spec fn seeded_cells(size: int, seeds: Seq<Seed>) -> Seq<Cell>
    decreases seeds.len(),
{
    if seeds.len() == 0 {
        empty_cells(size)
    } else if seeds.last().fits(size) {
        seeded_cells(size, seeds.drop_last()).update(
            cell_index(size, seeds.last().x as int, seeds.last().y as int),
            Cell { building: seeds.last().building() },
        )
    } else {
        seeded_cells(size, seeds.drop_last())
    }
}

/// Whether every seed names a coordinate on a grid of side `size`.
pub open spec fn all_fit(size: int, seeds: Seq<Seed>) -> bool {
    forall|i: int| 0 <= i < seeds.len() ==> (#[trigger] seeds[i]).fits(size)
}

/// A seeded grid has the grid's size, and each of its roads is at the
/// sentinel.
pub proof fn lemma_seeded_cells(size: int, seeds: Seq<Seed>)
    requires
        0 <= size,
    ensures
        is_grid(seeded_cells(size, seeds), size),
        unresolved(seeded_cells(size, seeds)),
    decreases seeds.len(),
{
    assert(0 <= size * size) by (nonlinear_arith)
        requires
            0 <= size,
    ;
    if seeds.len() > 0 {
        lemma_seeded_cells(size, seeds.drop_last());
        if seeds.last().fits(size) {
            lemma_index_of_coord(size, seeds.last().x as int, seeds.last().y as int);
        }
    }
}

/// A seed that names another coordinate leaves the cell at `(x, y)` as it
/// was.
proof fn lemma_seed_elsewhere(size: int, seeds: Seq<Seed>, x: int, y: int)
    requires
        in_bounds(size, x, y),
        seeds.len() > 0,
        !seeds.last().is_at(x, y),
    ensures
        seeded_cells(size, seeds)[cell_index(size, x, y)] == seeded_cells(
            size,
            seeds.drop_last(),
        )[cell_index(size, x, y)],
{
    let last = seeds.last();
    lemma_index_of_coord(size, x, y);
    lemma_seeded_cells(size, seeds.drop_last());
    if last.fits(size) {
        lemma_index_of_coord(size, last.x as int, last.y as int);
    }
}

/// A coordinate of the grid that no seed names stays empty.
pub proof fn lemma_unseeded_cell(size: int, seeds: Seq<Seed>, x: int, y: int)
    requires
        in_bounds(size, x, y),
        forall|i: int| 0 <= i < seeds.len() ==> !(#[trigger] seeds[i]).is_at(x, y),
    ensures
        seeded_cells(size, seeds)[cell_index(size, x, y)] == empty_cell(),
    decreases seeds.len(),
{
    lemma_index_of_coord(size, x, y);
    if seeds.len() > 0 {
        let rest = seeds.drop_last();
        assert(!seeds[seeds.len() - 1].is_at(x, y));
        assert forall|i: int| 0 <= i < rest.len() implies !(#[trigger] rest[i]).is_at(x, y) by {
            assert(rest[i] == seeds[i]);
        }
        lemma_seed_elsewhere(size, seeds, x, y);
        lemma_unseeded_cell(size, rest, x, y);
    }
}

/// A coordinate of the grid holds the building of the last seed that names
/// it: where the seed at `last` names `(x, y)` and no later one does, its
/// building stands there.
pub proof fn lemma_seeded_cell(size: int, seeds: Seq<Seed>, last: int, x: int, y: int)
    requires
        in_bounds(size, x, y),
        0 <= last < seeds.len(),
        seeds[last].is_at(x, y),
        forall|j: int| last < j < seeds.len() ==> !(#[trigger] seeds[j]).is_at(x, y),
    ensures
        seeded_cells(size, seeds)[cell_index(size, x, y)].building == seeds[last].building(),
    decreases seeds.len(),
{
    lemma_index_of_coord(size, x, y);
    let rest = seeds.drop_last();
    lemma_seeded_cells(size, rest);
    if last < seeds.len() - 1 {
        assert(!seeds[seeds.len() - 1].is_at(x, y));
        assert(rest[last] == seeds[last]);
        assert forall|j: int| last < j < rest.len() implies !(#[trigger] rest[j]).is_at(x, y) by {
            assert(rest[j] == seeds[j]);
        }
        lemma_seed_elsewhere(size, seeds, x, y);
        lemma_seeded_cell(size, rest, last, x, y);
    }
}

} // verus!
