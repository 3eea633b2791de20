//! What a cell of the city can hold.

use vstd::prelude::*;

verus! {

/// Distance that stands for "no known path to any office". A road's distance
/// never exceeds it: adding a hop saturates here.
pub const BIG_DIST: u16 = 0xAFFF;

/// The classification of one cell, with the payload of its kind.
#[derive(Clone, Copy, Debug, PartialEq, Eq, Structural)]
pub enum Building {
    Residential { population: u8 },
    Office { jobs: u8 },
    Road { distance_to_work: u16 },
    Empty,
}

/// One position of the grid. A cell is a plain value; it has no identity
/// beyond the place where it lies.
#[derive(Clone, Copy, Debug, PartialEq, Eq, Structural)]
pub struct Cell {
    pub building: Building,
}

impl Default for Building {
    fn default() -> (b: Building)
        ensures
            b == Building::Empty,
    {
        Building::Empty
    }
}

impl Default for Cell {
    fn default() -> (c: Cell)
        ensures
            c == empty_cell(),
    {
        Cell { building: Building::Empty }
    }
}

/// The cell of an unseeded position.
pub open spec fn empty_cell() -> Cell {
    Cell { building: Building::Empty }
}

impl Building {
    /// The jobs that this building offers: those of an office, none otherwise.
    pub open spec fn jobs_offered(self) -> nat {
        match self {
            Building::Office { jobs } => jobs as nat,
            _ => 0,
        }
    }

    /// The workers that live in this building: the population of a
    /// residential building, none otherwise.
    pub open spec fn workers_housed(self) -> nat {
        match self {
            Building::Residential { population } => population as nat,
            _ => 0,
        }
    }

    /// The distance that this building offers to a road next to it: an
    /// office is a source at distance 0, a road hands on its own distance, and
    /// nothing else leads anywhere.
    pub open spec fn offered_distance(self) -> int {
        match self {
            Building::Office { .. } => 0,
            Building::Road { distance_to_work } => distance_to_work as int,
            _ => BIG_DIST as int,
        }
    }

    /// The distance held by a road; the sentinel for every other kind.
    pub open spec fn road_distance(self) -> int {
        match self {
            Building::Road { distance_to_work } => distance_to_work as int,
            _ => BIG_DIST as int,
        }
    }

    /// Two buildings of one kind with one payload; only a road's distance
    /// may differ.
    pub open spec fn same_layout(self, other: Building) -> bool {
        match self {
            Building::Road { .. } => other is Road,
            _ => other == self,
        }
    }
}

/// One hop more than `d`, saturating at the sentinel.
pub open spec fn one_hop_further(d: int) -> int {
    if d + 1 >= BIG_DIST { BIG_DIST as int } else { d + 1 }
}

/// The smaller of two distances.
pub open spec fn nearer(a: int, b: int) -> int {
    if a <= b { a } else { b }
}

} // verus!
