//! The engine: two frames, a tick counter, and the tick that computes one
//! frame from the other.

use vstd::prelude::*;
use crate::building::{Building, Cell, BIG_DIST};
use crate::grid::{
    all_coords, cell_index, empty_cells, grid_coords, in_bounds, is_grid, lemma_coord_of_index,
    Grid,
};
use crate::laws::{
    is_cut_off, is_hop_distance, lemma_cut_off_stays_unresolved, lemma_distance_converges,
    lemma_distance_never_increases, lemma_hop_distance_is_static, lemma_layout_is_static,
    lemma_totals_are_static,
};
use crate::rules::{
    advance_cell, cells_after, is_no_further, keeps_layout, lemma_totals_bounded, step_cells,
    total_jobs, total_workers, unresolved,
};
use crate::seed::{all_fit, lemma_seeded_cells, seeded_cells, ConfigError, Seed};

verus! {

/// Counters over the whole grid. A tick computes them anew; nothing is
/// carried over from the tick before.
#[derive(Clone, Copy, Debug, PartialEq, Eq, Structural)]
pub struct GlobalValues {
    pub total_jobs: u64,
    pub total_workers: u64,
}

impl Default for GlobalValues {
    fn default() -> (totals: GlobalValues)
        ensures
            totals == (GlobalValues { total_jobs: 0, total_workers: 0 }),
    {
        GlobalValues { total_jobs: 0, total_workers: 0 }
    }
}

/// One snapshot: a grid and the counters that belong to it.
pub struct Frame {
    pub globals: GlobalValues,
    pub grid: Grid,
}

impl Default for Frame {
    fn default() -> (frame: Frame)
        ensures
            frame.globals == (GlobalValues { total_jobs: 0, total_workers: 0 }),
            frame.grid.side() == 0,
            frame.grid@ == Seq::<Cell>::empty(),
    {
        let grid = Grid::new(0);
        assert(grid@ =~= Seq::<Cell>::empty());
        Frame { globals: GlobalValues::default(), grid }
    }
}

impl GlobalValues {
    /// Whether these are the counters of `cells`: the jobs of all its
    /// offices and the population of all its residential buildings.
    pub open spec fn counts(self, cells: Seq<Cell>) -> bool {
        self.total_jobs == total_jobs(cells) && self.total_workers == total_workers(cells)
    }
}

/// Computes every cell of `grid` from `previous` in row-major order, and
/// returns the jobs and workers counted over `previous`.
pub fn run(grid: &mut Grid, previous: &Grid) -> (totals: GlobalValues)
    requires
        old(grid).side() == previous.side(),
    ensures
        final(grid).side() == previous.side(),
        final(grid)@ == step_cells(previous@, previous.side()),
        totals.counts(previous@),
    no_unwind
{
    proof {
        use_type_invariant(&*grid);
    }
    let size = previous.size();
    let ghost side = size as int;
    let ghost count = side * side;
    let ghost source = previous@;
    let mut totals = GlobalValues { total_jobs: 0, total_workers: 0 };
    let mut coords = grid_coords(size);
    let ghost mut done: int = 0;
    proof {
        assert(source.take(0) =~= Seq::<Cell>::empty());
    }
    let mut coord = coords.next();
    loop
        invariant
            side == size,
            count == side * side,
            source == previous@,
            previous.side() == side,
            grid.side() == side,
            is_grid(source, side),
            is_grid(grid@, side),
            coords.side() == side,
            0 <= done <= count,
            coord matches Some(c) ==> {
                &&& done < count
                &&& coords.position() == done + 1
                &&& (c.0 as int, c.1 as int) == all_coords(side)[done]
            },
            coord is None ==> done == count,
            forall|i: int| 0 <= i < done ==> grid@[i] == step_cells(source, side)[i],
            totals.total_jobs == total_jobs(source.take(done)),
            totals.total_workers == total_workers(source.take(done)),
        ensures
            done == count,
        decreases count - done,
    {
        match coord {
            None => {
                break;
            },
            Some((x, y)) => {
                proof {
                    lemma_coord_of_index(side, done);
                    lemma_totals_bounded(source.take(done));
                    assert(source.take(done + 1).drop_last() =~= source.take(done));
                    assert(count <= 0xFFFF * 0xFFFF) by (nonlinear_arith)
                        requires
                            count == side * side,
                            0 <= side <= 0xFFFF,
                    ;
                }
                let building = advance_cell(previous, x, y);
                grid.place(x, y, building);
                match building {
                    Building::Residential { population } => {
                        totals.total_workers += population as u64;
                    },
                    Building::Office { jobs } => {
                        totals.total_jobs += jobs as u64;
                    },
                    _ => {},
                }
                proof {
                    done = done + 1;
                }
                coord = coords.next();
            },
        }
    }
    proof {
        assert(source.take(count) =~= source);
        assert(grid@ =~= step_cells(source, side));
    }
    totals
}

/// Swaps the two frames, computes the new current frame from the new previous
/// one, and counts the tick. The buffers change hands; no grid is copied.
fn advance(tick: &mut u64, current: &mut Frame, previous: &mut Frame)
    requires
        *old(tick) < u64::MAX,
        old(current).grid.side() == old(previous).grid.side(),
    ensures
        *final(tick) == *old(tick) + 1,
        *final(previous) == *old(current),
        final(current).grid.side() == old(current).grid.side(),
        final(current).grid@ == step_cells(old(current).grid@, old(current).grid.side()),
        final(current).globals.counts(old(current).grid@),
    no_unwind
{
    std::mem::swap(current, previous);
    current.globals = run(&mut current.grid, &previous.grid);
    *tick += 1;
}

/// The simulation: the current frame, the frame before it, and the number of
/// ticks made. The frames are read from outside and written only by
/// [`Simulation::tick`].
pub struct Simulation {
    tick: u64,
    cur_frame: Frame,
    prv_frame: Frame,
    start: Ghost<Seq<Cell>>,
}

impl Simulation {
    /// The side length of the grid.
    pub closed spec fn side(&self) -> int {
        self.cur_frame.grid.side()
    }

    /// The number of ticks made so far.
    pub closed spec fn ticks(&self) -> nat {
        self.tick as nat
    }

    /// The cells of the current frame, in row-major order.
    pub closed spec fn cells(&self) -> Seq<Cell> {
        self.cur_frame.grid@
    }

    /// The counters of the current frame.
    pub closed spec fn totals(&self) -> GlobalValues {
        self.cur_frame.globals
    }

    /// The cells of the previous frame: those that the latest tick read.
    pub closed spec fn previous_cells(&self) -> Seq<Cell> {
        self.prv_frame.grid@
    }

    /// The cells that the simulation was seeded with.
    pub closed spec fn start_cells(&self) -> Seq<Cell> {
        self.start@
    }

    /// Whether the two frames hold grids of one size, so that either can be
    /// computed from the other.
    pub closed spec fn buffers_match(&self) -> bool {
        self.prv_frame.grid.side() == self.cur_frame.grid.side()
    }

    /// What holds of every simulation at every moment: it started from a grid
    /// whose roads knew no path, its current frame is what the ticks made of
    /// that grid, and its counters are those of the frame that the latest
    /// tick read.
    #[verifier::type_invariant]
    pub open spec fn wf(&self) -> bool {
        &&& self.buffers_match()
        &&& is_grid(self.start_cells(), self.side())
        &&& unresolved(self.start_cells())
        &&& self.cells() == cells_after(self.start_cells(), self.side(), self.ticks())
        &&& self.ticks() == 0 ==> {
            &&& self.previous_cells() == empty_cells(self.side())
            &&& self.totals() == (GlobalValues { total_jobs: 0, total_workers: 0 })
        }
        &&& self.ticks() > 0 ==> {
            &&& self.previous_cells() == cells_after(
                self.start_cells(),
                self.side(),
                (self.ticks() - 1) as nat,
            )
            &&& self.totals().counts(self.previous_cells())
        }
    }

    /// A simulation on a grid of side `size`, with the seeds applied in order
    /// to an otherwise empty grid. A seed that names a coordinate off the grid
    /// is an error, and the first such seed is reported.
    pub fn new(size: u16, seeds: &[Seed]) -> (made: Result<Simulation, ConfigError>)
        ensures
            made is Ok <==> all_fit(size as int, seeds@),
            made matches Ok(sim) ==> {
                &&& sim.wf()
                &&& sim.side() == size
                &&& sim.ticks() == 0
                &&& sim.cells() == seeded_cells(size as int, seeds@)
                &&& sim.start_cells() == sim.cells()
                &&& sim.previous_cells() == empty_cells(size as int)
                &&& sim.totals() == (GlobalValues { total_jobs: 0, total_workers: 0 })
            },
            made matches Err(ConfigError::SeedOutOfBounds { index, x, y }) ==> {
                &&& index < seeds@.len()
                &&& !seeds@[index as int].fits(size as int)
                &&& forall|j: int| 0 <= j < index ==> (#[trigger] seeds@[j]).fits(size as int)
                &&& x == seeds@[index as int].x
                &&& y == seeds@[index as int].y
            },
    {
        let mut checked: usize = 0;
        while checked < seeds.len()
            invariant
                checked <= seeds@.len(),
                forall|j: int| 0 <= j < checked ==> (#[trigger] seeds@[j]).fits(size as int),
            decreases seeds@.len() - checked,
        {
            let seed = seeds[checked];
            if seed.x < 0 || seed.x >= size as i32 || seed.y < 0 || seed.y >= size as i32 {
                return Err(ConfigError::SeedOutOfBounds { index: checked, x: seed.x, y: seed.y });
            }
            checked += 1;
        }
        let mut grid = Grid::new(size);
        let mut applied: usize = 0;
        proof {
            assert(seeds@.take(0) =~= Seq::<Seed>::empty());
        }
        while applied < seeds.len()
            invariant
                applied <= seeds@.len(),
                all_fit(size as int, seeds@),
                grid.side() == size,
                grid@ == seeded_cells(size as int, seeds@.take(applied as int)),
            decreases seeds@.len() - applied,
        {
            let seed = seeds[applied];
            proof {
                assert(seeds@.take(applied + 1).drop_last() =~= seeds@.take(applied as int));
                assert(seeds@[applied as int].fits(size as int));
            }
            grid.place(seed.x, seed.y, seed.to_building());
            applied += 1;
        }
        proof {
            assert(seeds@.take(seeds@.len() as int) =~= seeds@);
            lemma_seeded_cells(size as int, seeds@);
        }
        let start = Ghost(grid@);
        let cur_frame = Frame { globals: GlobalValues::default(), grid };
        let prv_frame = Frame { globals: GlobalValues::default(), grid: Grid::new(size) };
        Ok(Simulation { tick: 0, cur_frame, prv_frame, start })
    }

    /// One simulation step. The current frame becomes the previous one; in
    /// the new current frame every building is what it was, each road has the
    /// relaxed distance, and the counters are those of the frame that was
    /// read.
    pub fn tick(&mut self)
        requires
            old(self).ticks() < u64::MAX,
        ensures
            final(self).wf(),
            final(self).side() == old(self).side(),
            final(self).start_cells() == old(self).start_cells(),
            final(self).ticks() == old(self).ticks() + 1,
            final(self).cells() == step_cells(old(self).cells(), old(self).side()),
            final(self).previous_cells() == old(self).cells(),
            final(self).totals().counts(old(self).cells()),
            final(self).totals().counts(old(self).start_cells()),
            keeps_layout(final(self).cells(), old(self).cells()),
            is_no_further(final(self).cells(), old(self).cells()),
    {
        proof {
            use_type_invariant(&*self);
            lemma_layout_is_static(self.cells(), self.side(), 1);
            lemma_totals_are_static(self.start_cells(), self.side(), self.ticks());
            lemma_distance_never_increases(self.start_cells(), self.side(), self.ticks());
            assert(cells_after(self.cells(), self.side(), 1) == step_cells(
                cells_after(self.cells(), self.side(), 0),
                self.side(),
            ));
        }
        advance(&mut self.tick, &mut self.cur_frame, &mut self.prv_frame);
    }

    /// The number of ticks made so far: 0 for a new simulation, one more
    /// after each tick.
    pub fn tick_count(&self) -> (count: u64)
        ensures
            count == self.ticks(),
    {
        self.tick
    }

    /// The side length of the grid.
    pub fn size(&self) -> (size: u16)
        ensures
            size == self.side(),
    {
        self.cur_frame.grid.size()
    }

    /// The current frame, for reading: the seeded grid before the first tick,
    /// the result of the latest tick after it.
    pub fn current_frame(&self) -> (frame: &Frame)
        ensures
            frame.grid@ == self.cells(),
            frame.grid.side() == self.side(),
            frame.globals == self.totals(),
    {
        &self.cur_frame
    }
}

impl Simulation {
    /// The distance held at `(x, y)` in the current frame: a road's distance,
    /// the sentinel for any other building.
    pub open spec fn distance_at(&self, x: int, y: int) -> int {
        self.cells()[cell_index(self.side(), x, y)].building.road_distance()
    }

    /// A road whose shortest route to an office has `hops` hops, `hops` no
    /// larger than the sentinel, holds the sentinel before tick `hops` and
    /// exactly `hops` from then on.
    pub proof fn lemma_converges(self, x: int, y: int, hops: int)
        requires
            self.wf(),
            is_hop_distance(self.cells(), self.side(), x, y, hops),
            hops <= BIG_DIST,
        ensures
            self.ticks() >= hops ==> self.distance_at(x, y) == hops,
            self.ticks() < hops ==> self.distance_at(x, y) == BIG_DIST,
    {
        lemma_hop_distance_is_static(self.start_cells(), self.side(), self.ticks(), x, y, hops);
        lemma_distance_converges(self.start_cells(), self.side(), x, y, hops, self.ticks());
    }

    /// A position from which no route leads to any office holds the sentinel
    /// after any number of ticks.
    pub proof fn lemma_cut_off_holds_sentinel(self, x: int, y: int)
        requires
            self.wf(),
            in_bounds(self.side(), x, y),
            is_cut_off(self.cells(), self.side(), x, y),
        ensures
            self.distance_at(x, y) == BIG_DIST,
    {
        lemma_hop_distance_is_static(self.start_cells(), self.side(), self.ticks(), x, y, 0);
        lemma_cut_off_stays_unresolved(self.start_cells(), self.side(), x, y, self.ticks());
    }

    /// Nothing but the seeds and the number of ticks decides what a
    /// simulation holds: two simulations made from the same seeds on grids
    /// of one size, and ticked equally often, hold the same cells and the
    /// same counters.
    pub proof fn lemma_same_seeds_same_frames(self, other: Simulation, seeds: Seq<Seed>)
        requires
            self.wf(),
            other.wf(),
            self.side() == other.side(),
            self.start_cells() == seeded_cells(self.side(), seeds),
            other.start_cells() == seeded_cells(other.side(), seeds),
            self.ticks() == other.ticks(),
        ensures
            self.cells() == other.cells(),
            self.totals() == other.totals(),
            self.previous_cells() == other.previous_cells(),
    {
    }
}

} // verus!
