use grid_city::rules::{add_hop, advance_cell, nearer_of, neighbour_distance, relax};
use grid_city::simulation::run;
use grid_city::{
    get_cell, grid_coords, Building, BuildingKind, Cell, ConfigError, Frame, GlobalValues, Grid,
    Seed, Simulation, BIG_DIST,
};

fn office(x: i32, y: i32, jobs: u8) -> Seed {
    Seed { x, y, kind: BuildingKind::Office, payload: jobs }
}

fn home(x: i32, y: i32, population: u8) -> Seed {
    Seed { x, y, kind: BuildingKind::Residential, payload: population }
}

fn road(x: i32, y: i32) -> Seed {
    Seed { x, y, kind: BuildingKind::Road, payload: 0 }
}

const CHAIN: [(i32, i32); 11] =
    [(4, 3), (4, 4), (4, 5), (4, 6), (5, 6), (6, 6), (7, 6), (8, 6), (8, 7), (8, 8), (8, 9)];

fn town_seeds() -> Vec<Seed> {
    let mut seeds = vec![home(7, 5, 5), office(5, 3, 15)];
    for &(x, y) in CHAIN.iter() {
        seeds.push(road(x, y));
    }
    seeds
}

fn town() -> Simulation {
    Simulation::new(10, &town_seeds()).unwrap()
}

fn building_at(sim: &Simulation, x: i32, y: i32) -> Building {
    get_cell(&sim.current_frame().grid, (x, y)).unwrap().building
}

fn distance_at(sim: &Simulation, x: i32, y: i32) -> u16 {
    match building_at(sim, x, y) {
        Building::Road { distance_to_work } => distance_to_work,
        other => panic!("no road at ({}, {}): {:?}", x, y, other),
    }
}

fn ticked(mut sim: Simulation, ticks: u32) -> Simulation {
    for _ in 0..ticks {
        sim.tick();
    }
    sim
}

#[test]
fn sentinel_value() {
    assert_eq!(BIG_DIST, 0xAFFF);
    assert_eq!(BIG_DIST, 45055);
}

#[test]
fn lookup_off_the_grid_is_absent() {
    let sim = town();
    let grid = &sim.current_frame().grid;
    for &coord in [
        (-1, 0),
        (0, -1),
        (-1, -1),
        (10, 0),
        (0, 10),
        (10, 10),
        (-1, 5),
        (5, -1),
        (10, 5),
        (5, 10),
        (i32::MIN, 0),
        (0, i32::MIN),
        (i32::MAX, 0),
        (0, i32::MAX),
        (i32::MIN, i32::MAX),
        (65536, 0),
    ]
    .iter()
    {
        assert!(get_cell(grid, coord).is_none(), "{:?}", coord);
    }
}

#[test]
fn lookup_on_the_grid_finds_the_cell() {
    let sim = town();
    let grid = &sim.current_frame().grid;
    assert_eq!(get_cell(grid, (5, 3)), Some(&Cell { building: Building::Office { jobs: 15 } }));
    assert_eq!(
        get_cell(grid, (7, 5)),
        Some(&Cell { building: Building::Residential { population: 5 } })
    );
    assert_eq!(
        get_cell(grid, (4, 3)),
        Some(&Cell { building: Building::Road { distance_to_work: BIG_DIST } })
    );
    assert_eq!(get_cell(grid, (0, 0)), Some(&Cell { building: Building::Empty }));
    assert_eq!(get_cell(grid, (9, 9)), Some(&Cell { building: Building::Empty }));
    assert_eq!(get_cell(grid, (3, 5)), Some(&Cell { building: Building::Empty }));
}

#[test]
fn lookup_is_row_major() {
    let sim = Simulation::new(4, &[office(1, 2, 9)]).unwrap();
    let grid = &sim.current_frame().grid;
    let cells = grid.cells();
    assert_eq!(cells.len(), 16);
    assert_eq!(cells[2 * 4 + 1], Cell { building: Building::Office { jobs: 9 } });
    assert_eq!(cells[1 * 4 + 2], Cell { building: Building::Empty });
    for y in 0..4 {
        for x in 0..4 {
            assert_eq!(get_cell(grid, (x, y)), Some(&cells[(y * 4 + x) as usize]));
        }
    }
}

#[test]
fn lookup_on_an_empty_grid_is_always_absent() {
    let grid = Grid::new(0);
    assert_eq!(grid.size(), 0);
    assert!(grid.cells().is_empty());
    assert!(get_cell(&grid, (0, 0)).is_none());
    assert!(get_cell(&grid, (-1, 0)).is_none());
}

#[test]
fn road_beside_office_is_one_hop_away_after_one_tick() {
    let mut sim = Simulation::new(10, &[office(5, 3, 15), road(4, 3)]).unwrap();
    assert_eq!(distance_at(&sim, 4, 3), BIG_DIST);
    sim.tick();
    assert_eq!(distance_at(&sim, 4, 3), 1);
}

#[test]
fn office_on_each_side_counts() {
    for &(ox, oy) in [(5, 4), (4, 5), (6, 5), (5, 6)].iter() {
        let sim = ticked(Simulation::new(10, &[office(ox, oy, 1), road(5, 5)]).unwrap(), 1);
        assert_eq!(distance_at(&sim, 5, 5), 1, "office at ({}, {})", ox, oy);
    }
}

#[test]
fn diagonal_office_does_not_count() {
    for &(ox, oy) in [(4, 4), (6, 4), (4, 6), (6, 6)].iter() {
        let sim = ticked(Simulation::new(10, &[office(ox, oy, 1), road(5, 5)]).unwrap(), 5);
        assert_eq!(distance_at(&sim, 5, 5), BIG_DIST, "office at ({}, {})", ox, oy);
    }
}

#[test]
fn town_after_one_tick() {
    let sim = ticked(town(), 1);
    assert_eq!(distance_at(&sim, 4, 3), 1);
    for &(x, y) in CHAIN[1..].iter() {
        assert_eq!(distance_at(&sim, x, y), BIG_DIST, "({}, {})", x, y);
    }
}

#[test]
fn town_after_five_ticks() {
    let sim = ticked(town(), 5);
    assert_eq!(distance_at(&sim, 4, 3), 1);
    assert_eq!(distance_at(&sim, 4, 4), 2);
    assert_eq!(distance_at(&sim, 4, 5), 3);
    assert_eq!(distance_at(&sim, 4, 6), 4);
    assert_eq!(distance_at(&sim, 5, 6), 5);
    for &(x, y) in CHAIN[5..].iter() {
        assert_eq!(distance_at(&sim, x, y), BIG_DIST, "({}, {})", x, y);
    }
}

#[test]
fn town_after_eleven_ticks() {
    let sim = ticked(town(), 11);
    for (hops, &(x, y)) in CHAIN.iter().enumerate() {
        assert_eq!(distance_at(&sim, x, y), hops as u16 + 1, "({}, {})", x, y);
    }
}

#[test]
fn distance_stays_once_reached() {
    let mut sim = town();
    for tick in 1..=30u64 {
        sim.tick();
        for (hops, &(x, y)) in CHAIN.iter().enumerate() {
            let exact = hops as u64 + 1;
            let expected = if tick >= exact { exact as u16 } else { BIG_DIST };
            assert_eq!(distance_at(&sim, x, y), expected, "tick {} at ({}, {})", tick, x, y);
        }
    }
}

#[test]
fn distance_drops_at_the_tick_of_its_hop_count() {
    let mut sim = town();
    let mut before = distance_at(&sim, 4, 6);
    let mut drops = Vec::new();
    for tick in 1..=8u64 {
        sim.tick();
        let now = distance_at(&sim, 4, 6);
        if now < before {
            drops.push(tick);
        }
        before = now;
    }
    assert_eq!(drops, vec![4]);
}

#[test]
fn distance_never_increases() {
    let mut seeds = town_seeds();
    seeds.push(office(0, 9, 3));
    seeds.push(road(1, 9));
    seeds.push(road(2, 9));
    seeds.push(road(2, 8));
    seeds.push(road(9, 0));
    let mut sim = Simulation::new(10, &seeds).unwrap();
    for _ in 0..25 {
        let before: Vec<Cell> = sim.current_frame().grid.cells().clone();
        sim.tick();
        let after = sim.current_frame().grid.cells();
        assert_eq!(before.len(), after.len());
        for (old, new) in before.iter().zip(after.iter()) {
            match (old.building, new.building) {
                (
                    Building::Road { distance_to_work: was },
                    Building::Road { distance_to_work: is },
                ) => assert!(is <= was),
                (was, is) => assert_eq!(was, is),
            }
        }
    }
}

#[test]
fn nearest_of_two_offices_wins() {
    let seeds = vec![
        office(0, 0, 1),
        road(1, 0),
        road(2, 0),
        road(3, 0),
        road(4, 0),
        road(5, 0),
        road(6, 0),
        office(7, 0, 1),
    ];
    let sim = ticked(Simulation::new(8, &seeds).unwrap(), 10);
    let distances: Vec<u16> = (1..=6).map(|x| distance_at(&sim, x, 0)).collect();
    assert_eq!(distances, vec![1, 2, 3, 3, 2, 1]);
}

#[test]
fn isolated_road_stays_at_the_sentinel() {
    let seeds = vec![office(0, 0, 4), road(5, 5), road(5, 6), road(6, 6), home(4, 5, 2)];
    let mut sim = Simulation::new(10, &seeds).unwrap();
    for _ in 0..40 {
        sim.tick();
        assert_eq!(distance_at(&sim, 5, 5), BIG_DIST);
        assert_eq!(distance_at(&sim, 5, 6), BIG_DIST);
        assert_eq!(distance_at(&sim, 6, 6), BIG_DIST);
    }
}

#[test]
fn road_in_a_corner_without_office_stays_at_the_sentinel() {
    let sim = ticked(Simulation::new(3, &[road(0, 0), road(2, 2)]).unwrap(), 7);
    assert_eq!(distance_at(&sim, 0, 0), BIG_DIST);
    assert_eq!(distance_at(&sim, 2, 2), BIG_DIST);
}

#[test]
fn road_does_not_reach_across_a_row_end() {
    // (2, 0) and (0, 1) are neighbours in memory, not on the grid.
    let sim = ticked(Simulation::new(3, &[office(2, 0, 1), road(0, 1)]).unwrap(), 4);
    assert_eq!(distance_at(&sim, 0, 1), BIG_DIST);
}

#[test]
fn residential_beside_road_leads_nowhere() {
    let sim = ticked(Simulation::new(5, &[home(1, 1, 9), road(2, 1)]).unwrap(), 3);
    assert_eq!(distance_at(&sim, 2, 1), BIG_DIST);
}

#[test]
fn buildings_are_carried_over() {
    let mut sim = town();
    for _ in 0..15 {
        sim.tick();
        assert_eq!(building_at(&sim, 5, 3), Building::Office { jobs: 15 });
        assert_eq!(building_at(&sim, 7, 5), Building::Residential { population: 5 });
        assert_eq!(building_at(&sim, 0, 0), Building::Empty);
        assert_eq!(building_at(&sim, 9, 9), Building::Empty);
        let cells = sim.current_frame().grid.cells();
        assert_eq!(cells.len(), 100);
        let roads =
            cells.iter().filter(|c| matches!(c.building, Building::Road { .. })).count();
        assert_eq!(roads, 11);
        let empty = cells.iter().filter(|c| c.building == Building::Empty).count();
        assert_eq!(empty, 100 - 13);
    }
}

#[test]
fn totals_are_zero_before_the_first_tick() {
    let sim = town();
    assert_eq!(sim.current_frame().globals, GlobalValues { total_jobs: 0, total_workers: 0 });
}

#[test]
fn totals_after_one_tick_and_after() {
    let mut sim = Simulation::new(10, &[office(2, 8, 15), home(9, 0, 5)]).unwrap();
    for _ in 0..12 {
        sim.tick();
        let globals = sim.current_frame().globals;
        assert_eq!(globals.total_jobs, 15);
        assert_eq!(globals.total_workers, 5);
    }
    let sim = ticked(town(), 1);
    assert_eq!(sim.current_frame().globals, GlobalValues { total_jobs: 15, total_workers: 5 });
}

#[test]
fn totals_add_up_over_all_buildings() {
    let seeds = vec![
        office(0, 0, 255),
        office(1, 0, 255),
        office(2, 2, 7),
        home(0, 1, 255),
        home(1, 1, 1),
        home(2, 1, 0),
        road(0, 2),
    ];
    let mut sim = Simulation::new(3, &seeds).unwrap();
    sim.tick();
    assert_eq!(sim.current_frame().globals, GlobalValues { total_jobs: 517, total_workers: 256 });
    sim.tick();
    assert_eq!(sim.current_frame().globals, GlobalValues { total_jobs: 517, total_workers: 256 });
}

#[test]
fn same_seeds_same_run() {
    let mut a = town();
    let mut b = town();
    for _ in 0..14 {
        assert_eq!(a.current_frame().grid.cells(), b.current_frame().grid.cells());
        assert_eq!(a.current_frame().globals, b.current_frame().globals);
        assert_eq!(a.tick_count(), b.tick_count());
        a.tick();
        b.tick();
    }
    assert_eq!(a.current_frame().grid.cells(), b.current_frame().grid.cells());
    assert_eq!(a.current_frame().globals, b.current_frame().globals);
}

#[test]
fn tick_counter_counts_ticks() {
    let mut sim = town();
    assert_eq!(sim.tick_count(), 0);
    for made in 1..=50u64 {
        sim.tick();
        assert_eq!(sim.tick_count(), made);
    }
}

#[test]
fn new_simulation_is_the_seeded_grid() {
    let sim = town();
    assert_eq!(sim.size(), 10);
    assert_eq!(sim.tick_count(), 0);
    let cells = sim.current_frame().grid.cells();
    assert_eq!(cells.len(), 100);
    for y in 0..10 {
        for x in 0..10 {
            let expected = if (x, y) == (5, 3) {
                Building::Office { jobs: 15 }
            } else if (x, y) == (7, 5) {
                Building::Residential { population: 5 }
            } else if CHAIN.contains(&(x, y)) {
                Building::Road { distance_to_work: BIG_DIST }
            } else {
                Building::Empty
            };
            assert_eq!(cells[(y * 10 + x) as usize].building, expected, "({}, {})", x, y);
        }
    }
}

#[test]
fn no_seeds_give_an_empty_grid() {
    let mut sim = Simulation::new(6, &[]).unwrap();
    assert!(sim.current_frame().grid.cells().iter().all(|c| c.building == Building::Empty));
    sim.tick();
    assert_eq!(sim.current_frame().grid.cells().len(), 36);
    assert!(sim.current_frame().grid.cells().iter().all(|c| c.building == Building::Empty));
    assert_eq!(sim.current_frame().globals, GlobalValues { total_jobs: 0, total_workers: 0 });
}

#[test]
fn grid_of_side_zero_ticks() {
    let mut sim = Simulation::new(0, &[]).unwrap();
    sim.tick();
    sim.tick();
    assert_eq!(sim.tick_count(), 2);
    assert!(sim.current_frame().grid.cells().is_empty());
}

#[test]
fn later_seed_replaces_earlier_one() {
    let sim = Simulation::new(4, &[office(1, 1, 3), home(1, 1, 8)]).unwrap();
    assert_eq!(building_at(&sim, 1, 1), Building::Residential { population: 8 });
    let sim = Simulation::new(
        4,
        &[road(2, 2), Seed { x: 2, y: 2, kind: BuildingKind::Empty, payload: 77 }],
    )
    .unwrap();
    assert_eq!(building_at(&sim, 2, 2), Building::Empty);
}

#[test]
fn seeded_road_ignores_its_payload() {
    let sim =
        Simulation::new(4, &[Seed { x: 0, y: 3, kind: BuildingKind::Road, payload: 9 }]).unwrap();
    assert_eq!(building_at(&sim, 0, 3), Building::Road { distance_to_work: BIG_DIST });
}

#[test]
fn seed_building() {
    assert_eq!(office(0, 0, 15).to_building(), Building::Office { jobs: 15 });
    assert_eq!(home(0, 0, 5).to_building(), Building::Residential { population: 5 });
    assert_eq!(road(0, 0).to_building(), Building::Road { distance_to_work: BIG_DIST });
    assert_eq!(
        Seed { x: 0, y: 0, kind: BuildingKind::Empty, payload: 1 }.to_building(),
        Building::Empty
    );
}

#[test]
fn seed_off_the_grid_is_refused() {
    let cases = [(10, 0), (0, 10), (-1, 0), (0, -1), (i32::MAX, 3), (3, i32::MIN)];
    for &(x, y) in cases.iter() {
        let seeds = vec![office(5, 3, 15), road(x, y), road(4, 3)];
        match Simulation::new(10, &seeds) {
            Err(error) => assert_eq!(error, ConfigError::SeedOutOfBounds { index: 1, x, y }),
            Ok(_) => panic!("seed at ({}, {}) was accepted", x, y),
        }
    }
}

#[test]
fn first_seed_off_the_grid_is_reported() {
    let seeds = vec![office(0, 0, 1), road(0, 3), home(7, 7, 1), road(-3, 0)];
    assert_eq!(
        Simulation::new(4, &seeds).err(),
        Some(ConfigError::SeedOutOfBounds { index: 2, x: 7, y: 7 })
    );
    assert_eq!(
        Simulation::new(0, &[road(0, 0)]).err(),
        Some(ConfigError::SeedOutOfBounds { index: 0, x: 0, y: 0 })
    );
}

#[test]
fn seed_on_the_last_cell_is_accepted() {
    let sim = Simulation::new(10, &[office(9, 9, 2), road(0, 0)]).unwrap();
    assert_eq!(building_at(&sim, 9, 9), Building::Office { jobs: 2 });
    assert_eq!(building_at(&sim, 0, 0), Building::Road { distance_to_work: BIG_DIST });
}

#[test]
fn coords_are_row_major() {
    let mut coords = grid_coords(3);
    let mut seen = Vec::new();
    while let Some(coord) = coords.next() {
        seen.push(coord);
    }
    assert_eq!(
        seen,
        vec![(0, 0), (1, 0), (2, 0), (0, 1), (1, 1), (2, 1), (0, 2), (1, 2), (2, 2)]
    );
    assert_eq!(coords.next(), None);
    assert_eq!(coords.next(), None);
}

#[test]
fn coords_visit_each_cell_once() {
    let mut coords = grid_coords(25);
    let mut seen = vec![false; 625];
    let mut count = 0;
    let mut index = 0;
    while let Some((x, y)) = coords.next() {
        assert!(0 <= x && x < 25 && 0 <= y && y < 25);
        assert_eq!((y * 25 + x) as usize, index);
        assert!(!seen[index]);
        seen[index] = true;
        index += 1;
        count += 1;
    }
    assert_eq!(count, 625);
    assert!(seen.iter().all(|&s| s));
}

#[test]
fn coords_start_afresh() {
    let mut first = grid_coords(2);
    assert_eq!(first.next(), Some((0, 0)));
    assert_eq!(first.next(), Some((1, 0)));
    assert_eq!(first.next(), Some((0, 1)));
    let mut second = grid_coords(2);
    assert_eq!(second.next(), Some((0, 0)));
    assert_eq!(first.next(), Some((1, 1)));
    assert_eq!(first.next(), None);
    assert_eq!(second.next(), Some((1, 0)));
}

#[test]
fn coords_of_nothing() {
    assert_eq!(grid_coords(0).next(), None);
    let mut one = grid_coords(1);
    assert_eq!(one.next(), Some((0, 0)));
    assert_eq!(one.next(), None);
}

#[test]
fn coords_of_the_widest_grid() {
    let mut coords = grid_coords(u16::MAX);
    let mut last = None;
    for _ in 0..65536 {
        last = coords.next();
    }
    assert_eq!(last, Some((0, 1)));
}

#[test]
fn place_on_and_off_the_grid() {
    let mut grid = Grid::new(3);
    assert!(grid.place(1, 2, Building::Office { jobs: 4 }));
    assert_eq!(grid.cells()[7], Cell { building: Building::Office { jobs: 4 } });
    let before = grid.cells().clone();
    assert!(!grid.place(3, 0, Building::Office { jobs: 1 }));
    assert!(!grid.place(0, 3, Building::Office { jobs: 1 }));
    assert!(!grid.place(-1, 0, Building::Office { jobs: 1 }));
    assert!(!grid.place(0, -1, Building::Office { jobs: 1 }));
    assert_eq!(grid.cells(), &before);
    assert_eq!(grid.size(), 3);
}

#[test]
fn hop_saturates_at_the_sentinel() {
    assert_eq!(add_hop(0), 1);
    assert_eq!(add_hop(1), 2);
    assert_eq!(add_hop(BIG_DIST - 2), BIG_DIST - 1);
    assert_eq!(add_hop(BIG_DIST - 1), BIG_DIST);
    assert_eq!(add_hop(BIG_DIST), BIG_DIST);
    assert_eq!(add_hop(BIG_DIST + 1), BIG_DIST);
    assert_eq!(add_hop(u16::MAX), BIG_DIST);
}

#[test]
fn nearer_of_two() {
    assert_eq!(nearer_of(3, 9), 3);
    assert_eq!(nearer_of(9, 3), 3);
    assert_eq!(nearer_of(4, 4), 4);
    assert_eq!(nearer_of(0, BIG_DIST), 0);
}

#[test]
fn what_each_neighbour_offers() {
    let mut grid = Grid::new(3);
    grid.place(0, 0, Building::Office { jobs: 200 });
    grid.place(1, 0, Building::Road { distance_to_work: 17 });
    grid.place(2, 0, Building::Residential { population: 3 });
    grid.place(0, 1, Building::Road { distance_to_work: BIG_DIST });
    assert_eq!(neighbour_distance(&grid, 0, 0), 0);
    assert_eq!(neighbour_distance(&grid, 1, 0), 17);
    assert_eq!(neighbour_distance(&grid, 2, 0), BIG_DIST);
    assert_eq!(neighbour_distance(&grid, 0, 1), BIG_DIST);
    assert_eq!(neighbour_distance(&grid, 1, 1), BIG_DIST);
    assert_eq!(neighbour_distance(&grid, -1, 0), BIG_DIST);
    assert_eq!(neighbour_distance(&grid, 3, 0), BIG_DIST);
    assert_eq!(neighbour_distance(&grid, 0, 3), BIG_DIST);
}

#[test]
fn relax_takes_the_least_neighbour_plus_one() {
    let mut grid = Grid::new(3);
    grid.place(1, 0, Building::Road { distance_to_work: 40 });
    grid.place(0, 1, Building::Road { distance_to_work: 12 });
    grid.place(2, 1, Building::Road { distance_to_work: 30 });
    grid.place(1, 2, Building::Road { distance_to_work: 25 });
    grid.place(1, 1, Building::Road { distance_to_work: 3 });
    assert_eq!(relax(&grid, 1, 1), 13);
    assert_eq!(relax(&grid, 0, 0), 13);
    assert_eq!(relax(&grid, 2, 2), 26);
    assert_eq!(relax(&grid, 2, 0), 31);
    grid.place(1, 2, Building::Office { jobs: 0 });
    assert_eq!(relax(&grid, 1, 1), 1);
}

#[test]
fn relax_saturates() {
    let mut grid = Grid::new(2);
    grid.place(0, 0, Building::Road { distance_to_work: BIG_DIST - 1 });
    assert_eq!(relax(&grid, 1, 0), BIG_DIST);
    grid.place(0, 0, Building::Road { distance_to_work: BIG_DIST - 2 });
    assert_eq!(relax(&grid, 1, 0), BIG_DIST - 1);
    grid.place(0, 0, Building::Road { distance_to_work: u16::MAX });
    assert_eq!(relax(&grid, 1, 0), BIG_DIST);
    assert_eq!(relax(&grid, 1, 1), BIG_DIST);
}

#[test]
fn advance_cell_keeps_all_but_a_roads_distance() {
    let mut grid = Grid::new(3);
    grid.place(0, 0, Building::Office { jobs: 6 });
    grid.place(1, 0, Building::Road { distance_to_work: BIG_DIST });
    grid.place(2, 0, Building::Residential { population: 2 });
    grid.place(2, 2, Building::Road { distance_to_work: 5 });
    assert_eq!(advance_cell(&grid, 0, 0), Building::Office { jobs: 6 });
    assert_eq!(advance_cell(&grid, 1, 0), Building::Road { distance_to_work: 1 });
    assert_eq!(advance_cell(&grid, 2, 0), Building::Residential { population: 2 });
    assert_eq!(advance_cell(&grid, 1, 1), Building::Empty);
    assert_eq!(advance_cell(&grid, 2, 2), Building::Road { distance_to_work: BIG_DIST });
}

#[test]
fn run_fills_the_grid_from_the_previous_one() {
    let mut previous = Grid::new(3);
    previous.place(0, 0, Building::Office { jobs: 6 });
    previous.place(1, 0, Building::Road { distance_to_work: BIG_DIST });
    previous.place(2, 0, Building::Road { distance_to_work: 8 });
    previous.place(2, 1, Building::Residential { population: 2 });
    let mut grid = Grid::new(3);
    grid.place(1, 1, Building::Office { jobs: 99 });
    let totals = run(&mut grid, &previous);
    assert_eq!(totals, GlobalValues { total_jobs: 6, total_workers: 2 });
    let expected = vec![
        Building::Office { jobs: 6 },
        Building::Road { distance_to_work: 1 },
        Building::Road { distance_to_work: BIG_DIST },
        Building::Empty,
        Building::Empty,
        Building::Residential { population: 2 },
        Building::Empty,
        Building::Empty,
        Building::Empty,
    ];
    let got: Vec<Building> = grid.cells().iter().map(|c| c.building).collect();
    assert_eq!(got, expected);
    assert_eq!(previous.cells()[1].building, Building::Road { distance_to_work: BIG_DIST });
}

#[test]
fn tick_reads_only_the_previous_frame() {
    // A chain written left to right must not be resolved within one tick,
    // although each road is computed after its left neighbour.
    let seeds = vec![office(0, 0, 1), road(1, 0), road(2, 0), road(3, 0)];
    let mut sim = Simulation::new(4, &seeds).unwrap();
    sim.tick();
    assert_eq!(distance_at(&sim, 1, 0), 1);
    assert_eq!(distance_at(&sim, 2, 0), BIG_DIST);
    assert_eq!(distance_at(&sim, 3, 0), BIG_DIST);
    sim.tick();
    assert_eq!(distance_at(&sim, 2, 0), 2);
    assert_eq!(distance_at(&sim, 3, 0), BIG_DIST);
}

#[test]
fn defaults() {
    assert_eq!(Building::default(), Building::Empty);
    assert_eq!(Cell::default(), Cell { building: Building::Empty });
    assert_eq!(GlobalValues::default(), GlobalValues { total_jobs: 0, total_workers: 0 });
    let frame = Frame::default();
    assert_eq!(frame.globals, GlobalValues::default());
    assert_eq!(frame.grid.size(), 0);
    assert!(frame.grid.cells().is_empty());
}

#[test]
fn winding_road_settles_on_its_length() {
    // Every even row is a road from edge to edge; the odd rows join them at
    // alternating ends. The office lies at the start of the first row.
    let side = 30;
    let mut path = Vec::new();
    for y in 0..side {
        if y % 2 == 0 {
            let leftwards = (y / 2) % 2 == 1;
            for step in 0..side {
                let x = if leftwards { side - 1 - step } else { step };
                if (x, y) != (0, 0) {
                    path.push((x, y));
                }
            }
        } else if (y / 2) % 2 == 0 {
            path.push((side - 1, y));
        } else {
            path.push((0, y));
        }
    }
    let mut seeds = vec![office(0, 0, 1)];
    seeds.extend(path.iter().map(|&(x, y)| road(x, y)));
    let mut sim = Simulation::new(side as u16, &seeds).unwrap();
    let half = path.len() as u64 / 2;
    for _ in 0..half {
        sim.tick();
    }
    for (walked, &(x, y)) in path.iter().enumerate() {
        let hops = walked as u64 + 1;
        let expected = if hops <= half { hops as u16 } else { BIG_DIST };
        assert_eq!(distance_at(&sim, x, y), expected, "({}, {})", x, y);
    }
    for _ in half..path.len() as u64 + 3 {
        sim.tick();
    }
    for (walked, &(x, y)) in path.iter().enumerate() {
        assert_eq!(distance_at(&sim, x, y), walked as u16 + 1, "({}, {})", x, y);
    }
}

#[test]
fn wide_grid_ticks() {
    let mut sim = Simulation::new(400, &[office(399, 399, 7), road(398, 399), home(0, 0, 3)])
        .unwrap();
    sim.tick();
    assert_eq!(sim.current_frame().grid.cells().len(), 160_000);
    assert_eq!(distance_at(&sim, 398, 399), 1);
    assert_eq!(sim.current_frame().globals, GlobalValues { total_jobs: 7, total_workers: 3 });
}
