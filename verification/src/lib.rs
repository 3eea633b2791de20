//! Simulation core of a grid-based city builder: a square grid of cells,
//! advanced once per tick by a local rule that spreads each road's distance to
//! the nearest office and sums up jobs and workers.

pub mod building;
pub mod grid;
pub mod laws;
pub mod rules;
pub mod seed;
pub mod simulation;

pub use building::{Building, Cell, BIG_DIST};
pub use grid::{get_cell, grid_coords, Grid, GridCoords};
pub use seed::{BuildingKind, ConfigError, Seed};
pub use simulation::{Frame, GlobalValues, Simulation};
