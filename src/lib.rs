//! Genetic-algorithm search for a short route through a set of points, run
//! by one worker or merged from several.
pub mod genetic;
pub mod geometry;
pub mod parallel;
pub mod random;
pub mod simulation;
pub mod tour;

pub use geometry::{Location, Route};
pub use parallel::{best_route, Aggregation, ParallelSimulation, NUM_THREADS};
pub use simulation::{Evolution, Simulation, SimulationEvent};
pub use tour::Tour;
