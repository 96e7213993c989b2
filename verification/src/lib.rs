//! The verified core of a predator-prey boids simulation: the population
//! held in a generational arena, the spatial grid that buckets it, the
//! rules of a tick (reinforcement, hunting, flocking groups, births and
//! deaths), and the proximity network drawn between prey.

mod arena;
mod entity;
pub mod grid;
pub mod links;
pub mod population;
pub mod simulation;

pub use entity::{Boid, EntityType, Handle};
pub use simulation::{HuntPass, Simulation, UpdateOutcome, UpdatePass};
