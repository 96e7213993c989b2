use vstd::prelude::*;

verus! {

/// The two species of the simulation.
#[derive(Clone, Copy, Debug, PartialEq, Eq, Structural)]
pub enum EntityType {
    Prey,
    Predator,
}

/// What the population logic knows of a boid: its species and whether it
/// is still alive.
#[derive(Clone, Copy, Debug, PartialEq, Eq, Structural)]
pub struct Boid {
    pub e_type: EntityType,
    pub is_alive: bool,
}

/// A generational handle to a boid held in the arena: the slot it occupies
/// and the generation of that slot when the boid was stored.
#[derive(Clone, Copy, Debug, PartialEq, Eq, Structural)]
pub struct Handle {
    pub slot: u32,
    pub generation: u32,
}

impl Handle {
    /// The handle as a pair of plain integers.
    pub open spec fn key(self) -> (u32, u32) {
        (self.slot, self.generation)
    }
}

} // verus!
