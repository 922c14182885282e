//! The agents of a simulation, as the registry holds them.

use vstd::prelude::*;
use crate::membership::{CellAssociation, Membership};
use crate::plane::Vec2;

verus! {

/// How an agent moves and how hard it may steer. The two limits are
/// counted in lattice steps and reach up to 65535 of them, a little under
/// sixty-four world units: with limits of that size the sum of the four
/// steers of an acceleration still fits a vector's components.
#[derive(Clone, Copy, Debug)]
pub struct Velocity {
    /// Lattice steps per tick along each axis.
    pub velocity: Vec2,
    /// The speed that steering aims for, in steps.
    pub max_velocity: u16,
    /// The longest steering force that the agent can apply, in steps.
    pub max_force: u16,
}

/// One agent. Its handle is its position in the registry.
#[derive(Clone, Copy, Debug)]
pub struct Agent {
    pub position: Vec2,
    pub velocity: Velocity,
    pub acceleration: Vec2,
    pub association: CellAssociation,
}

/// The membership records of a registry, by handle.
pub open spec fn memberships(agents: Seq<Agent>) -> Seq<Membership> {
    Seq::new(agents.len(), |i: int| agents[i].association@)
}

/// Two agents are at the same place and move in the same way.
pub open spec fn same_motion(a: Agent, b: Agent) -> bool {
    a.position == b.position && a.velocity == b.velocity
}

/// Two agents differ at most in their membership records.
pub open spec fn same_body(a: Agent, b: Agent) -> bool {
    &&& a.position == b.position
    &&& a.velocity == b.velocity
    &&& a.acceleration == b.acceleration
}

/// Two agents differ at most in their accelerations.
pub open spec fn same_but_acceleration(a: Agent, b: Agent) -> bool {
    &&& a.position == b.position
    &&& a.velocity == b.velocity
    &&& a.association == b.association
}

impl Agent {
    /// An agent that has not been filed in any index, at rest in its
    /// acceleration.
    pub fn new(position: Vec2, velocity: Velocity) -> (agent: Self)
        ensures
            agent.position == position,
            agent.velocity == velocity,
            agent.acceleration == (Vec2 { x: 0, z: 0 }),
            agent.association@ == (Membership {
                current: crate::membership::UNASSIGNED,
                pending: crate::membership::UNASSIGNED,
                dirty: false,
            }),
    {
        Agent {
            position,
            velocity,
            acceleration: Vec2 { x: 0, z: 0 },
            association: CellAssociation::new(),
        }
    }
}

} // verus!
