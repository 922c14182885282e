//! A flocking core on an integer lattice.
//!
//! Agents move in a plane and steer by the classic rules of separation,
//! alignment and cohesion, plus a pull toward a target point. Finding the
//! neighbours of every agent by comparing all pairs is quadratic, so the
//! agents are filed in a uniform grid, and a neighbour search looks only
//! at the cells that a disc around the agent reaches.
//!
//! Positions, velocities and forces are counted in lattice steps, of
//! which a world unit has 1024, and a grid cell is twenty world units
//! wide. Distances are compared by their squares, so every comparison is
//! exact; where a vector is rescaled, each component is rounded toward
//! zero, which costs less than one step.
//!
//! - [`plane`]: planar vectors and the cells of the grid.
//! - [`root`]: integer square roots.
//! - [`disc`]: which cells a disc reaches.
//! - [`spatial_index`]: the grid index, from cells to agent handles.
//! - [`membership`]: which cell an agent is filed under, and the two
//!   phases, detection and commit, that keep the index in step with motion.
//! - [`steering`]: bounded steering forces.
//! - [`boid`]: the neighbour accumulator of one agent and its acceleration.
//! - [`agent`]: the registry entry of an agent.
//! - [`tick`]: one tick of the core, phase by phase.

pub mod agent;
pub mod boid;
pub mod disc;
pub mod membership;
pub mod plane;
pub mod root;
pub mod spatial_index;
pub mod steering;
pub mod tick;
