//! Simulation core of a particle swarm.
//!
//! Several players each steer a cloud of particles. This crate holds the
//! side of the simulation that works in whole world units: the uniform
//! grid that indexes particle ids by cell, the store of positions and
//! owners, the start layout, and the driver that keeps index and store in
//! step while particles move. Exact positions, velocities and forces are
//! real numbers and belong to the host, which hands the driver each
//! particle's next position rounded down and learns which moves were taken
//! and which particles may be near enough to act on each other.
//!
//! - [`grid`]: world bounds, cells and their slots in the bucket array
//! - [`bucket`]: one cell's ids, kept in a `smallvec::SmallVec`
//! - [`index`]: insert, remove, relocate and the neighbourhood query
//! - [`store`]: position and owner of every particle, by id
//! - [`config`]: the parameters of a run and their validation
//! - [`layout`]: where particles and cursors stand at the start
//! - [`simulation`]: the driver
//! - [`input`]: direction keys and host signals

pub mod bucket;
pub mod config;
pub mod grid;
pub mod index;
pub mod input;
pub mod layout;
pub mod simulation;
pub mod store;
