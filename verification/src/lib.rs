//! A two-dimensional Verlet particle solver, without its arithmetic.
//!
//! Particles are circles of one fixed diameter in a circular bowl. Each
//! sub-step they are pulled by gravity, held inside the bowl, pushed apart
//! where they overlap, and moved. To find the overlaps the particles are
//! bucketed into a uniform grid whose cells are one diameter wide, and only
//! particles in the same or in adjacent cells are compared.
//!
//! This crate holds everything of that but the floating-point arithmetic:
//! the particle store, the grid, the pass that picks the pairs and the
//! order in which they are resolved, the driver of the sub-steps, and the
//! spawner's population cap. What happens to one particle, or to one pair,
//! is a kernel that the caller hands in.

pub mod seq_facts;
pub mod cell;
pub mod cell_map;
pub mod grid;
pub mod pass;
pub mod coverage;
pub mod resolver;
pub mod geometry;
pub mod store;
pub mod spawner;
pub mod solver;
