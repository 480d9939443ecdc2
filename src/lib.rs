//! Verified building blocks of a 2D electrostatic particle simulator.
//!
//! The numeric side of the simulation (the softened Coulomb force, the
//! integrators, collision response) works on floating-point values and lives
//! in the host layer. This library holds the discrete side: the quadrant rule
//! of the Barnes-Hut tree, the shape of that tree for a set of particles, and
//! the bookkeeping of the particle ensemble.
pub mod ensemble;
pub mod quadtree;
