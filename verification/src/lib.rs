//! A bounded 2D particle world: circular molecules drift under a central
//! attractor, bounce off each other and the world's boundary walls, and are
//! queried through generation-checked handles.
//!
//! All lengths, velocities and angles are fixed-point integers with `FP`
//! sub-units per world unit, so every formula in the contracts is exact
//! integer arithmetic.

pub mod actors;
pub mod channel;
pub mod consts;
pub mod kinetic;
pub mod math;
pub mod particle;
pub mod rng;
pub mod util;
pub mod world;
