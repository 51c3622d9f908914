//! Fixed configuration of the simulation: world size, the strength of the
//! central attractor, molecule size and speed ranges, and the hard limits
//! that keep every fixed-point computation inside `i64`.

use vstd::prelude::*;

verus! {

/// Fixed-point scale: sub-units per world unit.
pub const FP: i64 = 1000;

/// Width of the rectangular world, in fixed-point units.
pub const WORLD_W: i64 = 800_000;
/// Height of the rectangular world, in fixed-point units.
pub const WORLD_H: i64 = 800_000;
/// Half-thickness of each boundary wall slab, in fixed-point units.
pub const WALL_THICKNESS: i64 = 100_000;

/// Number of molecules spawned at start.
pub const MOLECULE_NUM: usize = 10;
/// The registry tops the population back up to this count.
pub const MOLECULE_NUM_MIN: usize = 10;
/// Smallest molecule radius, in fixed-point units (2 world units).
pub const MOLECULE_SIZE_MIN: i64 = 2_000;
/// Largest molecule radius, in fixed-point units (6 world units).
pub const MOLECULE_SIZE_MAX: i64 = 6_000;
/// Magnitude of a molecule's initial velocity, fixed-point units per second.
pub const MOLECULE_SPEED: i64 = 25_000;
/// Smallest field (sensor) radius a random molecule gets.
pub const FIELD_MIN: i64 = 16_000;
/// Largest field (sensor) radius a random molecule gets.
pub const FIELD_MAX: i64 = 96_000;

/// The frame time the driver uses: 1/30 of a second, in `FP` fractions.
pub const FIX_DT: i64 = 33;

/// Strength of the central attractor, in world units.
pub const GRAV: i64 = 200_000;
/// `GRAV` brought to fixed-point acceleration numerator: `GRAV * FP * FP`.
pub const GRAV_NUM: i64 = 200_000_000_000;

/// Half turn (pi) in fixed-point radians; reported rotations carry this offset.
pub const HALF_TURN: i64 = 3_142;

/// Hard bound on the magnitude of any position coordinate.
pub const POS_LIMIT: i64 = 900_000_000;
/// Hard bound on the magnitude of any velocity component.
pub const VEL_LIMIT: i64 = 4_000_000;
/// Hard bound on any collider radius or box half-extent.
pub const RADIUS_LIMIT: i64 = 100_000_000;
/// Bound on the magnitude of any accumulated force component (`GRAV_NUM`).
pub const FORCE_LIMIT: i64 = 200_000_000_000;

} // verus!
