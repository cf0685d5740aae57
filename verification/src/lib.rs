//! Combat resolution and status-effect engine for a top-down survival game.
//!
//! The library models the simulation world as an arena of entities and
//! verifies the per-tick systems that act on it: circle-overlap collision
//! sweeps, damage application, decaying knockback impulses, the
//! freeze / fire / vulnerability status-effect state machine, pickup and
//! experience collection, and timed lifecycle cleanup with cascading
//! despawn of child entities.
//!
//! All quantities are fixed-point integers: world coordinates carry
//! `geom::COORD_UNIT` steps per world unit, scalar magnitudes (health,
//! damage, knockback strength) carry `geom::SCALAR_ONE` steps per point,
//! and times are in milliseconds.

pub mod combat;
pub mod components;
pub mod geom;
pub mod knockback;
pub mod lifecycle;
pub mod rng;
pub mod spawn;
pub mod status;
pub mod world;
