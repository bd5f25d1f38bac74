//! Differential growth: a closed polygonal curve whose nodes repel nearby
//! neighbors, cohere to their two curve-neighbors, and subdivide stretched
//! edges, producing organic space-filling patterns over many iterations.
//!
//! All geometry is carried in fixed-point coordinates: one spatial unit is
//! `SCALE` (1000) raw ticks, so every position, velocity and force component
//! is an `i64` number of thousandths. This keeps every step of the
//! simulation exact and lets each operation carry a full contract.
pub mod differential_growth;
pub mod intmath;
pub mod node;
pub mod spatial;
pub mod vec2;

pub use crate::differential_growth::DifferentialGrowth;
pub use crate::node::Node;
pub use crate::vec2::Vec2;

use vstd::prelude::*;

verus! {

/// Number of raw coordinate ticks in one spatial unit.
pub const SCALE: i64 = 1000;

/// One squared unit in raw ticks; the weight of an inverse-distance
/// repulsion contribution.
pub const UNIT_SQ: i64 = 1000 * 1000;

/// Positions are clamped into `[-WORLD_MAX, WORLD_MAX]` per component, which
/// keeps every intermediate product inside the machine integer range.
pub const WORLD_MAX: i64 = 1_000_000_000;

/// Upper machine bound for the positive scalar limits (`max_force`,
/// `max_speed`, `desired_separation`, `max_edge_length`).
pub const LIMIT_MAX: i64 = 1_000_000_000;

/// Upper machine bound for the separation/cohesion weight ratio, which is
/// given in thousandths.
pub const RATIO_MAX: i64 = 1_000_000;

/// Accelerations are clamped into `[-ACC_MAX, ACC_MAX]` per component.
pub const ACC_MAX: i64 = 1_000_000_000_000_000;

/// Bound on the components every vector operation accepts.
pub const COMP_MAX: i64 = 2_000_000_000_000_000_000;

} // verus!
