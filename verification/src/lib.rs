//! A procedurally generated 2D dungeon floor exposed as a queryable spatial
//! field: point classification (walkable or not), distance to the nearest
//! wall, direction away from the wall, ray-vs-wall intersection and
//! circle-vs-wall collision response.
//!
//! All continuous coordinates live in the unit square and are represented as
//! fixed-point integers with `fixed::SCALE` units to 1.0, so that every
//! computation is exact integer arithmetic and every contract can state the
//! result precisely.

pub mod distance_field;
pub mod enemy_repo;
pub mod fixed;
pub mod level;
pub mod noise;
pub mod priority_queue;
pub mod rng;
