//! Flocking simulation core: a uniform-grid spatial hash and the boids rules
//! (cohesion, separation, alignment) on an integer plane.
pub mod config;
pub mod drones;
pub mod geometry;
pub mod spatial_hashmap;

pub use config::{GameConfig, RuleConfig};
pub use drones::{Drone, DroneData};
pub use geometry::{Ratio, Vec2};
pub use spatial_hashmap::SpatialHashMap2D;
