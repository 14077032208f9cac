//! An entity-component data store with archetype tracking, combined with a
//! spatial collision-detection engine: per-frame bounding-volume-hierarchy
//! construction, broad-phase candidate enumeration, narrow-phase axis-aligned
//! rectangle classification, and a stable enter/stay/exit contact protocol.

pub mod geometry;
pub mod group;
pub mod ecs;
pub mod collider;
pub mod bvh;
pub mod world;
pub mod collision;
