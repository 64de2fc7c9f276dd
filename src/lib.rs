//! Partial-observability engine for a pursuit-evasion gridworld: rasterizes
//! field-of-view triangles into grid coverage, decides which noise sources an
//! agent hears, keeps a per-agent memory of entities that left view, and
//! packs all of it into fixed-shape observation tables.
//!
//! Positions are fixed-point integers (`geometry::POS_SCALE` units per world
//! unit) and times are integer milliseconds, so every rule below is exact.
pub mod geometry;
pub mod raster;
pub mod hearing;
pub mod memory;
pub mod encoder;
