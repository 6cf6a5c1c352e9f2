//! Core of an offline ray-tracing renderer: an axis-aligned bounding-volume
//! hierarchy over scene instances, a brute-force fallback with the same
//! interface, and the tile scheduler that partitions the image into chunks
//! of per-pixel work.
//!
//! Geometry lives in a bounded integer world: coordinates are integers and
//! distances along a ray are exact rationals, so every comparison the
//! traversal makes is exact and provable.

pub mod num;
pub mod geometry;
pub mod objects;
pub mod acceleration;
pub mod scene;
pub mod scheduler;
pub mod statistics;
