//! Intersections of line segments in the plane, found by a sweep from left to
//! right.
//!
//! Coordinates are exact: a coordinate counts billionths of a unit in a 64-bit
//! integer, up to a billion units either way, so a point carries nine
//! decimal places. The point in which two segments cross is rounded to the
//! nearest such point; heights of segments at a sweep position are exact
//! fractions.

pub mod arith;
pub mod error;
pub mod event_queue;
pub mod geometry;
pub mod invariants;
pub mod parse;
pub mod sweep;
pub mod sweep_line;
