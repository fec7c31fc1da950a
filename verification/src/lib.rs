//! Kern-distance solver for font production: given two glyph outlines made of
//! line and cubic Bezier segments, find the horizontal offset at which the
//! closest approach between the outlines matches a target distance, subject to
//! a maximum-overlap ("tuck") constraint.
//!
//! All geometry is carried in integer font units; distances are reported as
//! the integer floor of the true Euclidean distance.

pub mod geometry;
pub mod minima;
pub mod outline;
pub mod distance;
pub mod solver;
