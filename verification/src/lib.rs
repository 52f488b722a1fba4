//! Flattening of cubic Bézier segments: approximating a curve by a polyline
//! that stays within a caller-supplied tolerance of the true curve.
//!
//! Coordinates, tolerances and curve parameters are fixed-point scalars: an
//! `i64` holding the value scaled by [`fixed::FP_ONE`]. The library offers a
//! push API ([`flatten::flatten_cubic_bezier`]) and a pull API
//! ([`flatten::CubicFlatteningIter`]); both are driven by one state machine,
//! and the laws in [`flatten`] prove that every complete run of that machine
//! emits one fixed sequence of points, ending exactly at the segment's
//! destination.

pub mod fixed;
pub mod geom;
pub mod uptotwo;
pub mod inflection;
pub mod flatten;
