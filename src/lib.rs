//! The integer and ordering logic of a small offline ray tracer: the
//! scan-line walk that lays camera directions over a pixel grid, the choice
//! of the nearest surface hit, the shadow-ray occlusion test, and the
//! placement of finished pixels into an RGB raster.
//!
//! The vector arithmetic itself (directions, rotations, intersections,
//! brightness) lives with the caller; the functions here take its results as
//! opaque values, ordered keys or flags.
use vstd::prelude::*;

pub mod grid;
pub mod hit;
pub mod shadow;
pub mod raster;
