//! Hides a byte payload inside the pixel data of a raster image and recovers
//! it from the modified image alone.
//!
//! Payload bits are embedded as small deviations from a locally estimated
//! "baseline" pixel value along a pseudo-random walk over image cells; the
//! step to the next cell is itself encoded in the other two color channels,
//! so the walk is self-describing and no index is stored anywhere.

pub mod bits;
pub mod codec;
pub mod grid;
pub mod occupancy;
pub mod rand;
