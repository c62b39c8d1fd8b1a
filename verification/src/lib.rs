//! Escape-time fractal fields over the complex plane, in exact fixed-point
//! arithmetic.
//!
//! The crate computes two kinds of raster image: a direct escape-time map
//! (each pixel colored by the step at which its orbit escapes) and a
//! trajectory-density map (a histogram of every position visited by the
//! orbits selected in a classification pre-pass).  The per-point state
//! machine, the pixel/plane coordinate mapping, the chunked accumulation
//! strategy and the interactive viewport controller are all specified and
//! verified here; window hosts, image encoding and argument parsing live
//! outside the library and exchange plain values with it.

pub mod fixed;
pub mod complex;
pub mod sample;
pub mod mapper;
pub mod histogram;
pub mod colorize;
pub mod engine;
pub mod partition;
pub mod viewport;
pub mod pipeline;
