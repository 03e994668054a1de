//! A Mandelbrot renderer without its arithmetic.
//!
//! The library cuts a raster into bands of rows (`bands`), hands each band
//! its own run of the pixel buffer and its own corner points (`schedule`),
//! fills a run sample by sample (`render`, `shade`) and runs the escape-time
//! iteration (`escape`). It also splits the pairs of a command line
//! (`parse`) and picks a worker count (`workers`). `composition` holds what
//! follows for a raster that is rendered in bands.
//!
//! What is left to the caller is the plane: the map from a pixel to a
//! point, the step of the iteration and the test that ends it. Every
//! function here is stated over integers, sequences and the contracts of the
//! caller's functions, and proved against them.

pub mod bands;
pub mod composition;
pub mod escape;
pub mod parse;
pub mod render;
pub mod schedule;
pub mod shade;
pub mod workers;
