//! Escape-time rendering of the Mandelbrot set into a grayscale pixel buffer.
//!
//! The library holds the control logic of the renderer: the bounded
//! escape-time iteration, the encoding of escape times as intensities, the
//! row-major fill of a band of pixels, the partition of an image into bands
//! that independent workers can fill, and the parsing of the pairs that an
//! image's dimensions and corners are written as. The arithmetic of the
//! number plane is supplied by the caller as closures, so the same logic
//! serves any representation of complex numbers.

pub mod band;
pub mod banded;
pub mod escape;
pub mod pair;
pub mod render;

pub use band::{partition, rows_per_band, Band};
pub use escape::{escape_time, shade, ITERATION_LIMIT};
pub use pair::{pair_of, parse_pair, split_pair};
pub use render::render;
