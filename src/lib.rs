//! Procedural image generators: Farey sunbursts, Ulam spirals, Mandelbrot
//! escape-time colouring, Sierpinski subdivision and Perlin noise layout.
//!
//! The library holds the integer logic of each generator; drawing onto a
//! raster and floating-point sampling are left to the caller.

pub mod number_theory;
pub mod farey;
pub mod spiral;
pub mod ulam;
pub mod sierpinski;
pub mod mandelbrot;
pub mod perlin;
