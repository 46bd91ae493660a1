//! Pieces of an anti-aliased Mandelbrot renderer whose arithmetic on real
//! numbers is supplied by the caller: the escape-time loop, the Halton
//! sampler as exact fractions, the greyscale shading rule, the tiled image
//! driver and the plain-text pixel-map writer.

pub mod escape;
pub mod ppm;
pub mod render;
pub mod resolve;
pub mod sampler;
pub mod shader;
