//! A Mandelbrot-set rasterizer's verified core: mapping escape-time
//! results to grayscale bytes, filling row-major pixel buffers band by
//! band, and partitioning an image into disjoint horizontal bands so that
//! concurrent workers can each own one — with proofs that the banded
//! render reconstructs the whole image whatever the partition.  Around it,
//! the small verified utilities that ship with the renderer: pair parsing,
//! a greatest common divisor, and friends.

pub mod arith;
pub mod escape;
pub mod parse;
pub mod raster;
pub mod shade;
pub mod table;
