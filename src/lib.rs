//! Escape-time raster of the Mandelbrot set: the orbit test, the row-major
//! renderer that drives it, and the parsing of delimiter-separated pairs.
use vstd::prelude::*;

pub mod mandelbrot;
pub mod parser;

verus! {

} // verus!
