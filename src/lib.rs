//! Integer core of an ASCII ray-marching renderer: pixel buffers, luminance
//! post-processing, palette quantisation, Sobel edge detection, glyph
//! composition into a double-buffered cell grid, and the tiling that splits a
//! frame into independent units of work.
use vstd::prelude::*;

pub mod pixel;
pub mod palette;
pub mod grid;
pub mod tiles;
pub mod framebuffer;
pub mod sobel;
pub mod ascii;
pub mod terminalbuffer;
pub mod terminal;
