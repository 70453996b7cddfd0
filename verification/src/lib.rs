//! Turns a still raster image into an animated sequence of frames that shows
//! the dominant edge direction and strength spreading across the image: a
//! per-pixel gradient is computed from the intensities, quantized into a hue
//! and a brightness, and then iteratively propagated toward neighboring cells
//! until the grid reaches a fixed point.
//!
//! All stages work on exact integers: a cell's magnitude is the fixed-point
//! value `floor(1024 * sqrt(gx^2 + gy^2))` of its gradient, and the hue is an
//! exact rational of the gradient pair, so every rule of the pipeline is
//! stated and proved precisely.
pub mod color;
pub mod grid;
pub mod pipeline;
pub mod propagate;
pub mod stage;

pub use grid::Grid;
pub use grid::GridError;
pub use grid::Window;
pub use pipeline::process;
pub use stage::Cell;

use vstd::prelude::*;

verus! {

/// One 8-bit RGB pixel.
#[derive(Clone, Copy, PartialEq, Eq, Structural, Debug)]
pub struct Rgb {
    pub r: u8,
    pub g: u8,
    pub b: u8,
}

} // verus!
