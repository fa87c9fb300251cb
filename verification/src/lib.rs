//! Core of an image quantizer and ordered-dithering engine.
//!
//! The library models colors at the 8-bit sRGB boundary and verifies the
//! discrete parts of the engine:
//!
//! - [`color`]: the 8-bit sRGB pixel and its packed map key;
//! - [`palettes`]: evenly spaced grid palettes and the box split strategies;
//! - [`hue`]: hue-sector binning and the seed simplices of the simplex-cut
//!   palette builder;
//! - [`refs`]: the palette reference-count bookkeeping, whose counts always
//!   sum to four per live builder node, and the shrink-fit move guard;
//! - [`boxpal`]: the box palette builder;
//! - [`bias`]: the integer kernel of the Bayer ordered-dither bias pattern.
//!
//! The perceptually uniform color spaces, the distance metrics and the
//! per-pixel dither kernels work in floating point, which stays with the
//! host around this library.

use vstd::prelude::*;

pub mod bias;
pub mod boxpal;
pub mod color;
pub mod hue;
pub mod palettes;
pub mod refs;

verus! {

} // verus!
