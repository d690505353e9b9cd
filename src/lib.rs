//! Palette reduction and dithering on integer colors.
//!
//! The library reduces a set of colors to a small palette with a k-means
//! centroid finder, and renders an image with that palette either by plain
//! nearest-color substitution (thresholding) or by Floyd–Steinberg error
//! diffusion over a 2×2 neighborhood traversal.
pub mod color;
pub mod kmean;
pub mod palette;
pub mod kernel;
pub mod image;
pub mod dither;
