//! Conversion of scanned photographic negatives into colour-correct positives.
//!
//! The crate locates the film frame inside a linear 16-bit scan, derives a crop
//! rectangle with a target aspect ratio, white-balances against the film
//! backing, inverts the tonal polarity and stretches every channel to the full
//! range. The crate's own arithmetic is exact integer arithmetic; resampling,
//! filtering, edge detection and contour geometry are taken from the `image`
//! and `imageproc` crates.

pub mod arith;
pub mod border;
pub mod conversion;
pub mod error;
pub mod histogram;
pub mod imaging;
pub mod io;
pub mod raster;
