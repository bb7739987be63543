//! Failures of the pipeline stages.

use vstd::prelude::*;

verus! {

/// The frame geometry could not be established or used.
#[derive(Clone, Copy, Debug, PartialEq, Eq, Structural)]
pub enum GeometryError {
    /// No contour of the edge map survived filtering.
    NoContour,
    /// No pixel around the frame qualified as a sample of the film backing.
    NoBorderSamples,
    /// The crop rectangle covers no pixel of the raster.
    EmptyCrop,
}

/// A channel offers no dynamic range to stretch.
#[derive(Clone, Copy, Debug, PartialEq, Eq, Structural)]
pub enum ToneMapError {
    /// The black and the white point of `channel` coincide.
    ZeroRange { channel: u8 },
}

/// The decoded data cannot be a raster of this crate.
#[derive(Clone, Copy, Debug, PartialEq, Eq, Structural)]
pub enum DecodeError {
    /// The decoder reported a bit depth other than 16.
    UnsupportedBitDepth { bits: u16 },
    /// The buffer holds fewer samples than the dimensions need.
    BufferTooSmall,
}

/// Any failure of a whole conversion.
#[derive(Clone, Copy, Debug, PartialEq, Eq, Structural)]
pub enum ConvertError {
    Geometry(GeometryError),
    ToneMap(ToneMapError),
}

} // verus!
