//! The image operations that this crate takes from the `image` and
//! `imageproc` crates. Each executable function here makes one outside call;
//! what it promises is taken on trust from that crate.

use crate::raster::{GrayRaster, Grid, Raster};
use vstd::prelude::*;

verus! {

/// A point with signed coordinates, as the hull and rectangle routines use it.
pub type SignedPoint = (i64, i64);

/// Largest coordinate that the hull and rectangle routines are called with.
pub const MAX_HULL_COORDINATE: i64 = 16384;

/// Largest radius that the median filter is called with: the number of
/// pixels under its kernel then fits in 32 bits.
pub const MAX_MEDIAN_RADIUS: u32 = 16383;

/// Largest width or height that the edge detector and the contour tracer
/// are called with.
pub const MAX_TRACE_DIMENSION: u32 = 32768;

/// What `image::DynamicImage::resize` with the triangle filter makes of a
/// colour grid and the bounds `nwidth` by `nheight`.
pub uninterp spec fn triangle_resized(src: Grid<u16>, nwidth: nat, nheight: nat) -> Grid<u16>;

/// What `image::DynamicImage::to_luma8` makes of a colour grid.
pub uninterp spec fn luma8_of(src: Grid<u16>) -> Grid<u8>;

/// The coordinate `v + d` held inside a raster of the given extent: what lies
/// beyond an edge is read at the edge.
pub open spec fn held_inside(v: int, d: int, extent: int) -> int {
    if v + d < 0 {
        0
    } else if v + d >= extent {
        extent - 1
    } else {
        v + d
    }
}

/// Number of pixels with a value of at most `v` among the first `n` pixels,
/// row by row, of the window of `2 * x_radius + 1` by `2 * y_radius + 1`
/// pixels around (`x`, `y`).
pub open spec fn window_count(
    src: Grid<u8>,
    x: int,
    y: int,
    x_radius: int,
    y_radius: int,
    v: int,
    n: int,
) -> nat
    decreases n,
{
    if n <= 0 {
        0
    } else {
        let across = 2 * x_radius + 1;
        let px = held_inside(x, (n - 1) % across - x_radius, src.width as int);
        let py = held_inside(y, (n - 1) / across - y_radius, src.height as int);
        window_count(src, x, y, x_radius, y_radius, v, n - 1) + if src.samples[py * src.width + px]
            <= v {
            1nat
        } else {
            0nat
        }
    }
}

/// The median of the window around (`x`, `y`): the least value from `v` on
/// that at least half of the window's pixels do not exceed.
pub open spec fn window_median(
    src: Grid<u8>,
    x: int,
    y: int,
    x_radius: int,
    y_radius: int,
    v: int,
) -> int
    decreases 255 - v,
{
    let size = (2 * x_radius + 1) * (2 * y_radius + 1);
    if v >= 255 {
        255
    } else if 2 * window_count(src, x, y, x_radius, y_radius, v, size) >= size {
        v
    } else {
        window_median(src, x, y, x_radius, y_radius, v + 1)
    }
}

/// A gray grid after median filtering: every pixel becomes the median of the
/// window around it. A grid without pixels stays as it is.
pub open spec fn median_filtered(src: Grid<u8>, x_radius: nat, y_radius: nat) -> Grid<u8> {
    if src.width == 0 || src.height == 0 {
        src
    } else {
        Grid {
            width: src.width,
            height: src.height,
            samples: Seq::new(
                src.width * src.height,
                |i: int|
                    window_median(
                        src,
                        i % (src.width as int),
                        i / (src.width as int),
                        x_radius as int,
                        y_radius as int,
                        0,
                    ) as u8,
            ),
        }
    }
}

/// What `image::imageops::contrast` makes of a gray grid and an amount.
pub uninterp spec fn contrasted(src: Grid<u8>, amount: int) -> Grid<u8>;

/// What `imageproc::edges::canny` makes of a gray grid and the two thresholds.
pub uninterp spec fn canny_edges(src: Grid<u8>, low: nat, high: nat) -> Grid<u8>;

/// What `imageproc::contours::find_contours` finds in a gray grid: the points
/// of each border, border after border.
pub uninterp spec fn contours_of(src: Grid<u8>) -> Seq<Seq<(u32, u32)>>;

/// What `imageproc::geometry::min_area_rect` returns for a list of points: the
/// four corners of the least rectangle around them.
pub uninterp spec fn min_area_corners(points: Seq<SignedPoint>) -> Seq<SignedPoint>;

/// Calls `image::DynamicImage::resize` with `FilterType::Triangle`.
///
/// Trusted: the result is a well-formed raster that depends on the arguments
/// alone, and, as that method documents, it fits within `nwidth` by `nheight`
/// and has at least one pixel on each axis.
#[verifier::external_body]
pub(crate) fn resize_triangle(src: &Raster, nwidth: u32, nheight: u32) -> (out: Raster)
    requires
        src.wf(),
        nwidth >= 1,
        nheight >= 1,
        3 * nwidth * nheight <= usize::MAX,
    ensures
        out.wf(),
        out@ == triangle_resized(src@, nwidth as nat, nheight as nat),
        1 <= out@.width <= nwidth,
        1 <= out@.height <= nheight,
{
    let buffer = image::ImageBuffer::<image::Rgb<u16>, Vec<u16>>::from_raw(
        src.width,
        src.height,
        src.data.clone(),
    ).unwrap();
    let out = image::DynamicImage::from(buffer).resize(
        nwidth,
        nheight,
        image::imageops::FilterType::Triangle,
    ).into_rgb16();
    Raster { width: out.width(), height: out.height(), data: out.into_raw() }
}

/// Calls `image::DynamicImage::to_luma8`.
///
/// Trusted: the result is a well-formed gray raster of the same dimensions
/// that depends on the argument alone.
#[verifier::external_body]
pub(crate) fn luma8(src: &Raster) -> (out: GrayRaster)
    requires
        src.wf(),
    ensures
        out.wf(),
        out@ == luma8_of(src@),
        out@.width == src@.width,
        out@.height == src@.height,
{
    let buffer = image::ImageBuffer::<image::Rgb<u16>, Vec<u16>>::from_raw(
        src.width,
        src.height,
        src.data.clone(),
    ).unwrap();
    let out = image::DynamicImage::from(buffer).to_luma8();
    GrayRaster { width: out.width(), height: out.height(), data: out.into_raw() }
}

/// Calls `imageproc::filter::median_filter`.
///
/// Trusted: for dimensions and radii within the limits that the function
/// checks or computes with, the result is, as that function documents, the
/// raster in which each pixel is the median of the window around it in the
/// argument, with pixels beyond an edge read at the edge.
#[verifier::external_body]
pub(crate) fn median_filter(src: &GrayRaster, x_radius: u32, y_radius: u32) -> (out: GrayRaster)
    requires
        src.wf(),
        src@.width + x_radius <= i32::MAX,
        src@.height + y_radius <= i32::MAX,
        x_radius <= MAX_MEDIAN_RADIUS,
        y_radius <= MAX_MEDIAN_RADIUS,
    ensures
        out.wf(),
        out@ == median_filtered(src@, x_radius as nat, y_radius as nat),
        out@.width == src@.width,
        out@.height == src@.height,
{
    let buffer = image::GrayImage::from_raw(src.width, src.height, src.data.clone()).unwrap();
    let out = imageproc::filter::median_filter(&buffer, x_radius, y_radius);
    GrayRaster { width: out.width(), height: out.height(), data: out.into_raw() }
}

/// Calls `image::imageops::contrast`.
///
/// Trusted: the result is a well-formed gray raster of the same dimensions
/// that depends on the arguments alone.
#[verifier::external_body]
pub(crate) fn contrast(src: &GrayRaster, amount: i16) -> (out: GrayRaster)
    requires
        src.wf(),
    ensures
        out.wf(),
        out@ == contrasted(src@, amount as int),
        out@.width == src@.width,
        out@.height == src@.height,
{
    let buffer = image::GrayImage::from_raw(src.width, src.height, src.data.clone()).unwrap();
    let out = image::imageops::contrast(&buffer, amount.into());
    GrayRaster { width: out.width(), height: out.height(), data: out.into_raw() }
}

/// Calls `imageproc::edges::canny`.
///
/// Trusted: for a raster with at least one pixel, no side longer than
/// `MAX_TRACE_DIMENSION` (the function multiplies and casts the sides in 32
/// bits) and thresholds with `1 <= low <= high`, the result is a well-formed
/// gray raster of the same dimensions that depends on the arguments alone
/// and, as that function documents, holds 255 at edge pixels and 0 elsewhere.
#[verifier::external_body]
pub(crate) fn canny(src: &GrayRaster, low: u8, high: u8) -> (out: GrayRaster)
    requires
        src.wf(),
        1 <= src@.width <= MAX_TRACE_DIMENSION,
        1 <= src@.height <= MAX_TRACE_DIMENSION,
        1 <= low <= high,
    ensures
        out.wf(),
        out@ == canny_edges(src@, low as nat, high as nat),
        out@.width == src@.width,
        out@.height == src@.height,
        forall|i: int|
            0 <= i < out@.samples.len() ==> #[trigger] out@.samples[i] == 0 || out@.samples[i]
                == 255,
{
    let buffer = image::GrayImage::from_raw(src.width, src.height, src.data.clone()).unwrap();
    let out = imageproc::edges::canny(&buffer, low.into(), high.into());
    GrayRaster { width: out.width(), height: out.height(), data: out.into_raw() }
}

/// Calls `imageproc::contours::find_contours`.
///
/// Trusted: the borders depend on the argument alone, each has at least one
/// point, and, as the type documents, every point of a border lies in the
/// foreground: it is a pixel of the raster whose value is not 0.
#[verifier::external_body]
pub(crate) fn find_contours(src: &GrayRaster) -> (out: Vec<Vec<(u32, u32)>>)
    requires
        src.wf(),
        src@.width <= MAX_TRACE_DIMENSION,
        src@.height <= MAX_TRACE_DIMENSION,
    ensures
        out.deep_view() == contours_of(src@),
        forall|c: int| 0 <= c < out@.len() ==> (#[trigger] out@[c])@.len() > 0,
        forall|c: int, i: int|
            0 <= c < out@.len() && 0 <= i < out@[c]@.len() ==> {
                let p = #[trigger] out@[c]@[i];
                &&& p.0 < src@.width
                &&& p.1 < src@.height
                &&& src@.samples[p.1 * src@.width + p.0] != 0
            },
{
    let buffer = image::GrayImage::from_raw(src.width, src.height, src.data.clone()).unwrap();
    let borders = imageproc::contours::find_contours::<u32>(&buffer);
    borders.into_iter().map(|b| b.points.into_iter().map(|p| (p.x, p.y)).collect()).collect()
}

/// Calls `imageproc::geometry::min_area_rect`.
///
/// Trusted: for a list with at least one point and coordinates from 0 to
/// `MAX_HULL_COORDINATE`, the function returns four corners that depend on
/// the list alone.
#[verifier::external_body]
pub(crate) fn min_area_rect(points: &Vec<SignedPoint>) -> (corners: Vec<SignedPoint>)
    requires
        points@.len() > 0,
        forall|i: int|
            0 <= i < points@.len() ==> 0 <= (#[trigger] points@[i]).0 <= MAX_HULL_COORDINATE && 0
                <= points@[i].1 <= MAX_HULL_COORDINATE,
    ensures
        corners@ == min_area_corners(points@),
        corners@.len() == 4,
{
    let list: Vec<imageproc::point::Point<i64>> = points.iter().map(
        |p| imageproc::point::Point::new(p.0, p.1),
    ).collect();
    let corners = imageproc::geometry::min_area_rect(&list);
    corners.iter().map(|c| (c.x, c.y)).collect()
}

} // verus!
