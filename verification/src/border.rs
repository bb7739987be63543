//! Locating the film frame in a scan and sampling the film backing around it.

use crate::arith::{scale_u32, scaled};
use crate::error::GeometryError;
use crate::histogram::{normalize_histogram_mut, normalized};
use crate::imaging::{
    canny, canny_edges, contours_of, contrast, contrasted, find_contours, luma8, luma8_of,
    median_filter, median_filtered, min_area_corners, min_area_rect, resize_triangle,
    triangle_resized, SignedPoint, MAX_HULL_COORDINATE,
};
use crate::raster::{Border, GrayRaster, Grid, Raster, Rectangle};
use vstd::prelude::*;

verus! {

/// Longest side of the analysis raster.
pub const ANALYSIS_SIDE: u32 = 500;

/// Gray values below this are taken for the black mount around the film.
pub const BLACK_BORDER_THRESHOLD: u8 = 20;

/// Gray values above this are taken for light leaking through sprocket holes.
pub const WHITE_LIGHT_THRESHOLD: u8 = 240;

/// Radius of the median filter that removes speckle from the mask.
pub const MEDIAN_RADIUS: u32 = 1;

/// Contrast boost applied before edge detection.
pub const EDGE_CONTRAST: i16 = 50;

/// Low threshold of the edge detector.
pub const EDGE_LOW_THRESHOLD: u8 = 1;

/// High threshold of the edge detector.
pub const EDGE_HIGH_THRESHOLD: u8 = 50;

/// A contour counts only if it has more points than this.
pub const MIN_CONTOUR_POINTS: usize = 50;

/// The margin around the frame is the raster's extent divided by this.
pub const MARGIN_DIVISOR: u32 = 20;

/// Gray value of pure white.
pub const WHITE: u8 = 255;

/// A gray value with border noise removed: values below `low` or above `high`
/// become black.
pub open spec fn noise_zeroed_value(v: u8, low: u8, high: u8) -> u8 {
    if v < low || v > high {
        0
    } else {
        v
    }
}

/// A gray value with the near-black turned white: values below `low` become
/// 255.
pub open spec fn dark_whitened_value(v: u8, low: u8) -> u8 {
    if v < low {
        255
    } else {
        v
    }
}

/// Forces every pixel darker than `low` or brighter than `high` to black.
pub fn zero_border_noise(image: &GrayRaster, low: u8, high: u8) -> (out: GrayRaster)
    requires
        image.wf(),
    ensures
        out.wf(),
        out@.width == image@.width,
        out@.height == image@.height,
        out@.samples == image@.samples.map_values(|v: u8| noise_zeroed_value(v, low, high)),
{
    let mut data: Vec<u8> = Vec::new();
    let mut i: usize = 0;
    while i < image.data.len()
        invariant
            i <= image.data@.len(),
            data@.len() == i,
            forall|j: int|
                0 <= j < i ==> #[trigger] data@[j] == noise_zeroed_value(
                    image.data@[j],
                    low,
                    high,
                ),
        decreases image.data@.len() - i,
    {
        let v = image.data[i];
        data.push(
            if v < low || v > high {
                0
            } else {
                v
            },
        );
        i += 1;
    }
    proof {
        assert(data@ =~= image@.samples.map_values(|v: u8| noise_zeroed_value(v, low, high)));
    }
    GrayRaster { width: image.width, height: image.height, data }
}

/// Turns every pixel darker than `low` white.
pub fn whiten_dark(image: &GrayRaster, low: u8) -> (out: GrayRaster)
    requires
        image.wf(),
    ensures
        out.wf(),
        out@.width == image@.width,
        out@.height == image@.height,
        out@.samples == image@.samples.map_values(|v: u8| dark_whitened_value(v, low)),
{
    let mut data: Vec<u8> = Vec::new();
    let mut i: usize = 0;
    while i < image.data.len()
        invariant
            i <= image.data@.len(),
            data@.len() == i,
            forall|j: int|
                0 <= j < i ==> #[trigger] data@[j] == dark_whitened_value(image.data@[j], low),
        decreases image.data@.len() - i,
    {
        let v = image.data[i];
        data.push(
            if v < low {
                255
            } else {
                v
            },
        );
        i += 1;
    }
    proof {
        assert(data@ =~= image@.samples.map_values(|v: u8| dark_whitened_value(v, low)));
    }
    GrayRaster { width: image.width, height: image.height, data }
}

/// A contour point with signed coordinates.
pub open spec fn signed(p: (u32, u32)) -> SignedPoint {
    (p.0 as i64, p.1 as i64)
}

/// The points of all contours with more than `min_len` points, contour after
/// contour.
pub open spec fn long_contour_points(contours: Seq<Seq<(u32, u32)>>, min_len: nat) -> Seq<
    SignedPoint,
>
    decreases contours.len(),
{
    if contours.len() == 0 {
        Seq::empty()
    } else {
        let rest = long_contour_points(contours.drop_last(), min_len);
        if contours.last().len() > min_len {
            rest + contours.last().map_values(|p: (u32, u32)| signed(p))
        } else {
            rest
        }
    }
}

/// Every point of `long_contour_points` is a point of one of the contours.
pub proof fn lemma_long_contour_points_origin(
    contours: Seq<Seq<(u32, u32)>>,
    min_len: nat,
    k: int,
) -> (at: (int, int))
    requires
        0 <= k < long_contour_points(contours, min_len).len(),
    ensures
        0 <= at.0 < contours.len(),
        0 <= at.1 < contours[at.0].len(),
        long_contour_points(contours, min_len)[k] == signed(contours[at.0][at.1]),
    decreases contours.len(),
{
    let rest = long_contour_points(contours.drop_last(), min_len);
    if k < rest.len() {
        lemma_long_contour_points_origin(contours.drop_last(), min_len, k)
    } else {
        (contours.len() - 1, k - rest.len())
    }
}

/// Drops the contours with at most `min_len` points and lists the points of
/// the others, contour after contour.
#[verifier::rlimit(50)]
pub fn collect_contour_points(contours: &Vec<Vec<(u32, u32)>>, min_len: usize) -> (points: Vec<
    SignedPoint,
>)
    ensures
        points@ == long_contour_points(contours.deep_view(), min_len as nat),
{
    let mut points: Vec<SignedPoint> = Vec::new();
    let mut c: usize = 0;
    let ghost all = contours.deep_view();
    while c < contours.len()
        invariant
            c <= contours@.len(),
            all == contours.deep_view(),
            all.len() == contours@.len(),
            points@ == long_contour_points(all.take(c as int), min_len as nat),
        decreases contours@.len() - c,
    {
        let contour = &contours[c];
        proof {
            assert(all.take(c + 1).drop_last() =~= all.take(c as int));
            assert(all.take(c + 1).last() == all[c as int]);
            assert(all[c as int] == contour@);
        }
        if contour.len() > min_len {
            let ghost before = points@;
            let mut i: usize = 0;
            while i < contour.len()
                invariant
                    i <= contour@.len(),
                    points@ == before + contour@.take(i as int).map_values(
                        |p: (u32, u32)| signed(p),
                    ),
                decreases contour@.len() - i,
            {
                let p = contour[i];
                points.push((p.0 as i64, p.1 as i64));
                proof {
                    assert(contour@.take(i + 1).map_values(|p: (u32, u32)| signed(p))
                        =~= contour@.take(i as int).map_values(|p: (u32, u32)| signed(p)).push(
                        signed(p),
                    ));
                }
                i += 1;
            }
            proof {
                assert(contour@.take(contour@.len() as int) =~= contour@);
            }
        }
        c += 1;
    }
    proof {
        assert(all.take(contours@.len() as int) =~= all);
    }
    points
}

/// Coordinate of a point on an axis: 0 is x, anything else y.
pub open spec fn coordinate(p: SignedPoint, axis: int) -> int {
    if axis == 0 {
        p.0 as int
    } else {
        p.1 as int
    }
}

/// Least coordinate of the points on an axis, 0 for no points.
pub open spec fn least(points: Seq<SignedPoint>, axis: int) -> int
    decreases points.len(),
{
    if points.len() == 0 {
        0
    } else if points.len() == 1 {
        coordinate(points[0], axis)
    } else {
        let rest = least(points.drop_last(), axis);
        let v = coordinate(points.last(), axis);
        if v < rest {
            v
        } else {
            rest
        }
    }
}

/// Greatest coordinate of the points on an axis, 0 for no points.
pub open spec fn greatest(points: Seq<SignedPoint>, axis: int) -> int
    decreases points.len(),
{
    if points.len() == 0 {
        0
    } else if points.len() == 1 {
        coordinate(points[0], axis)
    } else {
        let rest = greatest(points.drop_last(), axis);
        let v = coordinate(points.last(), axis);
        if v > rest {
            v
        } else {
            rest
        }
    }
}

/// `least` and `greatest` bound every point, and each is the coordinate of
/// some point.
pub proof fn lemma_extremes(points: Seq<SignedPoint>, axis: int)
    requires
        points.len() > 0,
    ensures
        forall|i: int|
            0 <= i < points.len() ==> least(points, axis) <= coordinate(
                #[trigger] points[i],
                axis,
            ) <= greatest(points, axis),
        exists|i: int| 0 <= i < points.len() && least(points, axis) == coordinate(points[i], axis),
        exists|i: int|
            0 <= i < points.len() && greatest(points, axis) == coordinate(points[i], axis),
        least(points, axis) <= greatest(points, axis),
    decreases points.len(),
{
    if points.len() == 1 {
        assert(least(points, axis) == coordinate(points[0], axis));
        assert(greatest(points, axis) == coordinate(points[0], axis));
    } else {
        let rest = points.drop_last();
        lemma_extremes(rest, axis);
        let last = points.len() - 1;
        assert(forall|i: int| 0 <= i < rest.len() ==> rest[i] == points[i]);
        let a = choose|i: int|
            0 <= i < rest.len() && least(rest, axis) == coordinate(rest[i], axis);
        let b = choose|i: int|
            0 <= i < rest.len() && greatest(rest, axis) == coordinate(rest[i], axis);
        if coordinate(points.last(), axis) < least(rest, axis) {
            assert(least(points, axis) == coordinate(points[last], axis));
        } else {
            assert(least(points, axis) == coordinate(points[a], axis));
        }
        if coordinate(points.last(), axis) > greatest(rest, axis) {
            assert(greatest(points, axis) == coordinate(points[last], axis));
        } else {
            assert(greatest(points, axis) == coordinate(points[b], axis));
        }
        assert forall|i: int| 0 <= i < points.len() implies least(points, axis) <= coordinate(
            #[trigger] points[i],
            axis,
        ) <= greatest(points, axis) by {
            if i < last {
                assert(points[i] == rest[i]);
            }
        }
    }
}

/// A signed coordinate forced into the range of `u32`.
pub open spec fn clamped(v: int) -> u32 {
    if v < 0 {
        0
    } else if v > u32::MAX {
        u32::MAX
    } else {
        v as u32
    }
}

/// The axis-aligned bounds of the points, with each bound forced into the
/// range of `u32`; all 0 for no points.
pub open spec fn bounds_of(points: Seq<SignedPoint>) -> Rectangle {
    Rectangle {
        min_x: clamped(least(points, 0)),
        min_y: clamped(least(points, 1)),
        max_x: clamped(greatest(points, 0)),
        max_y: clamped(greatest(points, 1)),
    }
}

/// Computes `clamped`.
fn clamp_coordinate(v: i64) -> (c: u32)
    ensures
        c == clamped(v as int),
{
    if v < 0 {
        0
    } else if v > u32::MAX as i64 {
        u32::MAX
    } else {
        v as u32
    }
}

/// Returns the axis-aligned bounds of `points`: the least and greatest
/// coordinate on each axis, negative ones raised to 0.
pub fn bounding_rectangle(points: &Vec<SignedPoint>) -> (bounds: Rectangle)
    ensures
        bounds == bounds_of(points@),
        bounds.wf(),
{
    if points.len() == 0 {
        return Rectangle { min_x: 0, min_y: 0, max_x: 0, max_y: 0 };
    }
    let first = points[0];
    let mut min_x: i64 = first.0;
    let mut max_x: i64 = first.0;
    let mut min_y: i64 = first.1;
    let mut max_y: i64 = first.1;
    let mut i: usize = 1;
    proof {
        assert(points@.take(1).len() == 1);
    }
    while i < points.len()
        invariant
            1 <= i <= points@.len(),
            min_x == least(points@.take(i as int), 0),
            max_x == greatest(points@.take(i as int), 0),
            min_y == least(points@.take(i as int), 1),
            max_y == greatest(points@.take(i as int), 1),
        decreases points@.len() - i,
    {
        let p = points[i];
        proof {
            assert(points@.take(i + 1).drop_last() =~= points@.take(i as int));
            assert(points@.take(i + 1).last() == p);
        }
        if p.0 < min_x {
            min_x = p.0;
        }
        if p.0 > max_x {
            max_x = p.0;
        }
        if p.1 < min_y {
            min_y = p.1;
        }
        if p.1 > max_y {
            max_y = p.1;
        }
        i += 1;
    }
    proof {
        assert(points@.take(points@.len() as int) =~= points@);
        lemma_extremes(points@, 0);
        lemma_extremes(points@, 1);
    }
    Rectangle {
        min_x: clamp_coordinate(min_x),
        min_y: clamp_coordinate(min_y),
        max_x: clamp_coordinate(max_x),
        max_y: clamp_coordinate(max_y),
    }
}

/// A coordinate carried from a raster of extent `from` to one of extent `to`:
/// the floor of `v * to / from`, at most `u32::MAX`.
pub open spec fn rescaled(v: u32, from: u32, to: u32) -> u32 {
    scaled(v as nat, to as nat, from as nat, u32::MAX as nat) as u32
}

/// Rescaling keeps the order of coordinates, and carries a coordinate inside
/// the `from` extent to one inside the `to` extent.
pub proof fn lemma_rescaled(a: u32, b: u32, from: u32, to: u32)
    ensures
        a <= b ==> rescaled(a, from, to) <= rescaled(b, from, to),
        a < from && to > 0 ==> rescaled(a, from, to) < to,
        a <= from && from > 0 ==> rescaled(a, from, to) <= to,
{
    if from > 0 {
        let f = from as int;
        let t = to as int;
        if a <= b {
            assert(a * t / f <= b * t / f) by (nonlinear_arith)
                requires
                    0 <= a <= b,
                    t >= 0,
                    f > 0,
            ;
        }
        if a < from && to > 0 {
            assert(a * t < f * t) by (nonlinear_arith)
                requires
                    0 <= a < f,
                    t > 0,
            ;
            vstd::arithmetic::div_mod::lemma_div_by_multiple_is_strongly_ordered(
                a * t,
                f * t,
                t,
                f,
            );
            vstd::arithmetic::div_mod::lemma_div_by_multiple(t, f);
            assert(f * t == t * f) by (nonlinear_arith);
        }
        if a <= from {
            assert(a * t / f <= t) by (nonlinear_arith)
                requires
                    0 <= a <= f,
                    t >= 0,
                    f > 0,
            ;
        }
    } else {
        if a <= b {
            assert(a * to <= b * to) by (nonlinear_arith)
                requires
                    0 <= a <= b,
                    to >= 0,
            ;
        }
    }
}

/// A rectangle carried from a raster of `from_width` by `from_height` to one
/// of `to_width` by `to_height`.
pub open spec fn rescaled_rectangle(
    r: Rectangle,
    from_width: u32,
    from_height: u32,
    to_width: u32,
    to_height: u32,
) -> Rectangle {
    Rectangle {
        min_x: rescaled(r.min_x, from_width, to_width),
        min_y: rescaled(r.min_y, from_height, to_height),
        max_x: rescaled(r.max_x, from_width, to_width),
        max_y: rescaled(r.max_y, from_height, to_height),
    }
}

/// Carries a rectangle from the coordinates of one raster to those of
/// another. A well-formed rectangle stays well-formed, and one that lies
/// inside the first raster comes to lie inside the second.
pub fn scale_rectangle(
    r: Rectangle,
    from_width: u32,
    from_height: u32,
    to_width: u32,
    to_height: u32,
) -> (out: Rectangle)
    ensures
        out == rescaled_rectangle(r, from_width, from_height, to_width, to_height),
        r.wf() ==> out.wf(),
        r.wf() && r.max_x <= from_width && r.max_y <= from_height && from_width > 0 && from_height
            > 0 ==> out.max_x <= to_width && out.max_y <= to_height,
{
    proof {
        lemma_rescaled(r.min_x, r.max_x, from_width, to_width);
        lemma_rescaled(r.min_y, r.max_y, from_height, to_height);
        lemma_rescaled(r.max_x, r.max_x, from_width, to_width);
        lemma_rescaled(r.max_y, r.max_y, from_height, to_height);
    }
    Rectangle {
        min_x: scale_u32(r.min_x, to_width, from_width),
        min_y: scale_u32(r.min_y, to_height, from_height),
        max_x: scale_u32(r.max_x, to_width, from_width),
        max_y: scale_u32(r.max_y, to_height, from_height),
    }
}

/// Points carried from a raster of `from_width` by `from_height` to one of
/// `to_width` by `to_height`.
pub open spec fn rescaled_points(
    points: Seq<(u32, u32)>,
    from_width: u32,
    from_height: u32,
    to_width: u32,
    to_height: u32,
) -> Seq<(u32, u32)> {
    points.map_values(
        |p: (u32, u32)|
            (rescaled(p.0, from_width, to_width), rescaled(p.1, from_height, to_height)),
    )
}

/// Carries points from the coordinates of one raster to those of another.
/// Points that are pixels of the first raster become pixels of the second.
pub fn scale_points(
    points: &Vec<(u32, u32)>,
    from_width: u32,
    from_height: u32,
    to_width: u32,
    to_height: u32,
) -> (out: Vec<(u32, u32)>)
    ensures
        out@ == rescaled_points(points@, from_width, from_height, to_width, to_height),
        forall|i: int|
            0 <= i < points@.len() && (#[trigger] points@[i]).0 < from_width && points@[i].1
                < from_height && to_width > 0 && to_height > 0 ==> out@[i].0 < to_width
                && out@[i].1 < to_height,
{
    let mut out: Vec<(u32, u32)> = Vec::new();
    let mut i: usize = 0;
    while i < points.len()
        invariant
            i <= points@.len(),
            out@.len() == i,
            forall|j: int|
                0 <= j < i ==> #[trigger] out@[j] == (
                    rescaled(points@[j].0, from_width, to_width),
                    rescaled(points@[j].1, from_height, to_height),
                ),
        decreases points@.len() - i,
    {
        let p = points[i];
        out.push((scale_u32(p.0, to_width, from_width), scale_u32(p.1, to_height, from_height)));
        i += 1;
    }
    proof {
        assert(out@ =~= rescaled_points(points@, from_width, from_height, to_width, to_height));
        assert forall|i: int|
            0 <= i < points@.len() && (#[trigger] points@[i]).0 < from_width && points@[i].1
                < from_height && to_width > 0 && to_height > 0 implies out@[i].0 < to_width
                && out@[i].1 < to_height by {
            lemma_rescaled(points@[i].0, points@[i].0, from_width, to_width);
            lemma_rescaled(points@[i].1, points@[i].1, from_height, to_height);
        }
    }
    out
}

/// A coordinate `v` lies in the margin of the span from `min` to `max`: less
/// than `gap` inside its lower end or anywhere before it, or less than `gap`
/// inside its upper end or anywhere after it.
pub open spec fn in_margin(v: int, min: int, max: int, gap: int) -> bool {
    v < min + gap || v > max - gap
}

/// Pixel `i` of the mask is a candidate for the film backing around `bounds`:
/// it is not pure white and lies in the margin of the frame on at least one
/// axis. The margin is the mask's extent on that axis divided by
/// `MARGIN_DIVISOR`.
pub open spec fn is_candidate(mask: Grid<u8>, bounds: Rectangle, i: int) -> bool {
    let x = i % (mask.width as int);
    let y = i / (mask.width as int);
    let gap_x = mask.width as int / MARGIN_DIVISOR as int;
    let gap_y = mask.height as int / MARGIN_DIVISOR as int;
    &&& 0 <= i < mask.samples.len()
    &&& mask.samples[i] != WHITE
    &&& (in_margin(x, bounds.min_x as int, bounds.max_x as int, gap_x) || in_margin(
        y,
        bounds.min_y as int,
        bounds.max_y as int,
        gap_y,
    ))
}

/// Number of candidates with the value `v` among the first `n` pixels.
pub open spec fn candidate_count(mask: Grid<u8>, bounds: Rectangle, v: int, n: int) -> nat
    decreases n,
{
    if n <= 0 {
        0
    } else {
        candidate_count(mask, bounds, v, n - 1) + if is_candidate(mask, bounds, n - 1)
            && mask.samples[n - 1] == v {
            1nat
        } else {
            0nat
        }
    }
}

/// Positions of the candidates with the value `v` among the first `n` pixels,
/// in row-major order.
pub open spec fn candidate_positions(mask: Grid<u8>, bounds: Rectangle, v: int, n: int) -> Seq<
    (u32, u32),
>
    decreases n,
{
    if n <= 0 {
        Seq::empty()
    } else {
        let rest = candidate_positions(mask, bounds, v, n - 1);
        if is_candidate(mask, bounds, n - 1) && mask.samples[n - 1] == v {
            rest.push(
                (((n - 1) % (mask.width as int)) as u32, ((n - 1) / (mask.width as int)) as u32),
            )
        } else {
            rest
        }
    }
}

/// The value below `upto` that most candidates have; of several such values
/// the greatest.
pub open spec fn modal_value(mask: Grid<u8>, bounds: Rectangle, upto: int) -> int
    decreases upto,
{
    if upto <= 1 {
        0
    } else {
        let rest = modal_value(mask, bounds, upto - 1);
        let n = mask.samples.len() as int;
        if candidate_count(mask, bounds, upto - 1, n) >= candidate_count(mask, bounds, rest, n) {
            upto - 1
        } else {
            rest
        }
    }
}

/// The modal value is a gray value that no other value beats, and no greater
/// value equals.
pub proof fn lemma_modal_value(mask: Grid<u8>, bounds: Rectangle, upto: int)
    requires
        1 <= upto,
    ensures
        0 <= modal_value(mask, bounds, upto) < upto,
        forall|v: int|
            0 <= v < upto ==> #[trigger] candidate_count(mask, bounds, v, mask.samples.len() as int)
                <= candidate_count(
                mask,
                bounds,
                modal_value(mask, bounds, upto),
                mask.samples.len() as int,
            ),
        forall|v: int|
            modal_value(mask, bounds, upto) < v < upto ==> #[trigger] candidate_count(
                mask,
                bounds,
                v,
                mask.samples.len() as int,
            ) < candidate_count(
                mask,
                bounds,
                modal_value(mask, bounds, upto),
                mask.samples.len() as int,
            ),
    decreases upto,
{
    if upto > 1 {
        lemma_modal_value(mask, bounds, upto - 1);
    }
}

/// The samples of the film backing around `bounds`: the positions of the
/// candidates that have the modal value, or the failure to find any.
pub open spec fn border_samples(mask: Grid<u8>, bounds: Rectangle) -> Result<
    Seq<(u32, u32)>,
    GeometryError,
> {
    let n = mask.samples.len() as int;
    let modal = modal_value(mask, bounds, 256);
    if candidate_count(mask, bounds, modal, n) == 0 {
        Err(GeometryError::NoBorderSamples)
    } else {
        Ok(candidate_positions(mask, bounds, modal, n))
    }
}

/// There are as many positions as the count says, and each is a pixel of the
/// mask with the value `v`.
#[verifier::rlimit(50)]
pub proof fn lemma_candidate_positions(mask: Grid<u8>, bounds: Rectangle, v: int, n: int)
    requires
        mask.samples.len() == mask.width * mask.height,
        mask.width <= u32::MAX,
        mask.height <= u32::MAX,
        n <= mask.samples.len(),
    ensures
        candidate_positions(mask, bounds, v, n).len() == candidate_count(mask, bounds, v, n),
        forall|k: int|
            0 <= k < candidate_positions(mask, bounds, v, n).len() ==> {
                let p = #[trigger] candidate_positions(mask, bounds, v, n)[k];
                &&& p.0 < mask.width
                &&& p.1 < mask.height
                &&& mask.samples[p.1 * mask.width + p.0] == v
                &&& is_candidate(mask, bounds, p.1 * mask.width + p.0)
            },
    decreases n,
{
    if n > 0 {
        lemma_candidate_positions(mask, bounds, v, n - 1);
        if is_candidate(mask, bounds, n - 1) && mask.samples[n - 1] == v {
            let w = mask.width as int;
            let i = n - 1;
            assert(w > 0) by (nonlinear_arith)
                requires
                    0 <= i < w * mask.height,
            ;
            vstd::arithmetic::div_mod::lemma_fundamental_div_mod(i, w);
            vstd::arithmetic::div_mod::lemma_mod_bound(i, w);
            assert(0 <= i / w < mask.height) by (nonlinear_arith)
                requires
                    0 <= i < w * mask.height,
                    w > 0,
                    i == w * (i / w) + i % w,
                    0 <= i % w < w,
            ;
            assert((i / w) * w + i % w == i) by (nonlinear_arith)
                requires
                    i == w * (i / w) + i % w,
            ;
        }
    }
}

/// Returns the column and row of pixel `i`.
#[verifier::rlimit(50)]
fn position_of(img: &GrayRaster, i: usize) -> (p: (u32, u32))
    requires
        img.wf(),
        i < img@.samples.len(),
    ensures
        p.0 == i as int % (img@.width as int),
        p.1 == i as int / (img@.width as int),
        p.0 < img@.width,
        p.1 < img@.height,
        i == p.1 * img@.width + p.0,
{
    let w: usize = img.width as usize;
    proof {
        let wi = img.width as int;
        let ii = i as int;
        assert(wi > 0) by (nonlinear_arith)
            requires
                0 <= ii < wi * img.height,
        ;
        vstd::arithmetic::div_mod::lemma_fundamental_div_mod(ii, wi);
        vstd::arithmetic::div_mod::lemma_mod_bound(ii, wi);
        assert(0 <= ii / wi < img.height) by (nonlinear_arith)
            requires
                0 <= ii < wi * img.height,
                wi > 0,
                ii == wi * (ii / wi) + ii % wi,
                0 <= ii % wi < wi,
        ;
        assert((ii / wi) * wi + ii % wi == ii) by (nonlinear_arith)
            requires
                ii == wi * (ii / wi) + ii % wi,
        ;
    }
    ((i % w) as u32, (i / w) as u32)
}

/// Tells whether pixel `i` is a candidate.
fn candidate_at(img: &GrayRaster, bounds: Rectangle, i: usize) -> (c: bool)
    requires
        img.wf(),
        i < img@.samples.len(),
    ensures
        c == is_candidate(img@, bounds, i as int),
{
    let (x, y) = position_of(img, i);
    let gap_x: u64 = (img.width / MARGIN_DIVISOR) as u64;
    let gap_y: u64 = (img.height / MARGIN_DIVISOR) as u64;
    let in_x: bool = (x as u64) < bounds.min_x as u64 + gap_x || x as u64 + gap_x
        > bounds.max_x as u64;
    let in_y: bool = (y as u64) < bounds.min_y as u64 + gap_y || y as u64 + gap_y
        > bounds.max_y as u64;
    img.data[i] != WHITE && (in_x || in_y)
}

/// Picks the pixels around the frame that show the film backing: among the
/// pixels of the mask that are not pure white and lie in the margin of
/// `bounds`, those with the most frequent value.
#[verifier::rlimit(50)]
pub fn identify_border_points(bounds: Rectangle, img: &GrayRaster) -> (r: Result<
    Vec<(u32, u32)>,
    GeometryError,
>)
    requires
        img.wf(),
    ensures
        match r {
            Ok(points) => border_samples(img@, bounds) == Ok::<Seq<(u32, u32)>, GeometryError>(
                points@,
            ),
            Err(e) => border_samples(img@, bounds) == Err::<Seq<(u32, u32)>, GeometryError>(e),
        },
        r matches Ok(points) ==> points@.len() > 0 && forall|k: int|
            0 <= k < points@.len() ==> (#[trigger] points@[k]).0 < img@.width && points@[k].1
                < img@.height,
{
    let n: usize = img.data.len();
    let ghost mask = img@;
    let mut counts: Vec<usize> = Vec::new();
    let mut v: usize = 0;
    while v < 256
        invariant
            v <= 256,
            counts@.len() == v,
            forall|u: int| 0 <= u < v ==> #[trigger] counts@[u] == 0,
        decreases 256 - v,
    {
        counts.push(0);
        v += 1;
    }
    let mut i: usize = 0;
    while i < n
        invariant
            img.wf(),
            mask == img@,
            n == img.data@.len(),
            i <= n,
            counts@.len() == 256,
            forall|u: int|
                0 <= u < 256 ==> #[trigger] counts@[u] == candidate_count(
                    mask,
                    bounds,
                    u,
                    i as int,
                ),
            forall|u: int| 0 <= u < 256 ==> #[trigger] counts@[u] <= i,
        decreases n - i,
    {
        let value = img.data[i] as usize;
        if candidate_at(img, bounds, i) {
            counts[value] = counts[value] + 1;
        }
        i += 1;
    }
    let mut modal: usize = 0;
    let mut v: usize = 1;
    while v < 256
        invariant
            1 <= v <= 256,
            modal < v,
            n == mask.samples.len(),
            counts@.len() == 256,
            forall|u: int|
                0 <= u < 256 ==> #[trigger] counts@[u] == candidate_count(
                    mask,
                    bounds,
                    u,
                    n as int,
                ),
            modal == modal_value(mask, bounds, v as int),
        decreases 256 - v,
    {
        if counts[v] >= counts[modal] {
            modal = v;
        }
        v += 1;
    }
    if counts[modal] == 0 {
        return Err(GeometryError::NoBorderSamples);
    }
    let mut points: Vec<(u32, u32)> = Vec::new();
    let mut i: usize = 0;
    while i < n
        invariant
            img.wf(),
            mask == img@,
            n == img.data@.len(),
            modal < 256,
            i <= n,
            points@ == candidate_positions(mask, bounds, modal as int, i as int),
        decreases n - i,
    {
        let value = img.data[i] as usize;
        if value == modal && candidate_at(img, bounds, i) {
            let p = position_of(img, i);
            points.push(p);
        }
        i += 1;
    }
    proof {
        lemma_candidate_positions(mask, bounds, modal as int, n as int);
    }
    Ok(points)
}

/// The rasters that the search for the frame passes through, kept for
/// diagnostics.
#[derive(Debug)]
pub struct Analysis {
    /// The downscaled luma copy after the first normalisation.
    pub grayscale: GrayRaster,
    /// The copy with border noise zeroed, normalised again.
    pub pre_border_removal: GrayRaster,
    /// The denoised mask: near-black turned white, speckle removed.
    pub borderless: GrayRaster,
    /// The edge map of the mask.
    pub edges: GrayRaster,
}

impl Analysis {
    /// These are the analysis rasters of `scan`: each is well-formed and holds
    /// what its stage makes of the scan, and none is longer than
    /// `ANALYSIS_SIDE` on a side.
    pub open spec fn describes(&self, scan: Grid<u16>) -> bool {
        &&& self.grayscale.wf() && self.grayscale@ == grayscale_of(scan)
        &&& self.pre_border_removal.wf() && self.pre_border_removal@ == pre_border_removal_of(
            scan,
        )
        &&& self.borderless.wf() && self.borderless@ == borderless_of(scan)
        &&& self.edges.wf() && self.edges@ == edges_of(scan)
        &&& self.edges@.width == self.borderless@.width
        &&& self.edges@.height == self.borderless@.height
        &&& 1 <= self.edges@.width <= ANALYSIS_SIDE
        &&& 1 <= self.edges@.height <= ANALYSIS_SIDE
    }
}

/// The grid `g` with other samples.
pub open spec fn with_samples(g: Grid<u8>, samples: Seq<u8>) -> Grid<u8> {
    Grid { width: g.width, height: g.height, samples }
}

/// The analysis copy of a scan: its luma, taken from a copy resampled to fit
/// `ANALYSIS_SIDE` where the scan is larger.
pub open spec fn analysis_copy(src: Grid<u16>) -> Grid<u8> {
    if src.width > ANALYSIS_SIDE || src.height > ANALYSIS_SIDE {
        luma8_of(triangle_resized(src, ANALYSIS_SIDE as nat, ANALYSIS_SIDE as nat))
    } else {
        luma8_of(src)
    }
}

/// The analysis copy, normalised.
pub open spec fn grayscale_of(src: Grid<u16>) -> Grid<u8> {
    let copy = analysis_copy(src);
    with_samples(copy, normalized(copy.samples))
}

/// The normalised copy with border noise zeroed, normalised again.
pub open spec fn pre_border_removal_of(src: Grid<u16>) -> Grid<u8> {
    let gray = grayscale_of(src);
    with_samples(
        gray,
        normalized(
            gray.samples.map_values(
                |v: u8| noise_zeroed_value(v, BLACK_BORDER_THRESHOLD, WHITE_LIGHT_THRESHOLD),
            ),
        ),
    )
}

/// The denoised mask of a scan.
pub open spec fn borderless_of(src: Grid<u16>) -> Grid<u8> {
    let pre = pre_border_removal_of(src);
    median_filtered(
        with_samples(
            pre,
            pre.samples.map_values(|v: u8| dark_whitened_value(v, BLACK_BORDER_THRESHOLD)),
        ),
        MEDIAN_RADIUS as nat,
        MEDIAN_RADIUS as nat,
    )
}

/// The edge map of a scan.
pub open spec fn edges_of(src: Grid<u16>) -> Grid<u8> {
    canny_edges(
        contrasted(borderless_of(src), EDGE_CONTRAST as int),
        EDGE_LOW_THRESHOLD as nat,
        EDGE_HIGH_THRESHOLD as nat,
    )
}

/// Produces the analysis rasters of a scan, or nothing for a scan without
/// pixels: the downscaled luma copy is normalised, cleared of border noise,
/// normalised again, turned into a mask, denoised, and searched for edges.
pub fn prepare_analysis(scan: &Raster) -> (r: Option<Analysis>)
    requires
        scan.wf(),
    ensures
        r is None <==> scan@.width == 0 || scan@.height == 0,
        r matches Some(a) ==> a.describes(scan@),
{
    if scan.width == 0 || scan.height == 0 {
        return None;
    }
    let mut grayscale = if scan.width > ANALYSIS_SIDE || scan.height > ANALYSIS_SIDE {
        let small = resize_triangle(scan, ANALYSIS_SIDE, ANALYSIS_SIDE);
        luma8(&small)
    } else {
        luma8(scan)
    };
    normalize_histogram_mut(&mut grayscale);
    let mut pre_border_removal = zero_border_noise(
        &grayscale,
        BLACK_BORDER_THRESHOLD,
        WHITE_LIGHT_THRESHOLD,
    );
    normalize_histogram_mut(&mut pre_border_removal);
    let mask = whiten_dark(&pre_border_removal, BLACK_BORDER_THRESHOLD);
    let borderless = median_filter(&mask, MEDIAN_RADIUS, MEDIAN_RADIUS);
    let boosted = contrast(&borderless, EDGE_CONTRAST);
    let edges = canny(&boosted, EDGE_LOW_THRESHOLD, EDGE_HIGH_THRESHOLD);
    Some(Analysis { grayscale, pre_border_removal, borderless, edges })
}

/// The frame of a scan in the coordinates of its analysis copy: the bounds of
/// the least rectangle around the points of all long contours of the edge
/// map.
pub open spec fn analysis_frame(src: Grid<u16>) -> Rectangle {
    bounds_of(
        min_area_corners(
            long_contour_points(contours_of(edges_of(src)), MIN_CONTOUR_POINTS as nat),
        ),
    )
}

/// The border of a scan: its frame and the samples of the film backing, both
/// carried to the coordinates of the scan; or the reason why there is none.
pub open spec fn located_border(src: Grid<u16>) -> Result<
    (Rectangle, Seq<(u32, u32)>),
    GeometryError,
> {
    let edges = edges_of(src);
    if src.width == 0 || src.height == 0 {
        Err(GeometryError::NoContour)
    } else if long_contour_points(contours_of(edges), MIN_CONTOUR_POINTS as nat).len() == 0 {
        Err(GeometryError::NoContour)
    } else {
        match border_samples(borderless_of(src), analysis_frame(src)) {
            Err(e) => Err(e),
            Ok(samples) => Ok(
                (
                    rescaled_rectangle(
                        analysis_frame(src),
                        edges.width as u32,
                        edges.height as u32,
                        src.width as u32,
                        src.height as u32,
                    ),
                    rescaled_points(
                        samples,
                        edges.width as u32,
                        edges.height as u32,
                        src.width as u32,
                        src.height as u32,
                    ),
                ),
            ),
        }
    }
}

/// Finds the film frame in a scan and the pixels around it that show the film
/// backing.
///
/// Fails with `NoContour` when the scan has no pixels or no contour of its
/// edge map has more than `MIN_CONTOUR_POINTS` points, and with
/// `NoBorderSamples` when no pixel around the frame qualifies as a sample.
/// The bounds returned are well-formed, the samples are pixels of the scan,
/// and where the frame lies inside the analysis copy the bounds lie inside
/// the scan.
#[verifier::rlimit(50)]
pub fn locate_border(scan: &Raster) -> (r: Result<Border, GeometryError>)
    requires
        scan.wf(),
    ensures
        match r {
            Ok(border) => located_border(scan@) == Ok::<
                (Rectangle, Seq<(u32, u32)>),
                GeometryError,
            >((border.bounds, border.samples@)),
            Err(e) => located_border(scan@) == Err::<
                (Rectangle, Seq<(u32, u32)>),
                GeometryError,
            >(e),
        },
        r matches Ok(border) ==> {
            &&& border.bounds.wf()
            &&& border.fits(scan@)
            &&& analysis_frame(scan@).max_x <= edges_of(scan@).width && analysis_frame(
                scan@,
            ).max_y <= edges_of(scan@).height ==> border.bounds.max_x <= scan@.width
                && border.bounds.max_y <= scan@.height
        },
{
    match prepare_analysis(scan) {
        None => Err(GeometryError::NoContour),
        Some(analysis) => locate_border_in(scan, &analysis),
    }
}

/// Finds the film frame and the samples of the film backing in the analysis
/// rasters of a scan that has pixels: what `locate_border` does once the
/// analysis is made.
#[verifier::rlimit(50)]
pub(crate) fn locate_border_in(scan: &Raster, analysis: &Analysis) -> (r: Result<
    Border,
    GeometryError,
>)
    requires
        scan.wf(),
        scan@.width > 0,
        scan@.height > 0,
        analysis.describes(scan@),
    ensures
        match r {
            Ok(border) => located_border(scan@) == Ok::<
                (Rectangle, Seq<(u32, u32)>),
                GeometryError,
            >((border.bounds, border.samples@)),
            Err(e) => located_border(scan@) == Err::<
                (Rectangle, Seq<(u32, u32)>),
                GeometryError,
            >(e),
        },
        r matches Ok(border) ==> {
            &&& border.bounds.wf()
            &&& border.fits(scan@)
            &&& analysis_frame(scan@).max_x <= edges_of(scan@).width && analysis_frame(
                scan@,
            ).max_y <= edges_of(scan@).height ==> border.bounds.max_x <= scan@.width
                && border.bounds.max_y <= scan@.height
        },
{
    let contours = find_contours(&analysis.edges);
    let points = collect_contour_points(&contours, MIN_CONTOUR_POINTS);
    if points.len() == 0 {
        return Err(GeometryError::NoContour);
    }
    proof {
        let all = contours.deep_view();
        assert forall|k: int| 0 <= k < points@.len() implies 0 <= (#[trigger] points@[k]).0
            <= MAX_HULL_COORDINATE && 0 <= points@[k].1 <= MAX_HULL_COORDINATE by {
            let at = lemma_long_contour_points_origin(all, MIN_CONTOUR_POINTS as nat, k);
            assert(all[at.0] == contours@[at.0].deep_view());
            assert(all[at.0][at.1] == contours@[at.0]@[at.1]);
        }
    }
    let corners = min_area_rect(&points);
    let frame = bounding_rectangle(&corners);
    let samples = match identify_border_points(frame, &analysis.borderless) {
        Err(e) => {
            return Err(e);
        },
        Ok(s) => s,
    };
    let from_width = analysis.edges.width();
    let from_height = analysis.edges.height();
    let bounds = scale_rectangle(
        frame,
        from_width,
        from_height,
        scan.width(),
        scan.height(),
    );
    let scaled_samples = scale_points(
        &samples,
        from_width,
        from_height,
        scan.width(),
        scan.height(),
    );
    Ok(Border { bounds, samples: scaled_samples })
}

} // verus!
