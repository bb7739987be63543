//! From a scan of a negative to a positive: crop geometry, white balance
//! against the film backing, tonal inversion and the whole conversion.

use crate::arith::{
    integer_sqrt, isqrt, lemma_isqrt_bounds, lemma_isqrt_sample_range, lemma_isqrt_unique, scaled,
};
use crate::border::{
    locate_border, locate_border_in, located_border, prepare_analysis, Analysis,
};
use crate::error::{ConvertError, GeometryError};
use crate::histogram::{spans_full_range, stretch_channels_mut, tone_stretched};
use crate::raster::{
    cropped, sample_index, AspectRatio, Border, Color, Grid, Raster, Rectangle, MAX_SAMPLE,
};
use vstd::arithmetic::div_mod::{lemma_fundamental_div_mod, lemma_mod_bound};
use vstd::prelude::*;

verus! {

/// Sum of the squares of the values.
pub open spec fn sum_of_squares(s: Seq<u16>) -> nat
    decreases s.len(),
{
    if s.len() == 0 {
        0
    } else {
        sum_of_squares(s.drop_last()) + (s.last() as nat) * (s.last() as nat)
    }
}

/// Root mean square of the values, rounded down; 0 for no values.
pub open spec fn rms_of(s: Seq<u16>) -> nat {
    if s.len() == 0 {
        0
    } else {
        isqrt(sum_of_squares(s) / s.len())
    }
}

/// The squares of `n` 16-bit values sum to at most `n * 65535 * 65535`.
pub proof fn lemma_sum_of_squares_bound(s: Seq<u16>)
    ensures
        sum_of_squares(s) <= s.len() * 0xfffe_0001,
    decreases s.len(),
{
    if s.len() > 0 {
        lemma_sum_of_squares_bound(s.drop_last());
        let v = s.last() as nat;
        assert(v * v <= 0xfffe_0001) by (nonlinear_arith)
            requires
                v <= 65535,
        ;
        assert(s.len() * 0xfffe_0001 == (s.len() - 1) * 0xfffe_0001 + 0xfffe_0001)
            by (nonlinear_arith);
    } else {
        assert(s.len() * 0xfffe_0001 == 0) by (nonlinear_arith)
            requires
                s.len() == 0,
        ;
    }
}

/// The root mean square of 16-bit values is a 16-bit value, and it is the one
/// integer whose square, times the number of values, fits under the sum of
/// squares while that of the next integer does not.
#[verifier::rlimit(50)]
pub proof fn lemma_rms_of(s: Seq<u16>)
    ensures
        rms_of(s) <= 65535,
        s.len() > 0 ==> rms_of(s) * rms_of(s) * s.len() <= sum_of_squares(s) < (rms_of(s) + 1) * (
        rms_of(s) + 1) * s.len(),
{
    if s.len() > 0 {
        lemma_sum_of_squares_bound(s);
        let n = s.len() as int;
        let total = sum_of_squares(s) as int;
        let q = total / n;
        assert(q <= 0xfffe_0001 && q * n <= total < (q + 1) * n) by (nonlinear_arith)
            requires
                q == total / n,
                n > 0,
                0 <= total <= n * 0xfffe_0001,
        ;
        lemma_isqrt_sample_range(q as nat);
        lemma_isqrt_bounds(q as nat);
        let r = isqrt(q as nat) as int;
        assert(r * r * n <= total) by (nonlinear_arith)
            requires
                r * r <= q,
                q * n <= total,
                n > 0,
        ;
        assert(total < (r + 1) * (r + 1) * n) by (nonlinear_arith)
            requires
                q + 1 <= (r + 1) * (r + 1),
                total < (q + 1) * n,
                n > 0,
        ;
    }
}

/// Root mean square of `values`, rounded down; 0 for no values.
#[verifier::rlimit(50)]
pub fn rms(values: Vec<u16>) -> (r: u16)
    ensures
        r == rms_of(values@),
{
    let n = values.len();
    if n == 0 {
        return 0;
    }
    let mut sum: u128 = 0;
    let mut i: usize = 0;
    while i < n
        invariant
            i <= n,
            n == values@.len(),
            sum == sum_of_squares(values@.take(i as int)),
        decreases n - i,
    {
        let v = values[i] as u128;
        proof {
            assert(values@.take(i + 1).drop_last() =~= values@.take(i as int));
            lemma_sum_of_squares_bound(values@.take(i + 1));
            assert((i + 1) * 0xfffe_0001 <= 0xffff_ffff_ffff_ffff * 0xfffe_0001)
                by (nonlinear_arith)
                requires
                    i + 1 <= 0xffff_ffff_ffff_ffff,
            ;
            assert(v * v <= 0xfffe_0001) by (nonlinear_arith)
                requires
                    v <= 65535,
            ;
        }
        sum = sum + v * v;
        i += 1;
    }
    proof {
        assert(values@.take(n as int) =~= values@);
        lemma_rms_of(values@);
        lemma_sum_of_squares_bound(values@);
        let total = sum as int;
        let len = n as int;
        assert(total / len <= 0xfffe_0001) by (nonlinear_arith)
            requires
                len > 0,
                0 <= total <= len * 0xfffe_0001,
        ;
    }
    let mean: u64 = (sum / (n as u128)) as u64;
    integer_sqrt(mean) as u16
}

/// A reference value weighted for luminance: `v` times the square root of
/// `per_mille / 1000`, rounded down.
pub open spec fn weighted(v: u16, per_mille: nat) -> nat {
    isqrt((per_mille * v * v / 1000) as nat)
}

/// The luminance that white balance aims at for a reference colour: the root
/// mean square of its channels, each weighted by the square root of its share
/// in perceived brightness (0.299, 0.587, 0.114).
pub open spec fn luminance_target(white: Color) -> nat {
    rms_of(
        seq![
            weighted(white.r, 299) as u16,
            weighted(white.g, 587) as u16,
            weighted(white.b, 114) as u16,
        ],
    )
}

/// A weighted reference value is a 16-bit value.
pub proof fn lemma_weighted_range(v: u16, per_mille: nat)
    requires
        per_mille <= 1000,
    ensures
        weighted(v, per_mille) <= 65535,
{
    let x = v as nat;
    let n = (per_mille * v * v / 1000) as nat;
    assert(n <= 0xfffe_0001) by (nonlinear_arith)
        requires
            n == per_mille * x * x / 1000,
            per_mille <= 1000,
            x <= 65535,
    ;
    lemma_isqrt_sample_range(n);
}

/// A sample after white balance: `v` times `target / reference`, rounded down
/// and at most the greatest value. With a reference of 0 a sample of 0 stays
/// and, unless the target is 0 too, any other becomes the greatest value.
pub open spec fn balanced_value(v: u16, target: nat, reference: u16) -> u16 {
    scaled(v as nat, target, reference as nat, 65535) as u16
}

/// The samples of a colour grid after white balance against `white`.
pub open spec fn balanced_samples(samples: Seq<u16>, white: Color) -> Seq<u16> {
    Seq::new(
        samples.len(),
        |i: int| balanced_value(samples[i], luminance_target(white), white.channel(i % 3)),
    )
}

/// The squares of equal values sum to their number times the square of one.
pub proof fn lemma_sum_of_equal_squares(s: Seq<u16>, value: u16)
    requires
        forall|i: int| 0 <= i < s.len() ==> s[i] == value,
    ensures
        sum_of_squares(s) == s.len() * (value * value),
    decreases s.len(),
{
    if s.len() > 0 {
        lemma_sum_of_equal_squares(s.drop_last(), value);
        let n = s.len() as int;
        let q = (value * value) as int;
        assert(n * q == (n - 1) * q + q) by (nonlinear_arith);
    } else {
        let q = (value * value) as int;
        assert(s.len() * q == 0) by (nonlinear_arith)
            requires
                s.len() == 0,
        ;
    }
}

/// The root mean square of equal values is that value.
pub proof fn lemma_rms_of_equal_values(s: Seq<u16>, value: u16)
    requires
        s.len() > 0,
        forall|i: int| 0 <= i < s.len() ==> s[i] == value,
    ensures
        rms_of(s) == value,
{
    lemma_sum_of_equal_squares(s, value);
    let n = s.len() as int;
    let q = (value * value) as int;
    assert(n * q / n == q) by (nonlinear_arith)
        requires
            n > 0,
            q >= 0,
    ;
    let v = value as nat;
    assert(v * v <= q < (v + 1) * (v + 1)) by (nonlinear_arith)
        requires
            q == v * v,
    ;
    lemma_isqrt_unique(q as nat, v);
}

/// White balance turns the reference colour itself into neutral gray: each of
/// its channels that is not 0 comes out as the luminance target.
pub proof fn lemma_reference_becomes_neutral(white: Color, channel: int)
    requires
        white.channel(channel) > 0,
    ensures
        balanced_value(white.channel(channel), luminance_target(white), white.channel(channel))
            == luminance_target(white),
{
    let c = white.channel(channel) as int;
    let t = luminance_target(white) as int;
    lemma_rms_of(
        seq![
            weighted(white.r, 299) as u16,
            weighted(white.g, 587) as u16,
            weighted(white.b, 114) as u16,
        ],
    );
    assert(c * t / c == t) by (nonlinear_arith)
        requires
            c > 0,
            t >= 0,
    ;
}

/// Computes `weighted`.
fn weigh(v: u16, per_mille: u16) -> (w: u16)
    requires
        per_mille <= 1000,
    ensures
        w == weighted(v, per_mille as nat),
{
    proof {
        lemma_weighted_range(v, per_mille as nat);
        assert(per_mille * v * v <= 1000 * 65535 * 65535) by (nonlinear_arith)
            requires
                0 <= per_mille <= 1000,
                0 <= v <= 65535,
        ;
        assert(per_mille * v <= 1000 * 65535) by (nonlinear_arith)
            requires
                0 <= per_mille <= 1000,
                0 <= v <= 65535,
        ;
    }
    let n: u64 = (per_mille as u64) * (v as u64) * (v as u64) / 1000;
    integer_sqrt(n) as u16
}

/// Computes `balanced_value`.
fn balance_value(v: u16, target: u16, reference: u16) -> (out: u16)
    ensures
        out == balanced_value(v, target as nat, reference),
{
    assert(v * target <= 65535 * 65535) by (nonlinear_arith)
        requires
            0 <= v <= 65535,
            0 <= target <= 65535,
    ;
    let product: u32 = (v as u32) * (target as u32);
    if reference == 0 {
        if product == 0 {
            0
        } else {
            MAX_SAMPLE
        }
    } else {
        let q: u32 = product / (reference as u32);
        if q > 65535 {
            MAX_SAMPLE
        } else {
            q as u16
        }
    }
}

/// Balances `img` so that `white_color` becomes neutral gray: every sample is
/// multiplied by the ratio of the luminance target to the reference value of
/// its channel, and held to the range of samples.
pub fn white_balance(img: &mut Raster, white_color: Color)
    requires
        old(img).wf(),
    ensures
        final(img).wf(),
        final(img)@.width == old(img)@.width,
        final(img)@.height == old(img)@.height,
        final(img)@.samples == balanced_samples(old(img)@.samples, white_color),
{
    let mut weights: Vec<u16> = Vec::new();
    weights.push(weigh(white_color.r, 299));
    weights.push(weigh(white_color.g, 587));
    weights.push(weigh(white_color.b, 114));
    proof {
        assert(weights@ =~= seq![
            weighted(white_color.r, 299) as u16,
            weighted(white_color.g, 587) as u16,
            weighted(white_color.b, 114) as u16,
        ]);
    }
    let target: u16 = rms(weights);
    let ghost before = img.data@;
    let n = img.data.len();
    let mut i: usize = 0;
    let mut channel: usize = 0;
    while i < n
        invariant
            i <= n,
            n == before.len(),
            img.data@.len() == n,
            img.width == old(img).width,
            img.height == old(img).height,
            channel == i % 3,
            target == luminance_target(white_color),
            forall|j: int|
                0 <= j < i ==> #[trigger] img.data@[j] == balanced_value(
                    before[j],
                    luminance_target(white_color),
                    white_color.channel(j % 3),
                ),
            forall|j: int| i <= j < n ==> #[trigger] img.data@[j] == before[j],
        decreases n - i,
    {
        let v = img.data[i];
        img.data[i] = balance_value(v, target, white_color.get(channel));
        i += 1;
        channel = if channel == 2 {
            0
        } else {
            channel + 1
        };
    }
    proof {
        assert(img.data@ =~= balanced_samples(before, white_color));
    }
}

/// The samples with their tonal polarity flipped: each becomes the greatest
/// value minus itself.
pub open spec fn inverted_samples(samples: Seq<u16>) -> Seq<u16> {
    samples.map_values(|v: u16| (65535 - v) as u16)
}

/// Inverting twice gives back the samples.
pub proof fn lemma_invert_twice(samples: Seq<u16>)
    ensures
        inverted_samples(inverted_samples(samples)) == samples,
{
    assert(inverted_samples(inverted_samples(samples)) =~= samples);
}

/// Flips the tonal polarity of `img`: a negative becomes a positive.
pub fn invert_mut(img: &mut Raster)
    requires
        old(img).wf(),
    ensures
        final(img).wf(),
        final(img)@.width == old(img)@.width,
        final(img)@.height == old(img)@.height,
        final(img)@.samples == inverted_samples(old(img)@.samples),
{
    let ghost before = img.data@;
    let n = img.data.len();
    let mut i: usize = 0;
    while i < n
        invariant
            i <= n,
            n == before.len(),
            img.data@.len() == n,
            img.width == old(img).width,
            img.height == old(img).height,
            forall|j: int| 0 <= j < i ==> #[trigger] img.data@[j] == (65535 - before[j]) as u16,
            forall|j: int| i <= j < n ==> #[trigger] img.data@[j] == before[j],
        decreases n - i,
    {
        let v = img.data[i];
        img.data[i] = MAX_SAMPLE - v;
        i += 1;
    }
    proof {
        assert(img.data@ =~= inverted_samples(before));
    }
}

/// Splits a scan of two half frames into its left and right half. With an odd
/// width the last column belongs to neither.
pub fn split_image(img: Raster) -> (halves: [Raster; 2])
    requires
        img.wf(),
    ensures
        halves[0].wf(),
        halves[1].wf(),
        halves[0]@ == cropped(img@, 0, 0, img@.width / 2, img@.height),
        halves[1]@ == cropped(img@, img@.width / 2, 0, img@.width / 2, img@.height),
{
    let half = img.width() / 2;
    let left = img.crop(0, 0, half, img.height());
    let right = img.crop(half, 0, half, img.height());
    [left, right]
}

/// Twice this many parts make a whole where an inset is given in parts per
/// million and taken from both sides.
pub const INSET_DIVISOR: u64 = 2_000_000;

/// The inset on one side of an axis: `ppm` parts per million of the image's
/// extent on that axis, halved and rounded down.
pub open spec fn inset_of(extent: nat, ppm: nat) -> nat {
    extent * ppm / INSET_DIVISOR as nat
}

/// The span from `min` to `max` drawn in by `inset` at both ends. Where the
/// insets would meet or cross, the span shrinks to its middle.
pub open spec fn inset_span(min: nat, max: nat, inset: nat) -> (nat, nat) {
    if 2 * inset <= max - min {
        (min + inset, (max - inset) as nat)
    } else {
        (min + ((max - min) / 2) as nat, min + ((max - min) / 2) as nat)
    }
}

/// A span of length `other * num / den` centred in the span of length
/// `extent` that starts at `min`, each end rounded down.
pub open spec fn centred_span(min: nat, extent: nat, other: nat, num: nat, den: nat) -> (nat, nat) {
    let whole = (extent * den) as int;
    let part = (other * num) as int;
    let twice = 2 * den as int;
    ((min + (whole - part) / twice) as nat, (min + (whole + part) / twice) as nat)
}

/// The crop rectangle for a frame at `bounds` inside an image of `width` by
/// `height`: the frame drawn in by the inset on the axis that fits the target
/// ratio, and cut to the ratio, centred, on the axis that has too much.
pub open spec fn crop_bounds(
    width: nat,
    height: nat,
    bounds: Rectangle,
    aspect: AspectRatio,
    ppm: nat,
) -> Rectangle {
    let w = bounds.spec_width();
    let h = bounds.spec_height();
    let across = inset_span(bounds.min_x as nat, bounds.max_x as nat, inset_of(width, ppm));
    let down = inset_span(bounds.min_y as nat, bounds.max_y as nat, inset_of(height, ppm));
    if w * aspect.height > h * aspect.width {
        let cut = centred_span(
            bounds.min_x as nat,
            w,
            (down.1 - down.0) as nat,
            aspect.width as nat,
            aspect.height as nat,
        );
        Rectangle {
            min_x: cut.0 as u32,
            min_y: down.0 as u32,
            max_x: cut.1 as u32,
            max_y: down.1 as u32,
        }
    } else if w * aspect.height < h * aspect.width {
        let cut = centred_span(
            bounds.min_y as nat,
            h,
            (across.1 - across.0) as nat,
            aspect.height as nat,
            aspect.width as nat,
        );
        Rectangle {
            min_x: across.0 as u32,
            min_y: cut.0 as u32,
            max_x: across.1 as u32,
            max_y: cut.1 as u32,
        }
    } else {
        Rectangle {
            min_x: across.0 as u32,
            min_y: down.0 as u32,
            max_x: across.1 as u32,
            max_y: down.1 as u32,
        }
    }
}

/// A centred span lies inside the span it is centred in, and its length
/// differs from `other * num / den` by less than one.
#[verifier::rlimit(50)]
pub proof fn lemma_centred_span(min: nat, extent: nat, other: nat, num: nat, den: nat)
    requires
        den > 0,
        other * num <= extent * den,
    ensures
        min <= centred_span(min, extent, other, num, den).0 <= centred_span(
            min,
            extent,
            other,
            num,
            den,
        ).1 <= min + extent,
        -(den as int) < (centred_span(min, extent, other, num, den).1 - centred_span(
            min,
            extent,
            other,
            num,
            den,
        ).0) * den - other * num < den,
{
    let e = (extent * den) as int;
    let t = (other * num) as int;
    let d = 2 * den as int;
    let a = e + t;
    let b = e - t;
    lemma_fundamental_div_mod(a, d);
    lemma_fundamental_div_mod(b, d);
    lemma_mod_bound(a, d);
    lemma_mod_bound(b, d);
    let qa = a / d;
    let qb = b / d;
    assert(0 <= qb) by (nonlinear_arith)
        requires
            b == d * qb + b % d,
            0 <= b % d < d,
            b >= 0,
            d > 0,
    ;
    assert(qb <= qa) by (nonlinear_arith)
        requires
            a == d * qa + a % d,
            b == d * qb + b % d,
            0 <= a % d < d,
            0 <= b % d < d,
            b <= a,
            d > 0,
    ;
    assert(qa <= extent) by (nonlinear_arith)
        requires
            a == d * qa + a % d,
            0 <= a % d,
            a <= 2 * e,
            e == extent * den,
            d == 2 * den,
            den > 0,
    ;
    assert(-(den as int) < (qa - qb) * den - t < den) by (nonlinear_arith)
        requires
            a == d * qa + a % d,
            b == d * qb + b % d,
            0 <= a % d < d,
            0 <= b % d < d,
            a - b == 2 * t,
            d == 2 * den,
            den > 0,
    ;
}

/// Computes `inset_span` for the bounds of a rectangle on one axis.
fn inset_bounds(min: u32, max: u32, extent: u32, ppm: u32) -> (span: (u32, u32))
    requires
        min <= max,
    ensures
        (span.0 as nat, span.1 as nat) == inset_span(
            min as nat,
            max as nat,
            inset_of(extent as nat, ppm as nat),
        ),
        min <= span.0 <= span.1 <= max,
{
    assert(extent * ppm <= 0xffff_ffff * 0xffff_ffff) by (nonlinear_arith)
        requires
            0 <= extent <= 0xffff_ffff,
            0 <= ppm <= 0xffff_ffff,
    ;
    let inset: u64 = (extent as u64) * (ppm as u64) / INSET_DIVISOR;
    let room: u64 = (max - min) as u64;
    if 2 * inset <= room {
        (min + inset as u32, max - inset as u32)
    } else {
        let mid: u32 = min + (max - min) / 2;
        (mid, mid)
    }
}

/// Computes `centred_span`.
fn centre_span(min: u32, extent: u32, other: u32, num: u32, den: u32) -> (span: (u32, u32))
    requires
        den > 0,
        other * num <= extent * den,
        min + extent <= u32::MAX,
    ensures
        (span.0 as nat, span.1 as nat) == centred_span(
            min as nat,
            extent as nat,
            other as nat,
            num as nat,
            den as nat,
        ),
{
    proof {
        lemma_centred_span(min as nat, extent as nat, other as nat, num as nat, den as nat);
        assert(extent * den <= 0xffff_ffff * 0xffff_ffff) by (nonlinear_arith)
            requires
                0 <= extent <= 0xffff_ffff,
                0 <= den <= 0xffff_ffff,
        ;
        assert(other * num >= 0) by (nonlinear_arith)
            requires
                other >= 0,
                num >= 0,
        ;
    }
    let e: u128 = (extent as u128) * (den as u128);
    let t: u128 = (other as u128) * (num as u128);
    let d: u128 = 2 * (den as u128);
    let lo: u128 = (e - t) / d;
    let hi: u128 = (e + t) / d;
    (min + lo as u32, min + hi as u32)
}

/// Derives the crop rectangle from the located frame.
///
/// `crop_ppm` is the extra inset in parts per million of the dimensions of
/// `scan`, half of it taken from each side. A frame too wide for
/// `aspect_ratio` keeps its height less the inset and gets the width that
/// the ratio asks for, centred; a frame too tall keeps its width less the
/// inset and gets the matching height; a frame of the right ratio is drawn in
/// on both axes.
///
/// The result is well-formed and lies inside `bounds`. On the axis that was
/// cut its extent is within one pixel of what the ratio asks for, and a frame
/// of the right ratio with no inset comes back unchanged.
#[verifier::rlimit(50)]
pub fn determine_crop_inset_bounds(
    scan: &Raster,
    bounds: Rectangle,
    aspect_ratio: AspectRatio,
    crop_ppm: u32,
) -> (out: Rectangle)
    requires
        bounds.wf(),
        aspect_ratio.wf(),
    ensures
        out == crop_bounds(
            scan@.width,
            scan@.height,
            bounds,
            aspect_ratio,
            crop_ppm as nat,
        ),
        out.wf(),
        out.within(bounds),
        bounds.spec_width() * aspect_ratio.height > bounds.spec_height() * aspect_ratio.width
            ==> -(aspect_ratio.height as int) < out.spec_width() * aspect_ratio.height
            - out.spec_height() * aspect_ratio.width < aspect_ratio.height,
        bounds.spec_width() * aspect_ratio.height < bounds.spec_height() * aspect_ratio.width
            ==> -(aspect_ratio.width as int) < out.spec_height() * aspect_ratio.width
            - out.spec_width() * aspect_ratio.height < aspect_ratio.width,
        bounds.spec_width() * aspect_ratio.height == bounds.spec_height() * aspect_ratio.width
            && inset_of(scan@.width, crop_ppm as nat) == 0 && inset_of(
            scan@.height,
            crop_ppm as nat,
        ) == 0 ==> out == bounds,
{
    let w: u32 = bounds.width();
    let h: u32 = bounds.height();
    let across = inset_bounds(bounds.min_x, bounds.max_x, scan.width(), crop_ppm);
    let down = inset_bounds(bounds.min_y, bounds.max_y, scan.height(), crop_ppm);
    proof {
        assert(w * aspect_ratio.height <= 0xffff_ffff * 0xffff_ffff) by (nonlinear_arith)
            requires
                0 <= w <= 0xffff_ffff,
                0 <= aspect_ratio.height <= 0xffff_ffff,
        ;
        assert(h * aspect_ratio.width <= 0xffff_ffff * 0xffff_ffff) by (nonlinear_arith)
            requires
                0 <= h <= 0xffff_ffff,
                0 <= aspect_ratio.width <= 0xffff_ffff,
        ;
    }
    let wide: u64 = (w as u64) * (aspect_ratio.height as u64);
    let tall: u64 = (h as u64) * (aspect_ratio.width as u64);
    if wide > tall {
        let kept: u32 = down.1 - down.0;
        proof {
            assert(kept * aspect_ratio.width <= h * aspect_ratio.width) by (nonlinear_arith)
                requires
                    0 <= kept <= h,
                    aspect_ratio.width >= 0,
            ;
            lemma_centred_span(
                bounds.min_x as nat,
                w as nat,
                kept as nat,
                aspect_ratio.width as nat,
                aspect_ratio.height as nat,
            );
        }
        let cut = centre_span(bounds.min_x, w, kept, aspect_ratio.width, aspect_ratio.height);
        Rectangle { min_x: cut.0, min_y: down.0, max_x: cut.1, max_y: down.1 }
    } else if wide < tall {
        let kept: u32 = across.1 - across.0;
        proof {
            assert(aspect_ratio.width > 0) by (nonlinear_arith)
                requires
                    w * aspect_ratio.height < h * aspect_ratio.width,
                    w >= 0,
                    aspect_ratio.height >= 0,
                    aspect_ratio.width >= 0,
            ;
            assert(kept * aspect_ratio.height <= w * aspect_ratio.height) by (nonlinear_arith)
                requires
                    0 <= kept <= w,
                    aspect_ratio.height >= 0,
            ;
            lemma_centred_span(
                bounds.min_y as nat,
                h as nat,
                kept as nat,
                aspect_ratio.height as nat,
                aspect_ratio.width as nat,
            );
        }
        let cut = centre_span(bounds.min_y, h, kept, aspect_ratio.height, aspect_ratio.width);
        Rectangle { min_x: across.0, min_y: cut.0, max_x: across.1, max_y: cut.1 }
    } else {
        Rectangle { min_x: across.0, min_y: down.0, max_x: across.1, max_y: down.1 }
    }
}

/// The values that one channel of a colour grid has at the sample
/// positions.
pub open spec fn sampled_channel(src: Grid<u16>, samples: Seq<(u32, u32)>, channel: nat) -> Seq<
    u16,
> {
    samples.map_values(
        |p: (u32, u32)|
            src.samples[sample_index(src.width, p.0 as nat, p.1 as nat, channel) as int],
    )
}

/// The reference colour of the film backing: per channel the root mean
/// square of the values at the sample positions.
pub open spec fn reference_color(src: Grid<u16>, samples: Seq<(u32, u32)>) -> Color {
    Color {
        r: rms_of(sampled_channel(src, samples, 0)) as u16,
        g: rms_of(sampled_channel(src, samples, 1)) as u16,
        b: rms_of(sampled_channel(src, samples, 2)) as u16,
    }
}

/// Where every sample lies on one colour, that colour is the reference
/// colour: samples taken from a uniform film backing recover its colour.
pub proof fn lemma_reference_of_uniform_backing(
    src: Grid<u16>,
    samples: Seq<(u32, u32)>,
    backing: Color,
)
    requires
        samples.len() > 0,
        forall|k: int, c: nat|
            0 <= k < samples.len() && c < 3 ==> #[trigger] src.samples[sample_index(
                src.width,
                samples[k].0 as nat,
                samples[k].1 as nat,
                c,
            ) as int] == backing.channel(c as int),
    ensures
        reference_color(src, samples) == backing,
{
    lemma_rms_of_equal_values(sampled_channel(src, samples, 0), backing.r);
    lemma_rms_of_equal_values(sampled_channel(src, samples, 1), backing.g);
    lemma_rms_of_equal_values(sampled_channel(src, samples, 2), backing.b);
}

/// The calibrated positive of a scan: the pixels inside `crop`, white
/// balanced against the backing sampled at `samples` and inverted; or the
/// failure of a crop that covers no pixel.
pub open spec fn calibrated(src: Grid<u16>, samples: Seq<(u32, u32)>, crop: Rectangle) -> Result<
    Grid<u16>,
    GeometryError,
> {
    let cut = cropped(
        src,
        crop.min_x as nat,
        crop.min_y as nat,
        crop.spec_width(),
        crop.spec_height(),
    );
    if cut.width == 0 || cut.height == 0 {
        Err(GeometryError::EmptyCrop)
    } else {
        Ok(
            Grid {
                width: cut.width,
                height: cut.height,
                samples: inverted_samples(
                    balanced_samples(cut.samples, reference_color(src, samples)),
                ),
            },
        )
    }
}

/// Reads the scan at the samples of the border and returns the reference
/// colour of the film backing.
#[verifier::rlimit(50)]
pub fn sample_reference(scan: &Raster, border: &Border) -> (color: Color)
    requires
        scan.wf(),
        border.fits(scan@),
    ensures
        color == reference_color(scan@, border.samples@),
{
    let mut red: Vec<u16> = Vec::new();
    let mut green: Vec<u16> = Vec::new();
    let mut blue: Vec<u16> = Vec::new();
    let n = border.samples.len();
    let mut i: usize = 0;
    while i < n
        invariant
            scan.wf(),
            border.fits(scan@),
            i <= n,
            n == border.samples@.len(),
            red@ == sampled_channel(scan@, border.samples@.take(i as int), 0),
            green@ == sampled_channel(scan@, border.samples@.take(i as int), 1),
            blue@ == sampled_channel(scan@, border.samples@.take(i as int), 2),
        decreases n - i,
    {
        let p = border.samples[i];
        let c = scan.pixel(p.0, p.1);
        proof {
            let next = border.samples@.take(i + 1);
            let prev = border.samples@.take(i as int);
            assert(next =~= prev.push(p));
            assert(sampled_channel(scan@, next, 0) =~= sampled_channel(scan@, prev, 0).push(
                c.r,
            ));
            assert(sampled_channel(scan@, next, 1) =~= sampled_channel(scan@, prev, 1).push(
                c.g,
            ));
            assert(sampled_channel(scan@, next, 2) =~= sampled_channel(scan@, prev, 2).push(
                c.b,
            ));
        }
        red.push(c.r);
        green.push(c.g);
        blue.push(c.b);
        i += 1;
    }
    proof {
        assert(border.samples@.take(n as int) =~= border.samples@);
    }
    Color { r: rms(red), g: rms(green), b: rms(blue) }
}

/// Turns the scan into a calibrated positive of the frame: samples the film
/// backing at the border's samples, cuts out `crop_rect`, balances the cut
/// against the backing and inverts it.
///
/// Fails with `EmptyCrop` when `crop_rect`, clipped to the scan, covers no
/// pixel.
pub fn calibrate_and_crop(scan: &Raster, border: &Border, crop_rect: Rectangle) -> (r: Result<
    Raster,
    GeometryError,
>)
    requires
        scan.wf(),
        border.fits(scan@),
    ensures
        match r {
            Ok(out) => out.wf() && calibrated(scan@, border.samples@, crop_rect) == Ok::<
                Grid<u16>,
                GeometryError,
            >(out@),
            Err(e) => calibrated(scan@, border.samples@, crop_rect) == Err::<
                Grid<u16>,
                GeometryError,
            >(e),
        },
{
    let reference = sample_reference(scan, border);
    let mut out = scan.crop(
        crop_rect.min_x,
        crop_rect.min_y,
        crop_rect.width(),
        crop_rect.height(),
    );
    if out.width() == 0 || out.height() == 0 {
        return Err(GeometryError::EmptyCrop);
    }
    white_balance(&mut out, reference);
    invert_mut(&mut out);
    Ok(out)
}

/// The positive that a whole conversion makes of a scan, or the failure of
/// the stage that could not go on.
pub open spec fn converted(src: Grid<u16>, aspect: AspectRatio, ppm: nat) -> Result<
    Grid<u16>,
    ConvertError,
> {
    match located_border(src) {
        Err(e) => Err(ConvertError::Geometry(e)),
        Ok(found) => match calibrated(
            src,
            found.1,
            crop_bounds(src.width, src.height, found.0, aspect, ppm),
        ) {
            Err(e) => Err(ConvertError::Geometry(e)),
            Ok(positive) => match tone_stretched(positive.samples) {
                Err(e) => Err(ConvertError::ToneMap(e)),
                Ok(samples) => Ok(
                    Grid { width: positive.width, height: positive.height, samples },
                ),
            },
        },
    }
}

/// A colour grid with a pixel has samples.
proof fn lemma_has_samples(grid: Grid<u16>)
    requires
        grid.width > 0,
        grid.height > 0,
        grid.samples.len() == 3 * grid.width * grid.height,
    ensures
        grid.samples.len() > 0,
{
    assert(3 * grid.width * grid.height > 0) by (nonlinear_arith)
        requires
            grid.width > 0,
            grid.height > 0,
    ;
}

/// Converts the scan of a negative into a positive: locates the frame,
/// derives the crop for `aspect_ratio` with an extra inset of `crop_ppm`
/// parts per million of the scan's dimensions, calibrates and inverts the
/// crop, and stretches its tones.
///
/// Fails with a geometry error where the frame or the film backing cannot
/// be found or the crop covers no pixel, and with a tone-map error where a
/// channel of the calibrated crop has its black point and its white point
/// at one value. Every channel of a positive takes both 0 and the greatest
/// value.
pub fn convert(scan: &Raster, aspect_ratio: AspectRatio, crop_ppm: u32) -> (r: Result<
    Raster,
    ConvertError,
>)
    requires
        scan.wf(),
        aspect_ratio.wf(),
    ensures
        match r {
            Ok(out) => out.wf() && converted(scan@, aspect_ratio, crop_ppm as nat) == Ok::<
                Grid<u16>,
                ConvertError,
            >(out@),
            Err(e) => converted(scan@, aspect_ratio, crop_ppm as nat) == Err::<
                Grid<u16>,
                ConvertError,
            >(e),
        },
        r matches Ok(out) ==> spans_full_range(out@.samples),
{
    let border = match locate_border(scan) {
        Err(e) => {
            return Err(ConvertError::Geometry(e));
        },
        Ok(b) => b,
    };
    let crop_rect = determine_crop_inset_bounds(scan, border.bounds, aspect_ratio, crop_ppm);
    let mut output = match calibrate_and_crop(scan, &border, crop_rect) {
        Err(e) => {
            return Err(ConvertError::Geometry(e));
        },
        Ok(o) => o,
    };
    proof {
        lemma_has_samples(output@);
    }
    match stretch_channels_mut(&mut output) {
        Err(e) => Err(ConvertError::ToneMap(e)),
        Ok(_) => Ok(output),
    }
}

/// What a conversion passed through, kept for diagnostics. Each part is
/// there from the stage that made it on; a conversion that failed leaves the
/// later parts out.
#[derive(Debug)]
pub struct Trace {
    /// The analysis rasters; missing for a scan without pixels.
    pub analysis: Option<Analysis>,
    /// The located frame and the samples of the film backing.
    pub border: Option<Border>,
    /// The crop rectangle derived from the frame.
    pub crop: Option<Rectangle>,
    /// The calibrated, inverted crop before its tones are stretched.
    pub inverted: Option<Raster>,
}

/// Converts as `convert` does and hands back, beside the result, what the
/// conversion passed through.
pub fn convert_traced(scan: &Raster, aspect_ratio: AspectRatio, crop_ppm: u32) -> (out: (
    Result<Raster, ConvertError>,
    Trace,
))
    requires
        scan.wf(),
        aspect_ratio.wf(),
    ensures
        match out.0 {
            Ok(positive) => positive.wf() && converted(scan@, aspect_ratio, crop_ppm as nat)
                == Ok::<Grid<u16>, ConvertError>(positive@),
            Err(e) => converted(scan@, aspect_ratio, crop_ppm as nat) == Err::<
                Grid<u16>,
                ConvertError,
            >(e),
        },
        out.0 matches Ok(positive) ==> spans_full_range(positive@.samples),
        match out.1.analysis {
            Some(analysis) => analysis.describes(scan@),
            None => scan@.width == 0 || scan@.height == 0,
        },
        match out.1.border {
            Some(border) => border.bounds.wf() && border.fits(scan@) && located_border(scan@)
                == Ok::<(Rectangle, Seq<(u32, u32)>), GeometryError>(
                (border.bounds, border.samples@),
            ),
            None => located_border(scan@) is Err,
        },
        match out.1.crop {
            Some(crop) => {
                &&& located_border(scan@) is Ok
                &&& crop == crop_bounds(
                    scan@.width,
                    scan@.height,
                    located_border(scan@)->Ok_0.0,
                    aspect_ratio,
                    crop_ppm as nat,
                )
            },
            None => located_border(scan@) is Err,
        },
        match out.1.inverted {
            Some(inverted) => {
                &&& inverted.wf()
                &&& located_border(scan@) is Ok
                &&& calibrated(
                    scan@,
                    located_border(scan@)->Ok_0.1,
                    crop_bounds(
                        scan@.width,
                        scan@.height,
                        located_border(scan@)->Ok_0.0,
                        aspect_ratio,
                        crop_ppm as nat,
                    ),
                ) == Ok::<Grid<u16>, GeometryError>(inverted@)
            },
            None => converted(scan@, aspect_ratio, crop_ppm as nat) matches Err(
                ConvertError::Geometry(_),
            ),
        },
{
    let analysis = match prepare_analysis(scan) {
        None => {
            return (
                Err(ConvertError::Geometry(GeometryError::NoContour)),
                Trace { analysis: None, border: None, crop: None, inverted: None },
            );
        },
        Some(a) => a,
    };
    let border = match locate_border_in(scan, &analysis) {
        Err(e) => {
            return (
                Err(ConvertError::Geometry(e)),
                Trace { analysis: Some(analysis), border: None, crop: None, inverted: None },
            );
        },
        Ok(b) => b,
    };
    let crop_rect = determine_crop_inset_bounds(scan, border.bounds, aspect_ratio, crop_ppm);
    let mut output = match calibrate_and_crop(scan, &border, crop_rect) {
        Err(e) => {
            return (
                Err(ConvertError::Geometry(e)),
                Trace {
                    analysis: Some(analysis),
                    border: Some(border),
                    crop: Some(crop_rect),
                    inverted: None,
                },
            );
        },
        Ok(o) => o,
    };
    proof {
        lemma_has_samples(output@);
    }
    let inverted = output.duplicate();
    let trace = Trace {
        analysis: Some(analysis),
        border: Some(border),
        crop: Some(crop_rect),
        inverted: Some(inverted),
    };
    match stretch_channels_mut(&mut output) {
        Err(e) => (Err(ConvertError::ToneMap(e)), trace),
        Ok(_) => (Ok(output), trace),
    }
}

} // verus!
