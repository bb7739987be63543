//! Histograms of rasters and the tonal corrections derived from them.

use crate::error::ToneMapError;
use crate::raster::{Color, GrayRaster, Raster, MAX_SAMPLE};
use vstd::prelude::*;

verus! {

/// Number of samples of `s` with a value of at most `v`.
pub open spec fn count_at_most(s: Seq<u8>, v: int) -> nat
    decreases s.len(),
{
    if s.len() == 0 {
        0
    } else {
        count_at_most(s.drop_last(), v) + if s.last() <= v {
            1nat
        } else {
            0nat
        }
    }
}

/// Number of samples of `s` with the value `v`.
pub open spec fn count_equal(s: Seq<u8>, v: int) -> nat
    decreases s.len(),
{
    if s.len() == 0 {
        0
    } else {
        count_equal(s.drop_last(), v) + if s.last() == v {
            1nat
        } else {
            0nat
        }
    }
}

/// The counts of `count_at_most` add up from those of `count_equal`, start at
/// nothing below 0, never exceed the length and reach it at 255.
pub proof fn lemma_count_at_most(s: Seq<u8>, v: int)
    ensures
        count_at_most(s, v) == count_at_most(s, v - 1) + count_equal(s, v),
        count_at_most(s, v) <= s.len(),
        count_equal(s, v) <= s.len(),
        v < 0 ==> count_at_most(s, v) == 0,
        v >= 255 ==> count_at_most(s, v) == s.len(),
    decreases s.len(),
{
    if s.len() > 0 {
        lemma_count_at_most(s.drop_last(), v);
    }
}

/// The level that normalisation gives to a value, from the number `below` of
/// samples that are at most that value, the number `darkest` of samples that
/// are 0 and the number `total` of samples: `below` rescaled so that `darkest`
/// maps to 0 and `total` to 255. Where every sample is 0 the level is 0.
pub open spec fn normalized_level(below: nat, darkest: nat, total: nat) -> int {
    if total <= darkest || below < darkest {
        0
    } else {
        255 * (below - darkest) / (total - darkest)
    }
}

/// The samples of a gray grid after histogram normalisation.
pub open spec fn normalized(s: Seq<u8>) -> Seq<u8> {
    Seq::new(
        s.len(),
        |i: int|
            normalized_level(count_at_most(s, s[i] as int), count_at_most(s, 0), s.len()) as u8,
    )
}

/// A normalised level is a gray value.
pub proof fn lemma_normalized_level_range(below: nat, darkest: nat, total: nat)
    requires
        below <= total,
    ensures
        0 <= normalized_level(below, darkest, total) <= 255,
{
    if !(total <= darkest || below < darkest) {
        let x = (below - darkest) as int;
        let y = (total - darkest) as int;
        assert(0 <= 255 * x / y <= 255) by (nonlinear_arith)
            requires
                0 <= x <= y,
                y > 0,
        ;
    }
}

/// Normalisation keeps pure black and pure white: 0 stays 0, and 255 stays 255
/// unless every sample is 0.
pub proof fn lemma_normalized_fixed_points(s: Seq<u8>, i: int)
    requires
        0 <= i < s.len(),
    ensures
        s[i] == 0 ==> normalized(s)[i] == 0,
        s[i] == 255 && count_at_most(s, 0) < s.len() ==> normalized(s)[i] == 255,
{
    lemma_count_at_most(s, 255);
    lemma_count_at_most(s, 0);
    let darkest = count_at_most(s, 0);
    if s[i] == 0 {
        if darkest < s.len() {
            let y = (s.len() - darkest) as int;
            assert(255 * 0int / y == 0) by (nonlinear_arith)
                requires
                    y > 0,
            ;
        }
    } else if s[i] == 255 && darkest < s.len() {
        let y = (s.len() - darkest) as int;
        assert(255 * y / y == 255) by (nonlinear_arith)
            requires
                y > 0,
        ;
    }
}

/// Counts how often each of the 256 gray values occurs in `data`.
fn gray_counts(data: &Vec<u8>) -> (counts: Vec<usize>)
    ensures
        counts@.len() == 256,
        forall|v: int| 0 <= v < 256 ==> #[trigger] counts@[v] == count_equal(data@, v),
{
    let mut counts: Vec<usize> = Vec::new();
    let mut v: usize = 0;
    while v < 256
        invariant
            v <= 256,
            counts@.len() == v,
            forall|u: int| 0 <= u < v ==> #[trigger] counts@[u] == 0,
        decreases 256 - v,
    {
        counts.push(0);
        v += 1;
    }
    let mut i: usize = 0;
    while i < data.len()
        invariant
            i <= data@.len(),
            counts@.len() == 256,
            forall|u: int|
                0 <= u < 256 ==> #[trigger] counts@[u] == count_equal(data@.take(i as int), u),
        decreases data@.len() - i,
    {
        let value = data[i] as usize;
        proof {
            assert(data@.take(i + 1).drop_last() =~= data@.take(i as int));
            lemma_count_at_most(data@.take(i + 1), value as int);
        }
        counts[value] = counts[value] + 1;
        i += 1;
    }
    proof {
        assert(data@.take(data@.len() as int) =~= data@);
    }
    counts
}

/// For each of the 256 gray values, counts the samples of `data` that are at
/// most that value.
pub fn cumulative_gray_counts(data: &Vec<u8>) -> (below: Vec<usize>)
    ensures
        below@.len() == 256,
        forall|v: int| 0 <= v < 256 ==> #[trigger] below@[v] == count_at_most(data@, v),
{
    let counts = gray_counts(data);
    let mut below: Vec<usize> = Vec::new();
    let mut sum: usize = 0;
    let mut v: usize = 0;
    let total: usize = data.len();
    proof {
        lemma_count_at_most(data@, -1);
    }
    while v < 256
        invariant
            v <= 256,
            data@.len() == total,
            counts@.len() == 256,
            forall|u: int| 0 <= u < 256 ==> #[trigger] counts@[u] == count_equal(data@, u),
            below@.len() == v,
            sum == count_at_most(data@, v - 1),
            forall|u: int| 0 <= u < v ==> #[trigger] below@[u] == count_at_most(data@, u),
        decreases 256 - v,
    {
        proof {
            lemma_count_at_most(data@, v as int);
        }
        sum = sum + counts[v];
        below.push(sum);
        v += 1;
    }
    below
}

/// Computes `normalized_level`.
fn level_of(below: usize, darkest: usize, total: usize) -> (level: u8)
    requires
        below <= total,
    ensures
        level == normalized_level(below as nat, darkest as nat, total as nat),
{
    proof {
        lemma_normalized_level_range(below as nat, darkest as nat, total as nat);
    }
    if total <= darkest || below < darkest {
        0
    } else {
        let x: u128 = (below - darkest) as u128;
        let y: u128 = (total - darkest) as u128;
        (255 * x / y) as u8
    }
}

/// Spreads the gray values of `image` over the whole range by their
/// cumulative counts, keeping pure black and pure white where they are.
#[verifier::rlimit(50)]
pub fn normalize_histogram_mut(image: &mut GrayRaster)
    requires
        old(image).wf(),
    ensures
        final(image).wf(),
        final(image)@.width == old(image)@.width,
        final(image)@.height == old(image)@.height,
        final(image)@.samples == normalized(old(image)@.samples),
{
    let ghost before = image.data@;
    let below = cumulative_gray_counts(&image.data);
    let total = image.data.len();
    let darkest = below[0];
    let mut levels: Vec<u8> = Vec::new();
    let mut v: usize = 0;
    while v < 256
        invariant
            v <= 256,
            below@.len() == 256,
            total == before.len(),
            darkest == count_at_most(before, 0),
            forall|u: int| 0 <= u < 256 ==> #[trigger] below@[u] == count_at_most(before, u),
            levels@.len() == v,
            forall|u: int|
                0 <= u < v ==> #[trigger] levels@[u] == normalized_level(
                    count_at_most(before, u),
                    count_at_most(before, 0),
                    before.len(),
                ),
        decreases 256 - v,
    {
        proof {
            lemma_count_at_most(before, v as int);
        }
        levels.push(level_of(below[v], darkest, total));
        v += 1;
    }
    let mut i: usize = 0;
    while i < image.data.len()
        invariant
            i <= before.len(),
            image.data@.len() == before.len(),
            image.width == old(image).width,
            image.height == old(image).height,
            levels@.len() == 256,
            forall|u: int|
                0 <= u < 256 ==> #[trigger] levels@[u] == normalized_level(
                    count_at_most(before, u),
                    count_at_most(before, 0),
                    before.len(),
                ),
            forall|j: int| 0 <= j < i ==> #[trigger] image.data@[j] == normalized(before)[j],
            forall|j: int| i <= j < before.len() ==> #[trigger] image.data@[j] == before[j],
        decreases before.len() - i,
    {
        let value = image.data[i] as usize;
        image.data[i] = levels[value];
        i += 1;
    }
    proof {
        assert(image.data@ =~= normalized(before));
    }
}

/// The bin that the value `v` falls into when the range of 16-bit values is
/// spread evenly over `bins` bins.
pub open spec fn bin_of(v: u16, bins: nat) -> int {
    v as int * (bins - 1) / 65535
}

/// Number of samples among the first `n` that belong to `channel` and fall
/// into `bin`.
pub open spec fn bin_count(samples: Seq<u16>, channel: int, bins: nat, bin: int, n: int) -> nat
    decreases n,
{
    if n <= 0 {
        0
    } else {
        bin_count(samples, channel, bins, bin, n - 1) + if (n - 1) % 3 == channel && bin_of(
            samples[n - 1],
            bins,
        ) == bin {
            1nat
        } else {
            0nat
        }
    }
}

/// The histogram of one channel of a colour grid over `bins` bins.
pub open spec fn channel_histogram(samples: Seq<u16>, channel: int, bins: nat) -> Seq<nat> {
    Seq::new(bins, |bin: int| bin_count(samples, channel, bins, bin, samples.len() as int))
}

/// A value falls into one of the bins.
pub proof fn lemma_bin_of_range(v: u16, bins: nat)
    requires
        bins >= 1,
    ensures
        0 <= bin_of(v, bins) < bins,
{
    let b = (bins - 1) as int;
    let x = v as int;
    assert(0 <= x * b / 65535 <= b) by (nonlinear_arith)
        requires
            0 <= x <= 65535,
            b >= 0,
    ;
}

/// No bin holds more samples than were counted.
pub proof fn lemma_bin_count_bound(samples: Seq<u16>, channel: int, bins: nat, bin: int, n: int)
    requires
        n >= 0,
    ensures
        bin_count(samples, channel, bins, bin, n) <= n,
    decreases n,
{
    if n > 0 {
        lemma_bin_count_bound(samples, channel, bins, bin, n - 1);
    }
}

/// Returns a vector of `len` zeros.
fn zeros(len: usize) -> (v: Vec<usize>)
    ensures
        v@.len() == len,
        forall|i: int| 0 <= i < len ==> #[trigger] v@[i] == 0,
{
    let mut v: Vec<usize> = Vec::new();
    let mut i: usize = 0;
    while i < len
        invariant
            i <= len,
            v@.len() == i,
            forall|j: int| 0 <= j < i ==> #[trigger] v@[j] == 0,
        decreases len - i,
    {
        v.push(0);
        i += 1;
    }
    v
}

/// Computes `bin_of`.
fn bin_index(v: u16, bins: usize) -> (bin: usize)
    requires
        bins >= 1,
    ensures
        bin == bin_of(v, bins as nat),
        bin < bins,
{
    proof {
        lemma_bin_of_range(v, bins as nat);
        assert(v * (bins - 1) <= 65535 * 0xffff_ffff_ffff_ffff) by (nonlinear_arith)
            requires
                0 <= v <= 65535,
                0 <= bins - 1 <= 0xffff_ffff_ffff_ffff,
        ;
    }
    ((v as u128) * ((bins - 1) as u128) / 65535) as usize
}

/// Adds one to the count of `bin`.
fn tally(counts: &mut Vec<usize>, bin: usize)
    requires
        bin < old(counts)@.len(),
        old(counts)@[bin as int] < usize::MAX,
    ensures
        final(counts)@ == old(counts)@.update(bin as int, (old(counts)@[bin as int] + 1) as usize),
{
    let count = counts[bin];
    counts[bin] = count + 1;
}

/// The counts of one channel after sample `i` has been counted, where `now`
/// holds them before: only a sample of that channel changes them, and only in
/// its own bin.
proof fn lemma_tally(
    samples: Seq<u16>,
    channel: int,
    bins: nat,
    i: int,
    before: Seq<usize>,
    after: Seq<usize>,
)
    requires
        0 <= i < samples.len(),
        bins >= 1,
        before.len() == bins,
        forall|b: int|
            0 <= b < bins ==> #[trigger] before[b] == bin_count(samples, channel, bins, b, i),
        i % 3 == channel ==> after == before.update(
            bin_of(samples[i], bins),
            (before[bin_of(samples[i], bins)] + 1) as usize,
        ) && before[bin_of(samples[i], bins)] < usize::MAX,
        i % 3 != channel ==> after == before,
    ensures
        after.len() == bins,
        forall|b: int|
            0 <= b < bins ==> #[trigger] after[b] == bin_count(samples, channel, bins, b, i + 1),
{
    lemma_bin_of_range(samples[i], bins);
    assert forall|b: int| 0 <= b < bins implies #[trigger] after[b] == bin_count(
        samples,
        channel,
        bins,
        b,
        i + 1,
    ) by {
        assert(before[b] == bin_count(samples, channel, bins, b, i));
    }
}

/// Counts, for each of the three channels, how many samples fall into each of
/// `bins` evenly spread bins. The result holds one histogram per channel.
#[verifier::rlimit(50)]
pub fn histogram_rgb(image: &Raster, bins: usize) -> (hist: Vec<Vec<usize>>)
    requires
        image.wf(),
        bins >= 1,
    ensures
        hist@.len() == 3,
        forall|c: int|
            0 <= c < 3 ==> counts_of((#[trigger] hist@[c])@) == channel_histogram(
                image@.samples,
                c,
                bins as nat,
            ),
        forall|c: int|
            0 <= c < 3 ==> total_count(counts_of((#[trigger] hist@[c])@)) <= image@.samples.len()
                <= usize::MAX,
{
    let mut red = zeros(bins);
    let mut green = zeros(bins);
    let mut blue = zeros(bins);
    let n = image.data.len();
    let ghost samples = image.data@;
    let mut i: usize = 0;
    let mut channel: usize = 0;
    while i < n
        invariant
            i <= n,
            n == samples.len(),
            samples == image.data@,
            bins >= 1,
            channel == i % 3,
            red@.len() == bins,
            green@.len() == bins,
            blue@.len() == bins,
            forall|b: int|
                0 <= b < bins ==> #[trigger] red@[b] == bin_count(
                    samples,
                    0,
                    bins as nat,
                    b,
                    i as int,
                ),
            forall|b: int|
                0 <= b < bins ==> #[trigger] green@[b] == bin_count(
                    samples,
                    1,
                    bins as nat,
                    b,
                    i as int,
                ),
            forall|b: int|
                0 <= b < bins ==> #[trigger] blue@[b] == bin_count(
                    samples,
                    2,
                    bins as nat,
                    b,
                    i as int,
                ),
        decreases n - i,
    {
        let bin = bin_index(image.data[i], bins);
        let ghost old_red = red@;
        let ghost old_green = green@;
        let ghost old_blue = blue@;
        proof {
            lemma_bin_count_bound(samples, 0, bins as nat, bin as int, i as int);
            lemma_bin_count_bound(samples, 1, bins as nat, bin as int, i as int);
            lemma_bin_count_bound(samples, 2, bins as nat, bin as int, i as int);
        }
        if channel == 0 {
            tally(&mut red, bin);
        } else if channel == 1 {
            tally(&mut green, bin);
        } else {
            tally(&mut blue, bin);
        }
        proof {
            lemma_tally(samples, 0, bins as nat, i as int, old_red, red@);
            lemma_tally(samples, 1, bins as nat, i as int, old_green, green@);
            lemma_tally(samples, 2, bins as nat, i as int, old_blue, blue@);
        }
        i += 1;
        channel = if channel == 2 {
            0
        } else {
            channel + 1
        };
    }
    proof {
        assert(counts_of(red@) =~= partial_histogram(samples, 0, bins as nat, n as int));
        assert(counts_of(green@) =~= partial_histogram(samples, 1, bins as nat, n as int));
        assert(counts_of(blue@) =~= partial_histogram(samples, 2, bins as nat, n as int));
        assert(counts_of(red@) =~= channel_histogram(samples, 0, bins as nat));
        assert(counts_of(green@) =~= channel_histogram(samples, 1, bins as nat));
        assert(counts_of(blue@) =~= channel_histogram(samples, 2, bins as nat));
        lemma_histogram_total(samples, 0, bins as nat, n as int);
        lemma_histogram_total(samples, 1, bins as nat, n as int);
        lemma_histogram_total(samples, 2, bins as nat, n as int);
    }
    let mut hist: Vec<Vec<usize>> = Vec::new();
    hist.push(red);
    hist.push(green);
    hist.push(blue);
    hist
}

/// Shares of the pixel count are given in parts per million.
pub const MILLION: u32 = 1_000_000;

/// The scan for a cutoff ends behind the bucket with which this share of the
/// pixels, in parts per million, has been passed.
pub const HARD_CUTOFF_PPM: u32 = 5000;

/// Share of the pixels that the refined black and white points may clip.
pub const MAX_PIXELS_PPM: u32 = 100;

/// Rise of a bucket over the one before it, as a share of the pixels, that
/// marks a cliff of the histogram.
pub const MAX_PIXELS_DIFF_PPM: u32 = 50;

/// Number of bins of the full-resolution histogram: one per value.
pub const FULL_BINS: usize = 65536;

/// Number of bins of the coarse histogram.
pub const COARSE_BINS: usize = 256;

/// The counts of a histogram.
pub open spec fn counts_of(hist: Seq<usize>) -> Seq<nat> {
    hist.map_values(|n: usize| n as nat)
}

/// A histogram in the order in which it is scanned: from its upper end where
/// `reverse` is set, from its lower end otherwise.
pub open spec fn scan_order(hist: Seq<nat>, reverse: bool) -> Seq<nat> {
    if reverse {
        hist.reverse()
    } else {
        hist
    }
}

/// Sum of the first `n` counts.
pub open spec fn prefix_sum(s: Seq<nat>, n: int) -> nat
    decreases n,
{
    if n <= 0 {
        0
    } else {
        prefix_sum(s, n - 1) + s[n - 1]
    }
}

/// Sum of all counts.
pub open spec fn total_count(s: Seq<nat>) -> nat {
    prefix_sum(s, s.len() as int)
}

/// Count of the nearest non-empty bucket before bucket `i`, 0 where there is
/// none.
pub open spec fn previous_count(s: Seq<nat>, i: int) -> nat
    decreases i,
{
    if i <= 0 {
        0
    } else if s[i - 1] > 0 {
        s[i - 1]
    } else {
        previous_count(s, i - 1)
    }
}

/// The scan reaches bucket `i`: the bucket is not empty, and the buckets
/// before it hold no more than the hard ceiling's share of `total`. The
/// bucket that passes the ceiling is itself still reached; the scan ends
/// behind it.
pub open spec fn reached(s: Seq<nat>, total: nat, i: int) -> bool {
    s[i] > 0 && prefix_sum(s, i) * MILLION <= HARD_CUTOFF_PPM * total
}

/// The scan reaches bucket `i`, and the buckets up to and including it hold
/// more than `ppm` parts per million of `total`.
pub open spec fn exceeds_by_count(s: Seq<nat>, total: nat, ppm: nat, i: int) -> bool {
    reached(s, total, i) && prefix_sum(s, i + 1) * MILLION > ppm * total
}

/// The scan reaches bucket `i`, and its count rises over that of the
/// non-empty bucket before it by more than `ppm` parts per million of
/// `total`.
pub open spec fn exceeds_by_rise(s: Seq<nat>, total: nat, ppm: nat, i: int) -> bool {
    reached(s, total, i) && (s[i] - previous_count(s, i)) * MILLION > ppm * total
}

/// The first bucket below `n` that `exceeds_by_count`.
pub open spec fn first_by_count(s: Seq<nat>, total: nat, ppm: nat, n: int) -> Option<int>
    decreases n,
{
    if n <= 0 {
        None
    } else {
        match first_by_count(s, total, ppm, n - 1) {
            Some(i) => Some(i),
            None => if exceeds_by_count(s, total, ppm, n - 1) {
                Some(n - 1)
            } else {
                None
            },
        }
    }
}

/// The first bucket below `n` that `exceeds_by_rise`.
pub open spec fn first_by_rise(s: Seq<nat>, total: nat, ppm: nat, n: int) -> Option<int>
    decreases n,
{
    if n <= 0 {
        None
    } else {
        match first_by_rise(s, total, ppm, n - 1) {
            Some(i) => Some(i),
            None => if exceeds_by_rise(s, total, ppm, n - 1) {
                Some(n - 1)
            } else {
                None
            },
        }
    }
}

/// `first_by_count` returns the least bucket that qualifies.
pub proof fn lemma_first_by_count(s: Seq<nat>, total: nat, ppm: nat, n: int)
    ensures
        match first_by_count(s, total, ppm, n) {
            Some(i) => 0 <= i < n && exceeds_by_count(s, total, ppm, i) && forall|j: int|
                0 <= j < i ==> !exceeds_by_count(s, total, ppm, j),
            None => forall|j: int| 0 <= j < n ==> !exceeds_by_count(s, total, ppm, j),
        },
    decreases n,
{
    if n > 0 {
        lemma_first_by_count(s, total, ppm, n - 1);
    }
}

/// `first_by_rise` returns the least bucket that qualifies.
pub proof fn lemma_first_by_rise(s: Seq<nat>, total: nat, ppm: nat, n: int)
    ensures
        match first_by_rise(s, total, ppm, n) {
            Some(i) => 0 <= i < n && exceeds_by_rise(s, total, ppm, i) && forall|j: int|
                0 <= j < i ==> !exceeds_by_rise(s, total, ppm, j),
            None => forall|j: int| 0 <= j < n ==> !exceeds_by_rise(s, total, ppm, j),
        },
    decreases n,
{
    if n > 0 {
        lemma_first_by_rise(s, total, ppm, n - 1);
    }
}

/// The bucket, in scan order, at which the cutoff is placed: the later of the
/// first bucket that exceeds by count and the first that exceeds by rise, a
/// missing one counting as bucket 0.
pub open spec fn cutoff_index(s: Seq<nat>, total: nat, count_ppm: nat, rise_ppm: nat) -> int {
    let by_count = match first_by_count(s, total, count_ppm, s.len() as int) {
        Some(i) => i,
        None => 0,
    };
    let by_rise = match first_by_rise(s, total, rise_ppm, s.len() as int) {
        Some(i) => i,
        None => 0,
    };
    if by_count >= by_rise {
        by_count
    } else {
        by_rise
    }
}

/// The black point of a channel (`reverse` unset) or its white point
/// (`reverse` set): the cutoff bucket spread over the range of 16-bit values
/// and counted from the end at which the scan began.
pub open spec fn cutoff_value(hist: Seq<nat>, reverse: bool, count_ppm: nat, rise_ppm: nat) -> int {
    let index = cutoff_index(scan_order(hist, reverse), total_count(hist), count_ppm, rise_ppm);
    let level = if hist.len() <= 1 {
        0
    } else {
        65535 * index / (hist.len() - 1)
    };
    if reverse {
        65535 - level
    } else {
        level
    }
}

/// The sum of the first `n` counts is at most `n` times the greatest value a
/// count can take.
proof fn lemma_prefix_sum_bound(s: Seq<nat>, n: int, cap: nat)
    requires
        0 <= n <= s.len(),
        forall|i: int| 0 <= i < s.len() ==> #[trigger] s[i] <= cap,
    ensures
        prefix_sum(s, n) <= n * cap,
    decreases n,
{
    if n > 0 {
        lemma_prefix_sum_bound(s, n - 1, cap);
        assert(n * cap == (n - 1) * cap + cap) by (nonlinear_arith);
    } else {
        assert(n * cap == 0) by (nonlinear_arith)
            requires
                n == 0,
        ;
    }
}

/// Finds the black point of a channel from its histogram, or with `reverse`
/// its white point.
///
/// The non-empty buckets are scanned from the chosen end. One candidate is
/// the first bucket where the pixels passed exceed `max_pixels_ppm` parts per
/// million of all pixels, the other the first bucket whose count rises over
/// the previous non-empty bucket by more than `max_pixels_diff_ppm` parts per
/// million. The later candidate is the cutoff; a candidate that is not found
/// counts as the end at which the scan began. The scan ends behind the
/// bucket with which the pixels passed exceed `HARD_CUTOFF_PPM`.
#[verifier::rlimit(50)]
pub fn find_cutoff_value(
    reverse: bool,
    channel_hist: &Vec<usize>,
    max_pixels_ppm: u32,
    max_pixels_diff_ppm: u32,
) -> (cutoff: u16)
    requires
        total_count(counts_of(channel_hist@)) <= usize::MAX,
    ensures
        cutoff == cutoff_value(
            counts_of(channel_hist@),
            reverse,
            max_pixels_ppm as nat,
            max_pixels_diff_ppm as nat,
        ),
{
    let len = channel_hist.len();
    let ghost hist = counts_of(channel_hist@);
    let ghost scan = scan_order(hist, reverse);
    let mut total: usize = 0;
    let mut k: usize = 0;
    while k < len
        invariant
            k <= len,
            len == channel_hist@.len(),
            hist == counts_of(channel_hist@),
            total == prefix_sum(hist, k as int),
            total_count(hist) <= usize::MAX,
        decreases len - k,
    {
        proof {
            lemma_prefix_sum_monotone(hist, k + 1, len as int);
        }
        total = total + channel_hist[k];
        k += 1;
    }
    proof {
        assert(forall|p: int|
            0 <= p <= 0xffff_ffff ==> #[trigger] (p * total) <= 0xffff_ffff
                * 0xffff_ffff_ffff_ffff) by (nonlinear_arith)
            requires
                0 <= total <= 0xffff_ffff_ffff_ffff,
        ;
        assert(HARD_CUTOFF_PPM * total <= 0xffff_ffff * 0xffff_ffff_ffff_ffff);
        assert(max_pixels_ppm * total <= 0xffff_ffff * 0xffff_ffff_ffff_ffff);
        assert(max_pixels_diff_ppm * total <= 0xffff_ffff * 0xffff_ffff_ffff_ffff);
    }
    let ceiling: u128 = (HARD_CUTOFF_PPM as u128) * (total as u128);
    let count_limit: u128 = (max_pixels_ppm as u128) * (total as u128);
    let rise_limit: u128 = (max_pixels_diff_ppm as u128) * (total as u128);
    let mut running: u128 = 0;
    let mut previous: usize = 0;
    let mut by_count: Option<usize> = None;
    let mut by_rise: Option<usize> = None;
    let mut k: usize = 0;
    while k < len
        invariant
            k <= len,
            len == channel_hist@.len(),
            hist == counts_of(channel_hist@),
            scan == scan_order(hist, reverse),
            scan.len() == len,
            total == total_count(hist),
            ceiling == HARD_CUTOFF_PPM * total,
            count_limit == max_pixels_ppm * total,
            rise_limit == max_pixels_diff_ppm * total,
            running == prefix_sum(scan, k as int),
            running <= total,
            previous == previous_count(scan, k as int),
            by_count matches Some(i) ==> i < k,
            by_rise matches Some(i) ==> i < k,
            (match by_count {
                Some(i) => Some(i as int),
                None => None,
            }) == first_by_count(scan, total as nat, max_pixels_ppm as nat, k as int),
            (match by_rise {
                Some(i) => Some(i as int),
                None => None,
            }) == first_by_rise(scan, total as nat, max_pixels_diff_ppm as nat, k as int),
        decreases len - k,
    {
        let at: usize = if reverse {
            len - 1 - k
        } else {
            k
        };
        let count = channel_hist[at];
        assert(count == scan[k as int]);
        if count > 0 {
            proof {
                lemma_scan_prefix_bound(hist, reverse, k as int);
                lemma_scan_prefix_bound(hist, reverse, k + 1);
            }
            let open: bool = running * (MILLION as u128) <= ceiling;
            running = running + count as u128;
            if open {
                if by_count.is_none() && running * (MILLION as u128) > count_limit {
                    by_count = Some(k);
                }
                if by_rise.is_none() && count > previous && ((count - previous) as u128) * (
                MILLION as u128) > rise_limit {
                    by_rise = Some(k);
                }
            }
            proof {
                if count <= previous {
                    let d = count - previous;
                    assert(d * MILLION <= max_pixels_diff_ppm * total) by (nonlinear_arith)
                        requires
                            d <= 0,
                            MILLION == 1_000_000,
                            max_pixels_diff_ppm >= 0,
                            total >= 0,
                    ;
                }
            }
            previous = count;
        }
        k += 1;
    }
    let first: usize = match by_count {
        Some(i) => i,
        None => 0,
    };
    let second: usize = match by_rise {
        Some(i) => i,
        None => 0,
    };
    let index: usize = if first >= second {
        first
    } else {
        second
    };
    let level: u16 = if len <= 1 {
        0
    } else {
        proof {
            let d = (len - 1) as int;
            let x = index as int;
            assert(0 <= 65535 * x / d <= 65535) by (nonlinear_arith)
                requires
                    0 <= x <= d,
                    d > 0,
            ;
        }
        (65535 * (index as u128) / ((len - 1) as u128)) as u16
    };
    if reverse {
        MAX_SAMPLE - level
    } else {
        level
    }
}

/// Prefix sums grow with the number of counts summed.
pub proof fn lemma_prefix_sum_monotone(s: Seq<nat>, a: int, b: int)
    requires
        a <= b,
    ensures
        prefix_sum(s, a) <= prefix_sum(s, b),
    decreases b - a,
{
    if a < b {
        lemma_prefix_sum_monotone(s, a, b - 1);
    }
}

/// What a scan from the upper end has passed and what a scan from the lower
/// end has yet to pass make up the whole.
pub proof fn lemma_prefix_sum_reverse(s: Seq<nat>, b: int)
    requires
        0 <= b <= s.len(),
    ensures
        prefix_sum(s.reverse(), b) + prefix_sum(s, s.len() - b) == total_count(s),
    decreases b,
{
    if b > 0 {
        lemma_prefix_sum_reverse(s, b - 1);
        assert(s.reverse()[b - 1] == s[s.len() - b]);
    }
}

/// However far a scan has gone, from either end, it has passed no more than
/// the whole.
pub proof fn lemma_scan_prefix_bound(hist: Seq<nat>, reverse: bool, k: int)
    requires
        0 <= k <= hist.len(),
    ensures
        prefix_sum(scan_order(hist, reverse), k) <= total_count(hist),
{
    if reverse {
        lemma_prefix_sum_reverse(hist, k);
    } else {
        lemma_prefix_sum_monotone(hist, k, hist.len() as int);
    }
}

/// The cutoff bucket is bucket 0 or a bucket that the scan reaches.
pub proof fn lemma_cutoff_index(s: Seq<nat>, total: nat, count_ppm: nat, rise_ppm: nat)
    ensures
        0 <= cutoff_index(s, total, count_ppm, rise_ppm),
        cutoff_index(s, total, count_ppm, rise_ppm) == 0 || (cutoff_index(
            s,
            total,
            count_ppm,
            rise_ppm,
        ) < s.len() && reached(s, total, cutoff_index(s, total, count_ppm, rise_ppm))),
        first_by_count(s, total, count_ppm, s.len() as int) is Some ==> reached(
            s,
            total,
            cutoff_index(s, total, count_ppm, rise_ppm),
        ) && cutoff_index(s, total, count_ppm, rise_ppm) < s.len(),
{
    lemma_first_by_count(s, total, count_ppm, s.len() as int);
    lemma_first_by_rise(s, total, rise_ppm, s.len() as int);
}

/// A bucket that the scan from below reaches does not lie above a bucket
/// that the scan from above reaches: bucket `i` of the one and bucket `j` of
/// the other, each counted from its own end, do not pass each other.
pub proof fn lemma_scans_do_not_cross(s: Seq<nat>, i: int, j: int)
    requires
        0 <= i < s.len(),
        0 <= j < s.len(),
        reached(s, total_count(s), i),
        reached(s.reverse(), total_count(s), j),
    ensures
        i + j + 1 <= s.len(),
{
    let len = s.len() as int;
    let total = total_count(s);
    let low = prefix_sum(s, i);
    let high = prefix_sum(s.reverse(), j);
    lemma_prefix_sum_reverse(s, j);
    assert(s.reverse()[j] == s[len - 1 - j]);
    if i + j + 1 > len {
        // bucket `len - 1 - j` is not empty and lies below bucket `i`
        lemma_prefix_sum_monotone(s, len - j, i);
        assert(prefix_sum(s, len - j) == prefix_sum(s, len - j - 1) + s[len - 1 - j]);
        lemma_prefix_sum_monotone(s, i, len);
        assert(total > 0);
        assert(low + high >= total);
        assert(false) by (nonlinear_arith)
            requires
                low * MILLION <= HARD_CUTOFF_PPM * total,
                high * MILLION <= HARD_CUTOFF_PPM * total,
                low + high >= total,
                total > 0,
                MILLION == 1_000_000,
                HARD_CUTOFF_PPM == 5000,
        ;
    }
}

/// The black point of a histogram never lies above its white point, whatever
/// the shares that the two scans go by.
pub proof fn lemma_black_not_above_white(
    hist: Seq<nat>,
    count_ppm: nat,
    rise_ppm: nat,
    other_count_ppm: nat,
    other_rise_ppm: nat,
)
    ensures
        0 <= cutoff_value(hist, false, count_ppm, rise_ppm) <= cutoff_value(
            hist,
            true,
            other_count_ppm,
            other_rise_ppm,
        ) <= 65535,
{
    let total = total_count(hist);
    let len = hist.len() as int;
    let i = cutoff_index(hist, total, count_ppm, rise_ppm);
    let j = cutoff_index(hist.reverse(), total, other_count_ppm, other_rise_ppm);
    lemma_cutoff_index(hist, total, count_ppm, rise_ppm);
    lemma_cutoff_index(hist.reverse(), total, other_count_ppm, other_rise_ppm);
    if len >= 2 {
        assert(hist.reverse().len() == len);
        if i != 0 && j != 0 {
            lemma_scans_do_not_cross(hist, i, j);
        }
        assert(i + j + 1 <= len);
        let d = len - 1;
        assert(0 <= 65535 * i / d && 0 <= 65535 * j / d && 65535 * i / d + 65535 * j / d <= 65535)
            by (nonlinear_arith)
            requires
                0 <= i,
                0 <= j,
                i + j <= d,
                d > 0,
        ;
    }
}

/// Raising one count by at most one raises a prefix sum by at most one, and
/// only if the count is among those summed.
proof fn lemma_prefix_sum_step(a: Seq<nat>, b: Seq<nat>, j: int, m: int)
    requires
        0 <= m <= a.len(),
        a.len() == b.len(),
        forall|i: int| 0 <= i < a.len() && i != j ==> b[i] == a[i],
        0 <= j < a.len() ==> b[j] <= a[j] + 1,
    ensures
        prefix_sum(b, m) <= prefix_sum(a, m) + if 0 <= j < m {
            1nat
        } else {
            0nat
        },
    decreases m,
{
    if m > 0 {
        lemma_prefix_sum_step(a, b, j, m - 1);
    }
}

/// The histogram of a channel over the first `n` samples.
pub open spec fn partial_histogram(samples: Seq<u16>, channel: int, bins: nat, n: int) -> Seq<
    nat,
> {
    Seq::new(bins, |bin: int| bin_count(samples, channel, bins, bin, n))
}

/// A histogram counts no more samples than there are.
pub proof fn lemma_histogram_total(samples: Seq<u16>, channel: int, bins: nat, n: int)
    requires
        0 <= n <= samples.len(),
    ensures
        total_count(partial_histogram(samples, channel, bins, n)) <= n,
    decreases n,
{
    let b = partial_histogram(samples, channel, bins, n);
    if n == 0 {
        lemma_prefix_sum_bound(b, bins as int, 0);
        assert(bins * 0 == 0) by (nonlinear_arith);
    } else {
        let a = partial_histogram(samples, channel, bins, n - 1);
        lemma_histogram_total(samples, channel, bins, n - 1);
        let j = if (n - 1) % 3 == channel {
            bin_of(samples[n - 1], bins)
        } else {
            -1
        };
        lemma_prefix_sum_step(a, b, j, bins as int);
    }
}

/// A sample rescaled so that `low` maps to 0 and `high` to the greatest
/// value, with results outside the range forced to its ends. Where `high` is
/// below `low` the scale is turned around; where they coincide there is no
/// scale and the sample stays.
pub open spec fn stretched_value(v: u16, low: u16, high: u16) -> u16 {
    if high > low {
        if v <= low {
            0
        } else if v >= high {
            65535
        } else {
            (65535 * (v - low) / (high - low)) as u16
        }
    } else if high < low {
        if v >= low {
            0
        } else if v <= high {
            65535
        } else {
            (65535 * (low - v) / (low - high)) as u16
        }
    } else {
        v
    }
}

/// Stretching with a black point below the white point keeps the order of
/// samples, sends everything up to the black point to 0 and everything from
/// the white point on to the greatest value.
pub proof fn lemma_stretch_reaches_extremes(a: u16, b: u16, low: u16, high: u16)
    requires
        low < high,
    ensures
        a <= low ==> stretched_value(a, low, high) == 0,
        a >= high ==> stretched_value(a, low, high) == 65535,
        a <= b ==> stretched_value(a, low, high) <= stretched_value(b, low, high),
{
    let d = (high - low) as int;
    if low < a && a < high {
        let x = (a - low) as int;
        assert(0 <= 65535 * x / d <= 65535) by (nonlinear_arith)
            requires
                0 <= x <= d,
                d > 0,
        ;
    }
    if low < b && b < high {
        let y = (b - low) as int;
        assert(0 <= 65535 * y / d <= 65535) by (nonlinear_arith)
            requires
                0 <= y <= d,
                d > 0,
        ;
    }
    if low < a && a <= b && b < high {
        let x = (a - low) as int;
        let y = (b - low) as int;
        assert(65535 * x / d <= 65535 * y / d) by (nonlinear_arith)
            requires
                0 <= x <= y,
                d > 0,
        ;
    }
}

/// Computes `stretched_value`.
pub fn stretch_value(v: u16, low: u16, high: u16) -> (out: u16)
    ensures
        out == stretched_value(v, low, high),
{
    if high > low {
        if v <= low {
            0
        } else if v >= high {
            MAX_SAMPLE
        } else {
            let x: u32 = (v - low) as u32;
            let d: u32 = (high - low) as u32;
            proof {
                assert(0 <= 65535 * x / (d as int) <= 65535 && 65535 * x <= 65535 * 65535)
                    by (nonlinear_arith)
                    requires
                        0 <= x <= d,
                        d > 0,
                        d <= 65535,
                ;
            }
            (65535 * x / d) as u16
        }
    } else if high < low {
        if v >= low {
            0
        } else if v <= high {
            MAX_SAMPLE
        } else {
            let x: u32 = (low - v) as u32;
            let d: u32 = (low - high) as u32;
            proof {
                assert(0 <= 65535 * x / (d as int) <= 65535 && 65535 * x <= 65535 * 65535)
                    by (nonlinear_arith)
                    requires
                        0 <= x <= d,
                        d > 0,
                        d <= 65535,
                ;
            }
            (65535 * x / d) as u16
        }
    } else {
        v
    }
}

/// The samples of a colour grid with each channel stretched between its own
/// black and white point.
pub open spec fn rescaled_samples(samples: Seq<u16>, low: Color, high: Color) -> Seq<u16> {
    Seq::new(
        samples.len(),
        |i: int| stretched_value(samples[i], low.channel(i % 3), high.channel(i % 3)),
    )
}

/// The first channel whose black and white point coincide.
pub open spec fn flat_channel(low: Color, high: Color) -> Option<u8> {
    if low.r == high.r {
        Some(0u8)
    } else if low.g == high.g {
        Some(1u8)
    } else if low.b == high.b {
        Some(2u8)
    } else {
        None
    }
}

/// Stretches every channel of `image` between its black point in `low` and
/// its white point in `high`. Fails, leaving the image as it was, when the two
/// points of a channel coincide; the error names the first such channel.
pub fn rescale_channels(image: &mut Raster, low: Color, high: Color) -> (r: Result<
    (),
    ToneMapError,
>)
    requires
        old(image).wf(),
    ensures
        final(image).wf(),
        final(image)@.width == old(image)@.width,
        final(image)@.height == old(image)@.height,
        match r {
            Ok(_) => flat_channel(low, high) is None && final(image)@.samples == rescaled_samples(
                old(image)@.samples,
                low,
                high,
            ),
            Err(e) => flat_channel(low, high) matches Some(c) && e == (ToneMapError::ZeroRange {
                channel: c,
            }) && final(image)@.samples == old(image)@.samples,
        },
{
    if low.r == high.r {
        return Err(ToneMapError::ZeroRange { channel: 0 });
    }
    if low.g == high.g {
        return Err(ToneMapError::ZeroRange { channel: 1 });
    }
    if low.b == high.b {
        return Err(ToneMapError::ZeroRange { channel: 2 });
    }
    let ghost before = image.data@;
    let n = image.data.len();
    let mut i: usize = 0;
    let mut channel: usize = 0;
    while i < n
        invariant
            i <= n,
            n == before.len(),
            image.data@.len() == n,
            image.width == old(image).width,
            image.height == old(image).height,
            channel == i % 3,
            forall|j: int|
                0 <= j < i ==> #[trigger] image.data@[j] == stretched_value(
                    before[j],
                    low.channel(j % 3),
                    high.channel(j % 3),
                ),
            forall|j: int| i <= j < n ==> #[trigger] image.data@[j] == before[j],
        decreases n - i,
    {
        let v = image.data[i];
        image.data[i] = stretch_value(v, low.get(channel), high.get(channel));
        i += 1;
        channel = if channel == 2 {
            0
        } else {
            channel + 1
        };
    }
    proof {
        assert(image.data@ =~= rescaled_samples(before, low, high));
    }
    Ok(())
}

/// The black points (`reverse` unset) or white points (`reverse` set) of the
/// three channels of a colour grid, found in histograms of `bins` bins.
pub open spec fn channel_cutoffs(
    samples: Seq<u16>,
    bins: nat,
    reverse: bool,
    count_ppm: nat,
    rise_ppm: nat,
) -> Color {
    Color {
        r: cutoff_value(channel_histogram(samples, 0, bins), reverse, count_ppm, rise_ppm) as u16,
        g: cutoff_value(channel_histogram(samples, 1, bins), reverse, count_ppm, rise_ppm) as u16,
        b: cutoff_value(channel_histogram(samples, 2, bins), reverse, count_ppm, rise_ppm) as u16,
    }
}

/// One pass of the stretch: the samples rescaled between the cutoffs found
/// in their own histograms, or the channel that has no range.
pub open spec fn stretch_pass(
    samples: Seq<u16>,
    bins: nat,
    count_ppm: nat,
    rise_ppm: nat,
) -> Result<Seq<u16>, ToneMapError> {
    let low = channel_cutoffs(samples, bins, false, count_ppm, rise_ppm);
    let high = channel_cutoffs(samples, bins, true, count_ppm, rise_ppm);
    match flat_channel(low, high) {
        Some(c) => Err(ToneMapError::ZeroRange { channel: c }),
        None => Ok(rescaled_samples(samples, low, high)),
    }
}

/// Where the pixels passed exceed a share that is no greater than the hard
/// ceiling, a bucket has been found that exceeds by count.
pub proof fn lemma_count_candidate(s: Seq<nat>, total: nat, ppm: nat, n: int)
    requires
        0 <= n <= s.len(),
        ppm <= HARD_CUTOFF_PPM,
        prefix_sum(s, n) * MILLION > ppm * total,
    ensures
        first_by_count(s, total, ppm, n) is Some,
    decreases n,
{
    if n > 0 && first_by_count(s, total, ppm, n - 1) is None {
        if prefix_sum(s, n - 1) * MILLION > ppm * total {
            lemma_count_candidate(s, total, ppm, n - 1);
        } else {
            assert(s[n - 1] > 0);
            assert(ppm * total <= HARD_CUTOFF_PPM * total) by (nonlinear_arith)
                requires
                    ppm <= HARD_CUTOFF_PPM,
            ;
            assert(exceeds_by_count(s, total, ppm, n - 1));
        }
    }
}

/// A prefix sum is at least as great as any one of the counts it sums.
pub proof fn lemma_prefix_sum_covers(s: Seq<nat>, b: int, n: int)
    requires
        0 <= b < n,
    ensures
        prefix_sum(s, n) >= s[b],
    decreases n,
{
    if b < n - 1 {
        lemma_prefix_sum_covers(s, b, n - 1);
    }
}

/// A sample of a channel is counted in its bin.
pub proof fn lemma_bin_count_positive(samples: Seq<u16>, channel: int, bins: nat, i: int, n: int)
    requires
        0 <= i < n,
        i % 3 == channel,
    ensures
        bin_count(samples, channel, bins, bin_of(samples[i], bins), n) >= 1,
    decreases n,
{
    if i < n - 1 {
        lemma_bin_count_positive(samples, channel, bins, i, n - 1);
    }
}

/// A bin that is not empty holds a sample of the channel.
pub proof fn lemma_bin_count_witness(
    samples: Seq<u16>,
    channel: int,
    bins: nat,
    bin: int,
    n: int,
) -> (i: int)
    requires
        bin_count(samples, channel, bins, bin, n) > 0,
    ensures
        0 <= i < n,
        i % 3 == channel,
        bin_of(samples[i], bins) == bin,
    decreases n,
{
    if (n - 1) % 3 == channel && bin_of(samples[n - 1], bins) == bin {
        n - 1
    } else {
        lemma_bin_count_witness(samples, channel, bins, bin, n - 1)
    }
}

/// In a channel that has a sample, with a share for the count that is no
/// greater than the hard ceiling, the cutoff of either scan falls on a bucket
/// that is not empty: the scan from its end finds a sample of the channel in
/// the cutoff bucket.
pub proof fn lemma_cutoff_bucket_has_sample(
    samples: Seq<u16>,
    channel: int,
    bins: nat,
    reverse: bool,
    count_ppm: nat,
    rise_ppm: nat,
    witness: int,
) -> (i: int)
    requires
        bins >= 1,
        0 <= witness < samples.len(),
        witness % 3 == channel,
        count_ppm <= HARD_CUTOFF_PPM,
    ensures
        0 <= i < samples.len(),
        i % 3 == channel,
        ({
            let hist = channel_histogram(samples, channel, bins);
            let index = cutoff_index(
                scan_order(hist, reverse),
                total_count(hist),
                count_ppm,
                rise_ppm,
            );
            &&& 0 <= index < bins
            &&& bin_of(samples[i], bins) == if reverse {
                bins - 1 - index
            } else {
                index
            }
        }),
{
    let hist = channel_histogram(samples, channel, bins);
    let total = total_count(hist);
    let scan = scan_order(hist, reverse);
    let n = samples.len() as int;
    // the channel's histogram counts the witness
    lemma_bin_of_range(samples[witness], bins);
    let home = bin_of(samples[witness], bins);
    lemma_bin_count_positive(samples, channel, bins, witness, n);
    lemma_prefix_sum_covers(hist, home, bins as int);
    assert(total >= 1);
    // so the whole exceeds the share, and a candidate by count is found
    assert(scan.len() == bins);
    if reverse {
        lemma_prefix_sum_reverse(hist, bins as int);
    }
    assert(prefix_sum(scan, bins as int) == total);
    assert(total * MILLION > count_ppm * total) by (nonlinear_arith)
        requires
            total >= 1,
            count_ppm <= HARD_CUTOFF_PPM,
            MILLION == 1_000_000,
            HARD_CUTOFF_PPM == 5000,
    ;
    lemma_count_candidate(scan, total, count_ppm, bins as int);
    lemma_cutoff_index(scan, total, count_ppm, rise_ppm);
    let index = cutoff_index(scan, total, count_ppm, rise_ppm);
    assert(scan[index] > 0);
    let bin = if reverse {
        bins - 1 - index
    } else {
        index
    };
    assert(hist[bin] == scan[index]);
    lemma_bin_count_witness(samples, channel, bins, bin, n)
}

/// With one bin for every value, a value is its own bin and a cutoff bucket
/// is its own cutoff value.
pub proof fn lemma_full_bins(v: u16, index: int)
    requires
        0 <= index <= 65535,
    ensures
        bin_of(v, FULL_BINS as nat) == v,
        65535 * index / 65535 == index,
{
    let x = v as int;
    assert(x * 65535 / 65535 == x) by (nonlinear_arith);
    assert(65535 * index / 65535 == index) by (nonlinear_arith);
}

/// The loose pass of the stretch, where it succeeds, sends a sample of every
/// channel that has one to 0 and another to the greatest value: the black
/// point and the white point are values that the channel takes.
pub proof fn lemma_first_pass_reaches_both_ends(
    samples: Seq<u16>,
    channel: int,
    count_ppm: nat,
    rise_ppm: nat,
    witness: int,
) -> (ends: (int, int))
    requires
        0 <= channel < 3,
        0 <= witness < samples.len(),
        witness % 3 == channel,
        count_ppm <= HARD_CUTOFF_PPM,
        stretch_pass(samples, FULL_BINS as nat, count_ppm, rise_ppm) is Ok,
    ensures
        0 <= ends.0 < samples.len(),
        0 <= ends.1 < samples.len(),
        ends.0 % 3 == channel,
        ends.1 % 3 == channel,
        stretch_pass(samples, FULL_BINS as nat, count_ppm, rise_ppm)->Ok_0[ends.0] == 0,
        stretch_pass(samples, FULL_BINS as nat, count_ppm, rise_ppm)->Ok_0[ends.1] == 65535,
{
    let bins = FULL_BINS as nat;
    let hist = channel_histogram(samples, channel, bins);
    let low = channel_cutoffs(samples, bins, false, count_ppm, rise_ppm);
    let high = channel_cutoffs(samples, bins, true, count_ppm, rise_ppm);
    lemma_black_not_above_white(hist, count_ppm, rise_ppm, count_ppm, rise_ppm);
    let black = cutoff_value(hist, false, count_ppm, rise_ppm);
    let white = cutoff_value(hist, true, count_ppm, rise_ppm);
    assert(low.channel(channel) == black);
    assert(high.channel(channel) == white);
    assert(black != white);
    let i = lemma_cutoff_bucket_has_sample(
        samples,
        channel,
        bins,
        false,
        count_ppm,
        rise_ppm,
        witness,
    );
    let j = lemma_cutoff_bucket_has_sample(
        samples,
        channel,
        bins,
        true,
        count_ppm,
        rise_ppm,
        witness,
    );
    let below = cutoff_index(hist, total_count(hist), count_ppm, rise_ppm);
    let above = cutoff_index(hist.reverse(), total_count(hist), count_ppm, rise_ppm);
    lemma_full_bins(samples[i], below);
    lemma_full_bins(samples[j], above);
    assert(samples[i] == black);
    assert(samples[j] == white);
    (i, j)
}

/// Some sample of `channel` has the value `v`.
pub open spec fn has_value(samples: Seq<u16>, channel: int, v: int) -> bool {
    exists|i: int| 0 <= i < samples.len() && i % 3 == channel && #[trigger] samples[i] == v
}

/// Every channel takes both 0 and the greatest value.
pub open spec fn spans_full_range(samples: Seq<u16>) -> bool {
    &&& has_value(samples, 0, 0) && has_value(samples, 0, 65535)
    &&& has_value(samples, 1, 0) && has_value(samples, 1, 65535)
    &&& has_value(samples, 2, 0) && has_value(samples, 2, 65535)
}

/// A stretch that succeeds reaches the full range: in every channel that has
/// a sample, some sample of the result is 0 and some is the greatest value.
pub proof fn lemma_stretch_reaches_full_range(samples: Seq<u16>, channel: int, witness: int)
    requires
        0 <= channel < 3,
        0 <= witness < samples.len(),
        witness % 3 == channel,
        tone_stretched(samples) is Ok,
    ensures
        has_value(tone_stretched(samples)->Ok_0, channel, 0),
        has_value(tone_stretched(samples)->Ok_0, channel, 65535),
{
    let loose = (MAX_PIXELS_PPM / 10) as nat;
    let first = stretch_pass(samples, FULL_BINS as nat, loose, 0)->Ok_0;
    let ends = lemma_first_pass_reaches_both_ends(samples, channel, loose, 0, witness);
    let bins = COARSE_BINS as nat;
    let hist = channel_histogram(first, channel, bins);
    let count_ppm = MAX_PIXELS_PPM as nat;
    let rise_ppm = MAX_PIXELS_DIFF_PPM as nat;
    let low = channel_cutoffs(first, bins, false, count_ppm, rise_ppm);
    let high = channel_cutoffs(first, bins, true, count_ppm, rise_ppm);
    lemma_black_not_above_white(hist, count_ppm, rise_ppm, count_ppm, rise_ppm);
    let black = cutoff_value(hist, false, count_ppm, rise_ppm);
    let white = cutoff_value(hist, true, count_ppm, rise_ppm);
    assert(low.channel(channel) == black);
    assert(high.channel(channel) == white);
    assert(black != white);
    let out = tone_stretched(samples)->Ok_0;
    assert(out == rescaled_samples(first, low, high));
    assert(first.len() == samples.len());
    assert(out[ends.0] == stretched_value(first[ends.0], black as u16, white as u16));
    assert(out[ends.1] == stretched_value(first[ends.1], black as u16, white as u16));
}

/// The two passes of the stretch: a loose one over the full-resolution
/// histogram, then a refining one over the coarse histogram of its result.
pub open spec fn tone_stretched(samples: Seq<u16>) -> Result<Seq<u16>, ToneMapError> {
    match stretch_pass(samples, FULL_BINS as nat, (MAX_PIXELS_PPM / 10) as nat, 0) {
        Err(e) => Err(e),
        Ok(first) => stretch_pass(
            first,
            COARSE_BINS as nat,
            MAX_PIXELS_PPM as nat,
            MAX_PIXELS_DIFF_PPM as nat,
        ),
    }
}

/// Finds the cutoffs of the three channels in their histograms.
fn find_channel_cutoffs(
    hist: &Vec<Vec<usize>>,
    reverse: bool,
    count_ppm: u32,
    rise_ppm: u32,
) -> (cutoffs: Color)
    requires
        hist@.len() == 3,
        forall|c: int|
            0 <= c < 3 ==> total_count(counts_of((#[trigger] hist@[c])@)) <= usize::MAX,
    ensures
        forall|c: int|
            0 <= c < 3 ==> cutoffs.channel(c) == cutoff_value(
                counts_of((#[trigger] hist@[c])@),
                reverse,
                count_ppm as nat,
                rise_ppm as nat,
            ),
{
    let r = find_cutoff_value(reverse, &hist[0], count_ppm, rise_ppm);
    let g = find_cutoff_value(reverse, &hist[1], count_ppm, rise_ppm);
    let b = find_cutoff_value(reverse, &hist[2], count_ppm, rise_ppm);
    Color { r, g, b }
}

/// Runs one pass of the stretch over `image`: finds the black and white point
/// of each channel in a histogram of `bins` bins and rescales the channel
/// between them. Fails, leaving the image as it was, when a channel has no
/// range.
pub fn stretch_pass_mut(image: &mut Raster, bins: usize, count_ppm: u32, rise_ppm: u32) -> (r:
    Result<(), ToneMapError>)
    requires
        old(image).wf(),
        bins >= 1,
    ensures
        final(image).wf(),
        final(image)@.width == old(image)@.width,
        final(image)@.height == old(image)@.height,
        match r {
            Ok(_) => stretch_pass(
                old(image)@.samples,
                bins as nat,
                count_ppm as nat,
                rise_ppm as nat,
            ) == Ok::<Seq<u16>, ToneMapError>(final(image)@.samples),
            Err(e) => stretch_pass(
                old(image)@.samples,
                bins as nat,
                count_ppm as nat,
                rise_ppm as nat,
            ) == Err::<Seq<u16>, ToneMapError>(e) && final(image)@.samples == old(image)@.samples,
        },
{
    let hist = histogram_rgb(image, bins);
    let low = find_channel_cutoffs(&hist, false, count_ppm, rise_ppm);
    let high = find_channel_cutoffs(&hist, true, count_ppm, rise_ppm);
    proof {
        let samples = image@.samples;
        let wanted_low = channel_cutoffs(
            samples,
            bins as nat,
            false,
            count_ppm as nat,
            rise_ppm as nat,
        );
        let wanted_high = channel_cutoffs(
            samples,
            bins as nat,
            true,
            count_ppm as nat,
            rise_ppm as nat,
        );
        assert(counts_of(hist@[0]@) == channel_histogram(samples, 0, bins as nat));
        assert(counts_of(hist@[1]@) == channel_histogram(samples, 1, bins as nat));
        assert(counts_of(hist@[2]@) == channel_histogram(samples, 2, bins as nat));
        assert(low.channel(0) == wanted_low.r && low.channel(1) == wanted_low.g && low.channel(2)
            == wanted_low.b);
        assert(high.channel(0) == wanted_high.r && high.channel(1) == wanted_high.g
            && high.channel(2) == wanted_high.b);
        assert(low == wanted_low);
        assert(high == wanted_high);
    }
    rescale_channels(image, low, high)
}

/// Stretches every channel of `image` to the full range, in two passes: a
/// loose one that only sheds outliers, then a refining one. Fails when the
/// black and the white point of a channel fall on one value; the image then
/// stays as the last pass that succeeded left it. Where the stretch succeeds
/// on a raster that has pixels, every channel of the result takes both 0 and
/// the greatest value.
pub fn stretch_channels_mut(image: &mut Raster) -> (r: Result<(), ToneMapError>)
    requires
        old(image).wf(),
    ensures
        final(image).wf(),
        final(image)@.width == old(image)@.width,
        final(image)@.height == old(image)@.height,
        match r {
            Ok(_) => tone_stretched(old(image)@.samples) == Ok::<Seq<u16>, ToneMapError>(
                final(image)@.samples,
            ),
            Err(e) => tone_stretched(old(image)@.samples) == Err::<Seq<u16>, ToneMapError>(e),
        },
        r is Err ==> final(image)@.samples == match stretch_pass(
            old(image)@.samples,
            FULL_BINS as nat,
            (MAX_PIXELS_PPM / 10) as nat,
            0,
        ) {
            Ok(first) => first,
            Err(_) => old(image)@.samples,
        },
        r is Ok && final(image)@.samples.len() > 0 ==> spans_full_range(final(image)@.samples),
{
    let ghost before = image@.samples;
    let ghost width = image@.width;
    let ghost height = image@.height;
    match stretch_pass_mut(image, FULL_BINS, MAX_PIXELS_PPM / 10, 0) {
        Err(e) => {
            return Err(e);
        },
        Ok(_) => {},
    }
    let r = stretch_pass_mut(image, COARSE_BINS, MAX_PIXELS_PPM, MAX_PIXELS_DIFF_PPM);
    proof {
        if r is Ok && before.len() > 0 {
            assert(before.len() >= 3) by (nonlinear_arith)
                requires
                    before.len() == 3 * width * height,
                    before.len() > 0,
            ;
            assert(image@.samples.len() == before.len());
            lemma_stretch_reaches_full_range(before, 0, 0);
            lemma_stretch_reaches_full_range(before, 1, 1);
            lemma_stretch_reaches_full_range(before, 2, 2);
        }
    }
    r
}

} // verus!
