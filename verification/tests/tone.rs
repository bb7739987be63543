use yancy::conversion::{invert_mut, rms, white_balance};
use yancy::error::ToneMapError;
use yancy::histogram::{
    cumulative_gray_counts, find_cutoff_value, histogram_rgb, normalize_histogram_mut,
    rescale_channels, stretch_channels_mut, stretch_pass_mut, stretch_value,
};
use yancy::raster::{Color, GrayRaster, Raster};

fn gray(data: Vec<u8>) -> GrayRaster {
    GrayRaster::new(data.len() as u32, 1, data).unwrap()
}

fn colour(data: Vec<u16>) -> Raster {
    Raster::new((data.len() / 3) as u32, 1, data).unwrap()
}

fn ramp() -> Raster {
    let mut data = Vec::new();
    for i in 0..1000u32 {
        let v = (10000 + i * 40) as u16;
        data.extend_from_slice(&[v, v / 2, 65535 - v]);
    }
    colour(data)
}

#[test]
fn rms_rounds_down() {
    assert_eq!(rms(vec![3, 4]), 3);
    assert_eq!(rms(vec![100, 200, 300]), 216);
    assert_eq!(rms(vec![65535; 4]), 65535);
    assert_eq!(rms(vec![1, 1, 2]), 1);
    assert_eq!(rms(vec![7]), 7);
    assert_eq!(rms(vec![]), 0);
}

#[test]
fn normalisation_keeps_black_and_white() {
    let mut img = gray(vec![0, 0, 10, 20, 255]);
    normalize_histogram_mut(&mut img);
    assert_eq!(img.samples(), &vec![0, 0, 85, 170, 255]);
    let mut img = gray(vec![7, 7, 9, 200]);
    normalize_histogram_mut(&mut img);
    assert_eq!(img.samples(), &vec![127, 127, 191, 255]);
}

#[test]
fn normalisation_of_an_all_black_raster_keeps_it_black() {
    let mut img = gray(vec![0, 0, 0]);
    normalize_histogram_mut(&mut img);
    assert_eq!(img.samples(), &vec![0, 0, 0]);
    let mut empty = gray(vec![]);
    normalize_histogram_mut(&mut empty);
    assert!(empty.samples().is_empty());
}

#[test]
fn cumulative_counts_add_up() {
    let below = cumulative_gray_counts(&vec![0, 0, 10, 20, 255]);
    assert_eq!(below.len(), 256);
    assert_eq!(
        (below[0], below[9], below[10], below[20], below[254], below[255]),
        (2, 2, 3, 4, 4, 5)
    );
}

#[test]
fn histogram_spreads_values_over_bins() {
    let image = colour(vec![0, 65535, 32768, 257, 256, 65534]);
    let hist = histogram_rgb(&image, 256);
    assert_eq!(hist.len(), 3);
    for (channel, bins) in [(0, [0usize, 1]), (1, [255, 0]), (2, [127, 254])] {
        assert_eq!(hist[channel].len(), 256);
        assert_eq!(hist[channel].iter().sum::<usize>(), 2);
        assert_eq!(hist[channel][bins[0]], 1);
        assert_eq!(hist[channel][bins[1]], 1);
    }
    let full = histogram_rgb(&image, 65536);
    assert_eq!(full[0][257], 1);
    assert_eq!(full[2][32768], 1);
    let one = histogram_rgb(&image, 1);
    assert_eq!(one, vec![vec![2], vec![2], vec![2]]);
}

#[test]
fn cutoff_is_the_later_candidate() {
    let hist = vec![1, 0, 3, 996, 0];
    assert_eq!(find_cutoff_value(false, &hist, 1000, 1500), 32767);
    assert_eq!(find_cutoff_value(true, &hist, 1000, 1500), 49152);
    assert_eq!(find_cutoff_value(false, &hist, 500, 5000), 49151);
    assert_eq!(find_cutoff_value(false, &hist, 5000, 1000), 49151);
    assert_eq!(find_cutoff_value(true, &hist, 500, 5000), 49152);
}

#[test]
fn cutoff_is_the_first_value_past_the_share() {
    // the darkest value present already holds more than the share
    let mut hist = vec![0usize; 65536];
    hist[1000] = 50;
    hist[2000] = 50;
    assert_eq!(find_cutoff_value(false, &hist, 10, 0), 1000);
    assert_eq!(find_cutoff_value(true, &hist, 10, 0), 2000);
}

#[test]
fn cutoff_in_a_coarse_histogram() {
    let mut hist = vec![0usize; 256];
    for (bin, count) in [(3, 2), (5, 10), (100, 99000), (250, 400), (252, 90), (254, 8)] {
        hist[bin] = count;
    }
    assert_eq!(find_cutoff_value(false, &hist, 100, 50), 1285);
    assert_eq!(find_cutoff_value(true, &hist, 100, 50), 64764);
    assert_eq!(find_cutoff_value(false, &hist, 10, 0), 771);
    assert_eq!(find_cutoff_value(true, &hist, 10, 0), 65278);
}

#[test]
fn cutoff_of_degenerate_histograms() {
    assert_eq!(find_cutoff_value(false, &vec![], 100, 50), 0);
    assert_eq!(find_cutoff_value(true, &vec![], 100, 50), 65535);
    assert_eq!(find_cutoff_value(false, &vec![9], 100, 50), 0);
    assert_eq!(find_cutoff_value(true, &vec![0; 256], 100, 50), 65535);
    // one bucket holds every pixel: both points fall on it
    let mut hist = vec![0usize; 256];
    hist[77] = 1000;
    assert_eq!(find_cutoff_value(false, &hist, 100, 50), 19789);
    assert_eq!(find_cutoff_value(true, &hist, 100, 50), 19789);
}

#[test]
fn stretch_value_rescales_and_clamps() {
    assert_eq!(stretch_value(100, 50, 150), 32767);
    assert_eq!(stretch_value(10, 50, 150), 0);
    assert_eq!(stretch_value(50, 50, 150), 0);
    assert_eq!(stretch_value(150, 50, 150), 65535);
    assert_eq!(stretch_value(60000, 50, 150), 65535);
    assert_eq!(stretch_value(65535, 0, 65535), 65535);
    assert_eq!(stretch_value(12345, 0, 65535), 12345);
    // a white point below the black point turns the scale around
    assert_eq!(stretch_value(100, 150, 50), 32767);
    assert_eq!(stretch_value(150, 150, 50), 0);
    assert_eq!(stretch_value(40, 150, 50), 65535);
    assert_eq!(stretch_value(123, 77, 77), 123);
}

#[test]
fn rescaling_without_range_is_an_error() {
    let mut image = colour(vec![1, 2, 3, 4, 5, 6]);
    let low = Color { r: 0, g: 9, b: 0 };
    let high = Color { r: 10, g: 9, b: 0 };
    assert_eq!(
        rescale_channels(&mut image, low, high),
        Err(ToneMapError::ZeroRange { channel: 1 })
    );
    assert_eq!(image.samples(), &vec![1, 2, 3, 4, 5, 6]);
    let high = Color { r: 10, g: 19, b: 0 };
    assert_eq!(
        rescale_channels(&mut image, low, high),
        Err(ToneMapError::ZeroRange { channel: 2 })
    );
    let high = Color { r: 0, g: 19, b: 0 };
    assert_eq!(
        rescale_channels(&mut image, low, high),
        Err(ToneMapError::ZeroRange { channel: 0 })
    );
}

#[test]
fn rescaling_stretches_each_channel() {
    let mut image = colour(vec![100, 100, 100, 10, 10, 200]);
    let low = Color { r: 50, g: 0, b: 100 };
    let high = Color { r: 150, g: 65535, b: 200 };
    assert_eq!(rescale_channels(&mut image, low, high), Ok(()));
    assert_eq!(image.samples(), &vec![32767, 100, 0, 0, 10, 65535]);
}

#[test]
fn stretch_reaches_both_ends_of_the_range() {
    let mut image = ramp();
    assert_eq!(stretch_pass_mut(&mut image, 65536, 10, 0), Ok(()));
    // the first pass maps [10000, 49960], [5000, 24980] and [15575, 55535]
    assert_eq!(&image.samples()[..3], &[0, 0, 65535]);
    let mut image = ramp();
    assert_eq!(stretch_channels_mut(&mut image), Ok(()));
    assert_eq!(&image.samples()[..6], &[0, 0, 65535, 65, 65, 65469]);
    assert_eq!(&image.samples()[2994..], &[65469, 65469, 65, 65535, 65535, 0]);
    assert_eq!(&image.samples()[1500..1503], &[32800, 32800, 32734]);
    let sum: u64 = image.samples().iter().map(|v| *v as u64).sum();
    assert_eq!(sum % 1_000_003, 300_712);
    for channel in 0..3 {
        let values = image.samples().iter().skip(channel).step_by(3);
        assert_eq!(values.clone().min(), Some(&0));
        assert_eq!(values.max(), Some(&65535));
    }
}

#[test]
fn stretch_of_a_uniform_raster_is_an_error() {
    let mut image = colour(vec![500; 300]);
    assert_eq!(
        stretch_channels_mut(&mut image),
        Err(ToneMapError::ZeroRange { channel: 0 })
    );
    assert_eq!(image.samples(), &vec![500; 300]);
    let mut image = Raster::new(4, 4, vec![1000; 48]).unwrap();
    assert_eq!(
        stretch_channels_mut(&mut image),
        Err(ToneMapError::ZeroRange { channel: 0 })
    );
    assert_eq!(image.samples(), &vec![1000; 48]);
}

#[test]
fn stretch_names_the_first_channel_without_range() {
    let mut data = vec![30000u16; 60000];
    data[0] = 100;
    data[3] = 60000;
    let mut image = colour(data.clone());
    assert_eq!(
        stretch_channels_mut(&mut image),
        Err(ToneMapError::ZeroRange { channel: 1 })
    );
    assert_eq!(image.samples(), &data);
}

#[test]
fn stretch_of_a_raster_without_pixels_leaves_it() {
    let mut empty = colour(vec![]);
    assert_eq!(stretch_channels_mut(&mut empty), Ok(()));
    assert!(empty.samples().is_empty());
}

#[test]
fn stretch_of_a_small_raster_reaches_both_ends() {
    let mut data = Vec::new();
    for i in 0..20u16 {
        data.extend_from_slice(&[258 + i * 3421, 65277 - i * 100, 300 + i * 7]);
    }
    let mut image = colour(data);
    assert_eq!(stretch_channels_mut(&mut image), Ok(()));
    assert_eq!(&image.samples()[..9], &[0, 65535, 0, 3449, 62085, 3449, 6898, 58636, 6898]);
    for channel in 0..3 {
        let values = image.samples().iter().skip(channel).step_by(3);
        assert_eq!(values.clone().min(), Some(&0));
        assert_eq!(values.max(), Some(&65535));
    }
}

#[test]
fn inversion_flips_and_flips_back() {
    let before = vec![0, 1, 65535, 40000, 12345, 65534];
    let mut image = colour(before.clone());
    invert_mut(&mut image);
    assert_eq!(image.samples(), &vec![65535, 65534, 0, 25535, 53190, 1]);
    invert_mut(&mut image);
    assert_eq!(image.samples(), &before);
}

#[test]
fn white_balance_scales_by_the_luminance_target() {
    let white = Color { r: 30000, g: 24000, b: 18000 };
    let mut image = colour(vec![
        30000, 24000, 18000, 1000, 2000, 3000, 65535, 65535, 65535, 0, 0, 0,
    ]);
    white_balance(&mut image, white);
    assert_eq!(
        image.samples(),
        &vec![14652, 14652, 14652, 488, 1221, 2442, 32007, 40009, 53345, 0, 0, 0]
    );
}

#[test]
fn white_balance_clamps_to_the_greatest_value() {
    let mut image = colour(vec![65535, 65535, 65535]);
    white_balance(&mut image, Color { r: 100, g: 60000, b: 60000 });
    assert_eq!(image.samples()[0], 65535);
    assert!(image.samples()[1] < 65535);
}

#[test]
fn white_balance_against_a_channel_of_zero() {
    let mut image = colour(vec![5, 0, 7]);
    white_balance(&mut image, Color { r: 0, g: 0, b: 100 });
    assert_eq!(image.samples(), &vec![65535, 0, 1]);
    let mut image = colour(vec![5, 0, 7]);
    white_balance(&mut image, Color { r: 0, g: 0, b: 0 });
    assert_eq!(image.samples(), &vec![0, 0, 0]);
}
