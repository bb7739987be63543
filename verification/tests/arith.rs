use yancy::arith::{integer_sqrt, scale_u32};
use yancy::border::{whiten_dark, zero_border_noise};
use yancy::raster::GrayRaster;

#[test]
fn integer_square_root_rounds_down() {
    for (n, root) in [
        (0u64, 0u32),
        (1, 1),
        (2, 1),
        (3, 1),
        (4, 2),
        (15, 3),
        (16, 4),
        (17, 4),
        (4294836225, 65535),
        (4294836224, 65534),
        (4294967296, 65536),
        (u64::MAX, u32::MAX),
    ] {
        assert_eq!(integer_sqrt(n), root, "{}", n);
    }
}

#[test]
fn scaling_rounds_down_and_saturates() {
    assert_eq!(scale_u32(7, 3, 2), 10);
    assert_eq!(scale_u32(478, 600, 500), 573);
    assert_eq!(scale_u32(0, 600, 500), 0);
    assert_eq!(scale_u32(u32::MAX, u32::MAX, 1), u32::MAX);
    assert_eq!(scale_u32(u32::MAX, u32::MAX, u32::MAX), u32::MAX);
    assert_eq!(scale_u32(5, 7, 0), u32::MAX);
    assert_eq!(scale_u32(0, 7, 0), 0);
    assert_eq!(scale_u32(5, 0, 0), 0);
}

#[test]
fn border_noise_is_forced_to_black() {
    let img = GrayRaster::new(7, 1, vec![0, 19, 20, 100, 240, 241, 255]).unwrap();
    let out = zero_border_noise(&img, 20, 240);
    assert_eq!((out.width(), out.height()), (7, 1));
    assert_eq!(out.samples(), &vec![0, 0, 20, 100, 240, 0, 0]);
}

#[test]
fn near_black_is_turned_white() {
    let img = GrayRaster::new(5, 1, vec![0, 19, 20, 100, 255]).unwrap();
    let out = whiten_dark(&img, 20);
    assert_eq!(out.samples(), &vec![255, 255, 20, 100, 255]);
}
