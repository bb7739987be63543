use yancy::border::{
    bounding_rectangle, collect_contour_points, identify_border_points, scale_points,
    scale_rectangle,
};
use yancy::conversion::determine_crop_inset_bounds;
use yancy::error::GeometryError;
use yancy::raster::{AspectRatio, GrayRaster, Raster, Rectangle};

fn blank(width: u32, height: u32) -> Raster {
    Raster::new(width, height, vec![0u16; (width * height * 3) as usize]).unwrap()
}

fn rect(min_x: u32, min_y: u32, max_x: u32, max_y: u32) -> Rectangle {
    Rectangle { min_x, min_y, max_x, max_y }
}

const THREE_TWO: AspectRatio = AspectRatio { width: 3, height: 2 };

#[test]
fn crop_of_a_frame_that_is_too_wide() {
    let image = blank(600, 400);
    let out = determine_crop_inset_bounds(&image, rect(25, 25, 575, 375), THREE_TWO, 0);
    assert_eq!(out, rect(37, 25, 562, 375));
    assert_eq!(out.width() * 2, out.height() * 3);
}

#[test]
fn crop_with_an_inset() {
    let image = blank(600, 400);
    let out = determine_crop_inset_bounds(&image, rect(25, 25, 575, 375), THREE_TWO, 10_000);
    assert_eq!(out, rect(40, 27, 559, 373));
    assert_eq!(out.width() * 2, out.height() * 3);
}

#[test]
fn crop_of_a_frame_that_is_too_tall() {
    let image = blank(600, 600);
    let out = determine_crop_inset_bounds(&image, rect(100, 50, 400, 450), THREE_TWO, 0);
    assert_eq!(out, rect(100, 150, 400, 350));
}

#[test]
fn crop_of_a_frame_of_the_right_ratio() {
    let image = blank(1000, 1000);
    let frame = rect(0, 0, 300, 200);
    assert_eq!(determine_crop_inset_bounds(&image, frame, THREE_TWO, 0), frame);
    assert_eq!(
        determine_crop_inset_bounds(&image, frame, THREE_TWO, 100_000),
        rect(50, 50, 250, 150)
    );
}

#[test]
fn crop_stays_inside_the_frame() {
    let image = blank(640, 480);
    for (frame, ratio, ppm) in [
        (rect(13, 7, 611, 455), AspectRatio { width: 7083, height: 10000 }, 10_000),
        (rect(13, 7, 611, 455), THREE_TWO, 25_000),
        (rect(0, 0, 1, 479), THREE_TWO, 0),
        (rect(5, 5, 5, 5), THREE_TWO, 10_000),
        (rect(10, 20, 630, 30), AspectRatio { width: 0, height: 1 }, 0),
    ] {
        let out = determine_crop_inset_bounds(&image, frame, ratio, ppm);
        assert!(frame.min_x <= out.min_x && out.min_x <= out.max_x && out.max_x <= frame.max_x);
        assert!(frame.min_y <= out.min_y && out.min_y <= out.max_y && out.max_y <= frame.max_y);
    }
}

#[test]
fn crop_with_an_inset_larger_than_the_frame_is_empty() {
    let image = blank(1000, 1000);
    let out = determine_crop_inset_bounds(&image, rect(10, 10, 20, 14), THREE_TWO, 100_000);
    assert_eq!(out, rect(15, 12, 15, 12));
}

#[test]
fn portrait_ratio_cuts_the_width() {
    let image = blank(300, 400);
    let ratio = AspectRatio { width: 7083, height: 10000 };
    let out = determine_crop_inset_bounds(&image, rect(0, 0, 300, 400), ratio, 0);
    assert_eq!((out.min_y, out.max_y), (0, 400));
    let got = out.width() as f64 / out.height() as f64;
    assert!((got - 0.7083).abs() < 1.0 / 400.0);
    assert_eq!(out, rect(8, 0, 291, 400));
}

#[test]
fn bounds_of_corners_are_raised_to_zero() {
    let corners = vec![(-3i64, 5i64), (10, -2), (7, 20), (0, 0)];
    assert_eq!(bounding_rectangle(&corners), rect(0, 0, 10, 20));
    assert_eq!(bounding_rectangle(&vec![(4, 9)]), rect(4, 9, 4, 9));
    assert_eq!(bounding_rectangle(&vec![]), rect(0, 0, 0, 0));
    assert_eq!(bounding_rectangle(&vec![(-5, -6), (-1, -2)]), rect(0, 0, 0, 0));
}

#[test]
fn rectangle_is_carried_to_full_resolution() {
    let out = scale_rectangle(rect(20, 20, 478, 312), 500, 333, 600, 400);
    assert_eq!(out, rect(24, 24, 573, 374));
    assert_eq!(scale_rectangle(rect(1, 2, 3, 4), 10, 10, 10, 10), rect(1, 2, 3, 4));
    assert_eq!(
        scale_rectangle(rect(0, 5, 500, 333), 500, 333, 6000, 4000),
        rect(0, 60, 6000, 4000)
    );
}

#[test]
fn points_are_carried_to_full_resolution() {
    let out = scale_points(&vec![(0, 0), (499, 332), (250, 100)], 500, 333, 600, 400);
    assert_eq!(out, vec![(0, 0), (598, 398), (300, 120)]);
}

#[test]
fn short_contours_are_dropped() {
    let contours = vec![
        vec![(1u32, 1u32), (2, 1), (3, 1)],
        vec![(9, 9), (8, 9)],
        vec![(5, 6), (5, 7), (5, 8), (5, 9)],
    ];
    assert_eq!(
        collect_contour_points(&contours, 2),
        vec![(1i64, 1i64), (2, 1), (3, 1), (5, 6), (5, 7), (5, 8), (5, 9)]
    );
    assert_eq!(collect_contour_points(&contours, 4), Vec::<(i64, i64)>::new());
    assert_eq!(collect_contour_points(&contours, 0).len(), 9);
}

fn mask(pixels: &[(u32, u32, u8)]) -> GrayRaster {
    let mut data = vec![255u8; 400];
    for (x, y, v) in pixels {
        data[(y * 20 + x) as usize] = *v;
    }
    GrayRaster::new(20, 20, data).unwrap()
}

#[test]
fn border_points_have_the_modal_value() {
    let img = mask(&[(2, 3, 100), (3, 3, 100), (10, 10, 100), (10, 2, 50), (15, 10, 100)]);
    let points = identify_border_points(rect(5, 5, 14, 14), &img).unwrap();
    assert_eq!(points, vec![(2, 3), (3, 3), (15, 10)]);
}

#[test]
fn border_points_of_equally_frequent_values_take_the_brighter() {
    let img = mask(&[(0, 0, 50), (1, 0, 50), (0, 19, 100), (19, 19, 100), (19, 0, 7)]);
    let points = identify_border_points(rect(5, 5, 14, 14), &img).unwrap();
    assert_eq!(points, vec![(0, 19), (19, 19)]);
}

#[test]
fn border_points_lie_in_the_margin() {
    // a margin of one pixel: columns 5 and 14 are in it, 6 and 13 are not
    let img = mask(&[(5, 10, 9), (6, 10, 9), (13, 10, 9), (14, 10, 9), (10, 5, 9), (10, 6, 9)]);
    let points = identify_border_points(rect(5, 5, 14, 14), &img).unwrap();
    assert_eq!(points, vec![(10, 5), (5, 10), (14, 10)]);
}

#[test]
fn mask_without_candidates_has_no_border_points() {
    let img = mask(&[(10, 10, 100)]);
    assert_eq!(
        identify_border_points(rect(5, 5, 14, 14), &img).err(),
        Some(GeometryError::NoBorderSamples)
    );
    let empty = GrayRaster::new(0, 0, vec![]).unwrap();
    assert_eq!(
        identify_border_points(rect(0, 0, 0, 0), &empty).err(),
        Some(GeometryError::NoBorderSamples)
    );
}
