use yancy::border::{locate_border, prepare_analysis};
use yancy::conversion::{
    calibrate_and_crop, convert, convert_traced, determine_crop_inset_bounds, sample_reference,
    white_balance,
};
use yancy::error::{ConvertError, GeometryError};
use yancy::raster::{AspectRatio, Color, Raster, Rectangle};

const BACKING: [u16; 3] = [30000, 24000, 18000];

/// A 600 by 400 scan: a rim of leaked light, a ring of film backing with a
/// slightly brighter patch, and a textured frame of 550 by 350 at (25, 25).
fn scan() -> Raster {
    let (width, height) = (600u32, 400u32);
    let mut data = Vec::with_capacity((width * height * 3) as usize);
    for y in 0..height {
        for x in 0..width {
            let edge = x.min(y).min(width - 1 - x).min(height - 1 - y);
            let px: [u16; 3] = if edge < 10 {
                [65535, 65535, 65535]
            } else if edge < 25 {
                if x < 60 && y < 25 {
                    [31000, 25000, 19000]
                } else {
                    BACKING
                }
            } else {
                let level = 3000 + (((x / 12) * 31 + (y / 12) * 17) % 16) as u16 * 1200;
                [level, level, level]
            };
            data.extend_from_slice(&px);
        }
    }
    Raster::new(width, height, data).unwrap()
}

fn close(a: u32, b: u32, tolerance: u32) -> bool {
    a.abs_diff(b) <= tolerance
}

#[test]
fn all_black_raster_has_no_border() {
    let raster = Raster::new(600, 400, vec![0u16; 600 * 400 * 3]).unwrap();
    assert_eq!(locate_border(&raster).err(), Some(GeometryError::NoContour));
    assert_eq!(
        convert(&raster, AspectRatio { width: 3, height: 2 }, 0).err(),
        Some(ConvertError::Geometry(GeometryError::NoContour))
    );
}

#[test]
fn raster_without_pixels_has_no_border() {
    let raster = Raster::new(0, 0, vec![]).unwrap();
    assert!(prepare_analysis(&raster).is_none());
    assert_eq!(locate_border(&raster).err(), Some(GeometryError::NoContour));
    let flat = Raster::new(700, 0, vec![]).unwrap();
    assert_eq!(locate_border(&flat).err(), Some(GeometryError::NoContour));
}

#[test]
fn uniform_frame_on_uniform_border_leaves_no_edge() {
    let mut data = Vec::new();
    for y in 0..400u32 {
        for x in 0..600u32 {
            let inside = (25..575).contains(&x) && (25..375).contains(&y);
            let v: u16 = if inside { 40000 } else { 5000 };
            data.extend_from_slice(&[v, v, v]);
        }
    }
    let raster = Raster::new(600, 400, data).unwrap();
    let analysis = prepare_analysis(&raster).unwrap();
    assert!(analysis.edges.samples().iter().all(|v| *v == 0));
    assert_eq!(locate_border(&raster).err(), Some(GeometryError::NoContour));
}

#[test]
fn analysis_copy_is_downscaled_and_normalised() {
    let analysis = prepare_analysis(&scan()).unwrap();
    for stage in [
        &analysis.grayscale,
        &analysis.pre_border_removal,
        &analysis.borderless,
        &analysis.edges,
    ] {
        assert_eq!((stage.width(), stage.height()), (500, 333));
        assert_eq!(stage.samples().len(), 500 * 333);
    }
    // the leaked light is the brightest part of the normalised copy
    assert_eq!(analysis.grayscale.samples()[0], 255);
    // and is cleared before the second normalisation and whitened in the mask
    assert_eq!(analysis.pre_border_removal.samples()[0], 0);
    assert_eq!(analysis.borderless.samples()[0], 255);
}

#[test]
fn analysis_stages_have_known_content() {
    let analysis = prepare_analysis(&scan()).unwrap();
    assert!(analysis.edges.samples().iter().all(|v| *v == 0 || *v == 255));
    let edge_pixels = analysis.edges.samples().iter().filter(|v| **v == 255).count();
    assert_eq!(edge_pixels, 12748);
    let white = analysis.borderless.samples().iter().filter(|v| **v == 255).count();
    assert_eq!(white, 30644);
    let backing = analysis.borderless.samples().iter().filter(|v| **v == 251).count();
    assert_eq!(backing, 16770);
}

#[test]
fn synthetic_scan_frame_is_located() {
    let raster = scan();
    let border = locate_border(&raster).unwrap();
    assert!(close(border.bounds.min_x, 25, 5));
    assert!(close(border.bounds.min_y, 25, 5));
    assert!(close(border.bounds.max_x, 575, 5));
    assert!(close(border.bounds.max_y, 375, 5));
    assert_eq!(
        border.bounds,
        Rectangle { min_x: 24, min_y: 24, max_x: 574, max_y: 374 }
    );
    assert!(border.bounds.max_x <= raster.width() && border.bounds.max_y <= raster.height());
    assert!(border.check_fits(&raster));
    assert_eq!(border.samples.len(), 16770);
}

#[test]
fn synthetic_scan_crop_has_target_ratio() {
    let raster = scan();
    let border = locate_border(&raster).unwrap();
    let ratio = AspectRatio { width: 3, height: 2 };
    let crop = determine_crop_inset_bounds(&raster, border.bounds, ratio, 0);
    assert_eq!(crop, Rectangle { min_x: 36, min_y: 24, max_x: 561, max_y: 374 });
    let got = crop.width() as f64 / crop.height() as f64;
    assert!((got - 1.5).abs() < 0.01);
    assert!(close(crop.min_y, 25, 5) && close(crop.max_y, 375, 5));
    let out = convert(&raster, ratio, 0).unwrap();
    assert_eq!((out.width(), out.height()), (525, 350));
    let got = out.width() as f64 / out.height() as f64;
    assert!((got - 1.5).abs() < 0.01);
}

#[test]
fn border_samples_recover_backing_colour() {
    let raster = scan();
    let border = locate_border(&raster).unwrap();
    let hits = border
        .samples
        .iter()
        .filter(|(x, y)| raster.pixel(*x, *y) == Color { r: 30000, g: 24000, b: 18000 })
        .count();
    assert!(hits * 100 >= border.samples.len() * 99);
    let reference = sample_reference(&raster, &border);
    assert_eq!(reference, Color { r: 29928, g: 23943, b: 17959 });
    assert!(close(reference.r as u32, 30000, 300));
    assert!(close(reference.g as u32, 24000, 240));
    assert!(close(reference.b as u32, 18000, 180));

    // balancing against the backing colour turns the backing neutral gray
    let mut patch = Raster::new(2, 1, [BACKING, BACKING].concat()).unwrap();
    white_balance(&mut patch, Color { r: 30000, g: 24000, b: 18000 });
    assert_eq!(patch.samples(), &vec![14652u16; 6]);
}

#[test]
fn conversion_is_the_chain_of_its_stages() {
    let raster = scan();
    let ratio = AspectRatio { width: 3, height: 2 };
    let border = locate_border(&raster).unwrap();
    let crop = determine_crop_inset_bounds(&raster, border.bounds, ratio, 10_000);
    let mut staged = calibrate_and_crop(&raster, &border, crop).unwrap();
    yancy::histogram::stretch_channels_mut(&mut staged).unwrap();
    let whole = convert(&raster, ratio, 10_000).unwrap();
    assert_eq!((staged.width(), staged.height()), (whole.width(), whole.height()));
    assert_eq!(staged.samples(), whole.samples());
}

#[test]
fn crop_outside_the_scan_is_an_error() {
    let raster = scan();
    let border = locate_border(&raster).unwrap();
    let outside = Rectangle { min_x: 600, min_y: 0, max_x: 700, max_y: 100 };
    assert_eq!(
        calibrate_and_crop(&raster, &border, outside).err(),
        Some(GeometryError::EmptyCrop)
    );
    let line = Rectangle { min_x: 10, min_y: 10, max_x: 10, max_y: 100 };
    assert_eq!(
        calibrate_and_crop(&raster, &border, line).err(),
        Some(GeometryError::EmptyCrop)
    );
}

#[test]
fn traced_conversion_gives_the_same_result_and_its_stages() {
    let raster = scan();
    let ratio = AspectRatio { width: 3, height: 2 };
    let plain = convert(&raster, ratio, 10_000).unwrap();
    let (result, trace) = convert_traced(&raster, ratio, 10_000);
    let traced = result.unwrap();
    assert_eq!((traced.width(), traced.height()), (plain.width(), plain.height()));
    assert_eq!(traced.samples(), plain.samples());

    let analysis = trace.analysis.unwrap();
    let again = prepare_analysis(&raster).unwrap();
    assert_eq!(analysis.edges.samples(), again.edges.samples());
    assert_eq!(analysis.borderless.samples(), again.borderless.samples());
    let border = trace.border.unwrap();
    assert_eq!(border.bounds, locate_border(&raster).unwrap().bounds);
    let crop = trace.crop.unwrap();
    assert_eq!(crop, determine_crop_inset_bounds(&raster, border.bounds, ratio, 10_000));
    let inverted = trace.inverted.unwrap();
    let staged = calibrate_and_crop(&raster, &border, crop).unwrap();
    assert_eq!(inverted.samples(), staged.samples());
    assert_ne!(inverted.samples(), traced.samples());
}

#[test]
fn traced_conversion_that_fails_keeps_what_it_reached() {
    let black = Raster::new(60, 40, vec![0u16; 60 * 40 * 3]).unwrap();
    let (result, trace) = convert_traced(&black, AspectRatio { width: 3, height: 2 }, 0);
    assert_eq!(result.err(), Some(ConvertError::Geometry(GeometryError::NoContour)));
    assert!(trace.analysis.is_some());
    assert!(trace.border.is_none() && trace.crop.is_none() && trace.inverted.is_none());
    let empty = Raster::new(0, 0, vec![]).unwrap();
    let (result, trace) = convert_traced(&empty, AspectRatio { width: 3, height: 2 }, 0);
    assert_eq!(result.err(), Some(ConvertError::Geometry(GeometryError::NoContour)));
    assert!(trace.analysis.is_none());
}

#[test]
fn converted_scan_uses_the_full_range() {
    let out = convert(&scan(), AspectRatio { width: 3, height: 2 }, 0).unwrap();
    for channel in 0..3 {
        let values = out.samples().iter().skip(channel).step_by(3);
        assert_eq!(values.clone().min(), Some(&0));
        assert_eq!(values.max(), Some(&65535));
    }
}
