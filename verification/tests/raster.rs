use yancy::conversion::{sample_reference, split_image};
use yancy::error::DecodeError;
use yancy::raster::{Border, Color, GrayRaster, Raster, Rectangle};

fn numbered(width: u32, height: u32) -> Raster {
    let data = (0..width * height * 3).map(|i| i as u16).collect();
    Raster::new(width, height, data).unwrap()
}

#[test]
fn raster_new_checks_the_sample_count() {
    assert!(Raster::new(2, 2, vec![0u16; 12]).is_some());
    assert!(Raster::new(2, 2, vec![0u16; 11]).is_none());
    assert!(Raster::new(2, 2, vec![0u16; 13]).is_none());
    assert!(Raster::new(0, 5, vec![]).is_some());
    assert!(GrayRaster::new(3, 2, vec![0u8; 6]).is_some());
    assert!(GrayRaster::new(3, 2, vec![0u8; 7]).is_none());
}

#[test]
fn raster_reports_what_it_holds() {
    let r = numbered(3, 2);
    assert_eq!((r.width(), r.height()), (3, 2));
    assert_eq!(r.samples().len(), 18);
    assert_eq!(r.pixel(0, 0), Color { r: 0, g: 1, b: 2 });
    assert_eq!(r.pixel(2, 1), Color { r: 15, g: 16, b: 17 });
    assert_eq!(r.pixel(1, 1).get(0), 12);
    assert_eq!(r.pixel(1, 1).get(1), 13);
    assert_eq!(r.pixel(1, 1).get(2), 14);
}

#[test]
fn decoded_data_must_be_sixteen_bit() {
    assert_eq!(
        Raster::from_decoded(2, 1, 8, vec![0; 6]).err(),
        Some(DecodeError::UnsupportedBitDepth { bits: 8 })
    );
    assert_eq!(
        Raster::from_decoded(2, 1, 14, vec![]).err(),
        Some(DecodeError::UnsupportedBitDepth { bits: 14 })
    );
}

#[test]
fn decoded_data_must_cover_the_dimensions() {
    assert_eq!(
        Raster::from_decoded(2, 1, 16, vec![0; 5]).err(),
        Some(DecodeError::BufferTooSmall)
    );
    let r = Raster::from_decoded(2, 1, 16, vec![1, 2, 3, 4, 5, 6, 7, 8, 9, 10, 11, 12]).unwrap();
    assert_eq!((r.width(), r.height()), (2, 1));
    assert_eq!(r.samples(), &vec![1, 2, 3, 4, 5, 6]);
}

#[test]
fn crop_is_clipped_to_the_raster() {
    let r = numbered(3, 2);
    let c = r.crop(1, 0, 5, 5);
    assert_eq!((c.width(), c.height()), (2, 2));
    assert_eq!(c.samples(), &vec![3, 4, 5, 6, 7, 8, 12, 13, 14, 15, 16, 17]);
    let c = r.crop(0, 1, 1, 1);
    assert_eq!(c.samples(), &vec![9, 10, 11]);
    let c = r.crop(3, 0, 1, 1);
    assert_eq!((c.width(), c.height()), (0, 1));
    assert!(c.samples().is_empty());
    let c = r.crop(7, 9, 1, 1);
    assert_eq!((c.width(), c.height()), (0, 0));
}

#[test]
fn split_gives_the_two_halves() {
    let [left, right] = split_image(numbered(5, 2));
    assert_eq!((left.width(), left.height()), (2, 2));
    assert_eq!((right.width(), right.height()), (2, 2));
    assert_eq!(left.samples(), &vec![0, 1, 2, 3, 4, 5, 15, 16, 17, 18, 19, 20]);
    assert_eq!(right.samples(), &vec![6, 7, 8, 9, 10, 11, 21, 22, 23, 24, 25, 26]);
}

#[test]
fn rectangle_extents_never_underflow() {
    let r = Rectangle { min_x: 3, min_y: 9, max_x: 10, max_y: 4 };
    assert_eq!((r.width(), r.height()), (7, 0));
}

#[test]
fn border_fits_only_with_samples_inside() {
    let r = numbered(3, 2);
    let bounds = Rectangle { min_x: 0, min_y: 0, max_x: 3, max_y: 2 };
    assert!(Border { bounds, samples: vec![(0, 0), (2, 1)] }.check_fits(&r));
    assert!(!Border { bounds, samples: vec![(0, 0), (3, 1)] }.check_fits(&r));
    assert!(!Border { bounds, samples: vec![(0, 2)] }.check_fits(&r));
    assert!(!Border { bounds, samples: vec![] }.check_fits(&r));
}

#[test]
fn duplicate_is_an_equal_raster() {
    let r = numbered(3, 2);
    let copy = r.duplicate();
    assert_eq!((copy.width(), copy.height()), (3, 2));
    assert_eq!(copy.samples(), r.samples());
}

#[test]
fn samples_on_one_colour_give_that_colour() {
    let mut data = Vec::new();
    for _ in 0..6 {
        data.extend_from_slice(&[30000u16, 24000, 18000]);
    }
    data[3] = 7;
    let r = Raster::new(3, 2, data).unwrap();
    let bounds = Rectangle { min_x: 0, min_y: 0, max_x: 3, max_y: 2 };
    let border = Border { bounds, samples: vec![(0, 0), (2, 0), (2, 1), (0, 1)] };
    assert_eq!(sample_reference(&r, &border), Color { r: 30000, g: 24000, b: 18000 });
    let border = Border { bounds, samples: vec![(0, 0), (1, 0)] };
    assert_eq!(sample_reference(&r, &border), Color { r: 21213, g: 24000, b: 18000 });
}
