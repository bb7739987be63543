use yancy::border::{locate_border, prepare_analysis};
use yancy::raster::{Raster, Rectangle};

fn gray_scan(width: u32, height: u32, value: impl Fn(u32, u32) -> u16) -> Raster {
    let mut data = Vec::new();
    for y in 0..height {
        for x in 0..width {
            let v = value(x, y);
            data.extend_from_slice(&[v, v, v]);
        }
    }
    Raster::new(width, height, data).unwrap()
}

#[test]
fn small_scan_is_analysed_at_full_size() {
    let scan = gray_scan(30, 20, |x, _| 1000 * x as u16);
    let analysis = prepare_analysis(&scan).unwrap();
    assert_eq!((analysis.grayscale.width(), analysis.grayscale.height()), (30, 20));
    assert_eq!((analysis.edges.width(), analysis.edges.height()), (30, 20));
    let wide = gray_scan(1000, 20, |x, _| 60 * x as u16);
    let analysis = prepare_analysis(&wide).unwrap();
    assert_eq!((analysis.edges.width(), analysis.edges.height()), (500, 10));
}

#[test]
fn median_filter_removes_a_speck() {
    // leaked light above, a dark and a mid tone, and one brighter pixel in the mid tone
    let scan = gray_scan(30, 30, |x, y| {
        if y < 3 || (x == 0 && y == 3) {
            65535
        } else if x == 15 && y == 22 {
            40000
        } else if y < 17 && (x, y) != (1, 3) {
            10000
        } else {
            30000
        }
    });
    let analysis = prepare_analysis(&scan).unwrap();
    let speck = 22 * 30 + 15;
    assert_eq!(analysis.grayscale.samples()[speck], 229);
    assert_eq!(analysis.grayscale.samples()[speck + 1], 228);
    assert_eq!(analysis.pre_border_removal.samples()[speck], 255);
    assert_eq!(analysis.pre_border_removal.samples()[speck + 1], 254);
    assert_eq!(analysis.borderless.samples()[speck], 254);
    assert_eq!(analysis.borderless.samples()[speck + 1], 254);
}

#[test]
fn contrast_brings_out_a_faint_island() {
    // an island only a little brighter than the tone around it
    let scan = gray_scan(60, 60, |x, y| {
        if y < 6 {
            65535
        } else if (20..34).contains(&x) && (12..26).contains(&y) {
            20000
        } else if y < 33 {
            10000
        } else {
            30000
        }
    });
    let analysis = prepare_analysis(&scan).unwrap();
    let island = analysis.borderless.samples()[18 * 60 + 27];
    let around = analysis.borderless.samples()[18 * 60 + 10];
    assert_eq!((around, island), (112, 127));
    let mut near_island = 0;
    for y in 8..30 {
        for x in 15..39 {
            if analysis.edges.samples()[y * 60 + x] == 255 {
                near_island += 1;
            }
        }
    }
    assert_eq!(near_island, 72);
}

#[test]
fn rotated_frame_bounds_reach_past_the_scan() {
    // a frame along the diagonal: the least rectangle around it is rotated,
    // and its corners lie outside the scan
    let scan = gray_scan(200, 200, |x, y| {
        let d = x as i32 - y as i32;
        if y < 14 {
            65535
        } else if y < 20 && x < 30 {
            31000
        } else if d.abs() <= 50 && (20..=180).contains(&x) && (20..=180).contains(&y) {
            3000 + (((x / 6) * 31 + (y / 6) * 17) % 16) as u16 * 1200
        } else {
            30000
        }
    });
    let border = locate_border(&scan).unwrap();
    assert_eq!(border.bounds, Rectangle { min_x: 0, min_y: 0, max_x: 202, max_y: 202 });
    assert!(border.bounds.max_x > scan.width());
    assert!(border.check_fits(&scan));
    assert_eq!(border.samples.len(), 4383);
}
