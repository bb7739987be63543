//! Pixel grids and the geometry that refers to them.

use crate::error::DecodeError;
use vstd::arithmetic::div_mod::lemma_fundamental_div_mod_converse;
use vstd::prelude::*;

verus! {

/// Largest value a colour sample can take.
pub const MAX_SAMPLE: u16 = 65535;

/// Mathematical model of a pixel grid: `samples` is row-major with the origin
/// top-left. A colour grid holds three consecutive samples per pixel, a gray
/// grid one.
pub struct Grid<T> {
    pub width: nat,
    pub height: nat,
    pub samples: Seq<T>,
}

/// Position of channel `c` of the pixel at (`x`, `y`) in a colour grid that is
/// `width` pixels wide.
pub open spec fn sample_index(width: nat, x: nat, y: nat, c: nat) -> nat {
    (y * width + x) * 3 + c
}

/// In a grid of `rows` rows of `cols` cells, cell `col` of row `row` has a
/// row-major index below `rows * cols`.
pub proof fn lemma_row_major_bound(row: nat, rows: nat, col: nat, cols: nat)
    requires
        row < rows,
        col < cols,
    ensures
        row * cols + col < rows * cols,
{
    assert(row * cols + col < rows * cols) by (nonlinear_arith)
        requires
            row + 1 <= rows,
            col < cols,
    ;
}

/// One colour: a sample per channel.
#[derive(Clone, Copy, Debug, PartialEq, Eq, Structural)]
pub struct Color {
    pub r: u16,
    pub g: u16,
    pub b: u16,
}

impl Color {
    /// The sample of channel `c` (0 red, 1 green, anything else blue).
    pub open spec fn channel(self, c: int) -> u16 {
        if c == 0 {
            self.r
        } else if c == 1 {
            self.g
        } else {
            self.b
        }
    }

    /// Returns the sample of channel `c` (0 red, 1 green, anything else blue).
    pub fn get(&self, c: usize) -> (v: u16)
        ensures
            v == self.channel(c as int),
    {
        if c == 0 {
            self.r
        } else if c == 1 {
            self.g
        } else {
            self.b
        }
    }
}

/// An axis-aligned rectangle in the pixel units of some raster.
#[derive(Clone, Copy, Debug, PartialEq, Eq, Structural)]
pub struct Rectangle {
    pub min_x: u32,
    pub min_y: u32,
    pub max_x: u32,
    pub max_y: u32,
}

impl Rectangle {
    /// The lower bound does not exceed the upper bound on either axis.
    pub open spec fn wf(self) -> bool {
        self.min_x <= self.max_x && self.min_y <= self.max_y
    }

    /// `self` lies inside `outer`.
    pub open spec fn within(self, outer: Rectangle) -> bool {
        &&& outer.min_x <= self.min_x
        &&& self.max_x <= outer.max_x
        &&& outer.min_y <= self.min_y
        &&& self.max_y <= outer.max_y
    }

    /// Horizontal extent, 0 where the bounds are out of order.
    pub open spec fn spec_width(self) -> nat {
        if self.max_x >= self.min_x {
            (self.max_x - self.min_x) as nat
        } else {
            0
        }
    }

    /// Vertical extent, 0 where the bounds are out of order.
    pub open spec fn spec_height(self) -> nat {
        if self.max_y >= self.min_y {
            (self.max_y - self.min_y) as nat
        } else {
            0
        }
    }

    /// Returns the horizontal extent, 0 where the bounds are out of order.
    pub fn width(&self) -> (w: u32)
        ensures
            w == self.spec_width(),
    {
        if self.max_x >= self.min_x {
            self.max_x - self.min_x
        } else {
            0
        }
    }

    /// Returns the vertical extent, 0 where the bounds are out of order.
    pub fn height(&self) -> (h: u32)
        ensures
            h == self.spec_height(),
    {
        if self.max_y >= self.min_y {
            self.max_y - self.min_y
        } else {
            0
        }
    }
}

/// A target aspect ratio, `width : height`.
#[derive(Clone, Copy, Debug, PartialEq, Eq, Structural)]
pub struct AspectRatio {
    pub width: u32,
    pub height: u32,
}

impl AspectRatio {
    /// The ratio has a denominator: its height is not 0.
    pub open spec fn wf(self) -> bool {
        self.height > 0
    }
}

/// The located film frame together with the pixels taken to show the film
/// backing, both in full-resolution coordinates.
#[derive(Debug)]
pub struct Border {
    pub bounds: Rectangle,
    pub samples: Vec<(u32, u32)>,
}

impl Border {
    /// The border has samples and each of them is a pixel of `grid`.
    pub open spec fn fits(&self, grid: Grid<u16>) -> bool {
        &&& self.samples@.len() > 0
        &&& forall|i: int|
            0 <= i < self.samples@.len() ==> (#[trigger] self.samples@[i]).0 < grid.width
                && self.samples@[i].1 < grid.height
    }

    /// Tells whether the border has samples and each of them is a pixel of
    /// `raster`.
    pub fn check_fits(&self, raster: &Raster) -> (ok: bool)
        ensures
            ok == self.fits(raster@),
    {
        if self.samples.len() == 0 {
            return false;
        }
        let mut i: usize = 0;
        while i < self.samples.len()
            invariant
                i <= self.samples@.len(),
                forall|j: int|
                    0 <= j < i ==> (#[trigger] self.samples@[j]).0 < raster@.width
                        && self.samples@[j].1 < raster@.height,
            decreases self.samples@.len() - i,
        {
            let p = self.samples[i];
            if p.0 >= raster.width || p.1 >= raster.height {
                return false;
            }
            i += 1;
        }
        true
    }
}

/// A 16-bit, three-channel raster: the working image.
#[derive(Debug)]
pub struct Raster {
    pub(crate) width: u32,
    pub(crate) height: u32,
    pub(crate) data: Vec<u16>,
}

impl View for Raster {
    type V = Grid<u16>;

    open(crate) spec fn view(&self) -> Grid<u16> {
        Grid { width: self.width as nat, height: self.height as nat, samples: self.data@ }
    }
}

/// The region of `src` that a crop at (`x`, `y`) of `width` by `height` pixels
/// keeps: the request clipped to the grid.
pub open spec fn crop_region(src: Grid<u16>, x: nat, y: nat, width: nat, height: nat) -> (
    nat,
    nat,
    nat,
    nat,
) {
    let x0 = if x < src.width {
        x
    } else {
        src.width
    };
    let y0 = if y < src.height {
        y
    } else {
        src.height
    };
    let w = if width < src.width - x0 {
        width
    } else {
        (src.width - x0) as nat
    };
    let h = if height < src.height - y0 {
        height
    } else {
        (src.height - y0) as nat
    };
    (x0, y0, w, h)
}

/// The colour grid cut out of `src` at (`x`, `y`), `width` by `height` pixels,
/// clipped to `src`: channel `c` of its pixel (`px`, `py`) is channel `c` of
/// the pixel (`x0 + px`, `y0 + py`) of `src`.
pub open spec fn cropped(src: Grid<u16>, x: nat, y: nat, width: nat, height: nat) -> Grid<u16> {
    let (x0, y0, w, h) = crop_region(src, x, y, width, height);
    Grid {
        width: w,
        height: h,
        samples: Seq::new(
            3 * w * h,
            |i: int|
                src.samples[sample_index(
                    src.width,
                    x0 + ((i / 3) % (w as int)) as nat,
                    y0 + ((i / 3) / (w as int)) as nat,
                    (i % 3) as nat,
                ) as int],
        ),
    }
}

impl Raster {
    /// The invariant of a raster: three samples for every pixel.
    pub open(crate) spec fn wf(&self) -> bool {
        self.data@.len() == 3 * self.width * self.height
    }

    /// Builds a raster from row-major samples, three per pixel. Fails when
    /// `data` does not hold exactly `3 * width * height` samples.
    pub fn new(width: u32, height: u32, data: Vec<u16>) -> (r: Option<Raster>)
        ensures
            r is Some <==> data@.len() == 3 * width * height,
            r matches Some(raster) ==> raster.wf() && raster@ == (Grid {
                width: width as nat,
                height: height as nat,
                samples: data@,
            }),
    {
        assert(width * height <= 0xffff_ffff * 0xffff_ffff) by (nonlinear_arith)
            requires
                width <= 0xffff_ffff,
                height <= 0xffff_ffff,
        ;
        let pixels: u64 = (width as u64) * (height as u64);
        let needed: u128 = 3 * (pixels as u128);
        assert(needed == 3 * width * height) by (nonlinear_arith)
            requires
                needed == 3 * pixels,
                pixels == width * height,
        ;
        if data.len() as u128 == needed {
            Some(Raster { width, height, data })
        } else {
            None
        }
    }

    /// Accepts what a decoder delivered: `bits` must be 16 and `samples` must
    /// cover the dimensions; samples beyond them are dropped.
    pub fn from_decoded(width: u16, height: u16, bits: u16, samples: Vec<u16>) -> (r: Result<
        Raster,
        DecodeError,
    >)
        ensures
            bits != 16 ==> r == Err::<Raster, DecodeError>(
                DecodeError::UnsupportedBitDepth { bits },
            ),
            bits == 16 && samples@.len() < 3 * width * height ==> r == Err::<Raster, DecodeError>(
                DecodeError::BufferTooSmall,
            ),
            bits == 16 && samples@.len() >= 3 * width * height ==> r is Ok && r->Ok_0.wf()
                && r->Ok_0@ == (Grid {
                width: width as nat,
                height: height as nat,
                samples: samples@.take(3 * width * height),
            }),
    {
        if bits != 16 {
            return Err(DecodeError::UnsupportedBitDepth { bits });
        }
        assert(width * height <= 0xffff * 0xffff) by (nonlinear_arith)
            requires
                width <= 0xffff,
                height <= 0xffff,
        ;
        let pixels: u64 = (width as u64) * (height as u64);
        let needed: u64 = 3 * pixels;
        assert(needed == 3 * width * height) by (nonlinear_arith)
            requires
                needed == 3 * pixels,
                pixels == width * height,
        ;
        if (samples.len() as u64) < needed {
            return Err(DecodeError::BufferTooSmall);
        }
        let mut data = samples;
        data.truncate(needed as usize);
        Ok(Raster { width: width as u32, height: height as u32, data })
    }

    /// Returns the width in pixels.
    pub fn width(&self) -> (w: u32)
        ensures
            w == self@.width,
    {
        self.width
    }

    /// Returns the height in pixels.
    pub fn height(&self) -> (h: u32)
        ensures
            h == self@.height,
    {
        self.height
    }

    /// Returns the samples, row-major, three per pixel.
    pub fn samples(&self) -> (s: &Vec<u16>)
        ensures
            s@ == self@.samples,
    {
        &self.data
    }

    /// Returns a copy of the raster.
    pub fn duplicate(&self) -> (copy: Raster)
        ensures
            copy@ == self@,
            self.wf() ==> copy.wf(),
    {
        let mut data: Vec<u16> = Vec::new();
        let mut i: usize = 0;
        while i < self.data.len()
            invariant
                i <= self.data@.len(),
                data@ == self.data@.take(i as int),
            decreases self.data@.len() - i,
        {
            data.push(self.data[i]);
            proof {
                assert(self.data@.take(i + 1) =~= self.data@.take(i as int).push(
                    self.data@[i as int],
                ));
            }
            i += 1;
        }
        proof {
            assert(self.data@.take(self.data@.len() as int) =~= self.data@);
        }
        Raster { width: self.width, height: self.height, data }
    }

    /// Returns the position of the first sample of the pixel at (`x`, `y`).
    #[verifier::rlimit(50)]
    pub(crate) fn pixel_base(&self, x: u32, y: u32) -> (base: usize)
        requires
            self.wf(),
            x < self@.width,
            y < self@.height,
        ensures
            base == sample_index(self@.width, x as nat, y as nat, 0),
            base + 3 <= self@.samples.len(),
            base + 3 <= usize::MAX,
    {
        proof {
            assert(self.data.len() <= usize::MAX);
            assert(y * self.width <= 0xffff_ffff * 0xffff_ffff) by (nonlinear_arith)
                requires
                    y <= 0xffff_ffff,
                    self.width <= 0xffff_ffff,
            ;
            lemma_row_major_bound(y as nat, self.height as nat, x as nat, self.width as nat);
            assert(3 * (y * self.width + x) + 3 <= 3 * self.width * self.height)
                by (nonlinear_arith)
                requires
                    y * self.width + x < self.height * self.width,
            ;
            assert(y * self.width <= y * self.width + x);
        }
        let p: u64 = (y as u64) * (self.width as u64) + (x as u64);
        (p * 3) as usize
    }

    /// Returns the colour of the pixel at (`x`, `y`).
    pub fn pixel(&self, x: u32, y: u32) -> (c: Color)
        requires
            self.wf(),
            x < self@.width,
            y < self@.height,
        ensures
            c.r == self@.samples[sample_index(self@.width, x as nat, y as nat, 0) as int],
            c.g == self@.samples[sample_index(self@.width, x as nat, y as nat, 1) as int],
            c.b == self@.samples[sample_index(self@.width, x as nat, y as nat, 2) as int],
    {
        let base: usize = self.pixel_base(x, y);
        Color { r: self.data[base], g: self.data[base + 1], b: self.data[base + 2] }
    }

    /// Cuts out the pixels from (`x`, `y`) on, `width` by `height`, clipped to
    /// the raster.
    #[verifier::rlimit(50)]
    pub fn crop(&self, x: u32, y: u32, width: u32, height: u32) -> (out: Raster)
        requires
            self.wf(),
        ensures
            out.wf(),
            out@ == cropped(self@, x as nat, y as nat, width as nat, height as nat),
    {
        let x0: u32 = if x < self.width {
            x
        } else {
            self.width
        };
        let y0: u32 = if y < self.height {
            y
        } else {
            self.height
        };
        let w: u32 = if width < self.width - x0 {
            width
        } else {
            self.width - x0
        };
        let h: u32 = if height < self.height - y0 {
            height
        } else {
            self.height - y0
        };
        let ghost goal = cropped(self@, x as nat, y as nat, width as nat, height as nat);
        let mut data: Vec<u16> = Vec::new();
        let mut row: u32 = 0;
        while row < h
            invariant
                self.wf(),
                row <= h,
                x0 + w <= self.width,
                y0 + h <= self.height,
                goal == cropped(self@, x as nat, y as nat, width as nat, height as nat),
                crop_region(self@, x as nat, y as nat, width as nat, height as nat) == (
                    x0 as nat,
                    y0 as nat,
                    w as nat,
                    h as nat,
                ),
                data@.len() == 3 * (row * w),
                forall|i: int| 0 <= i < data@.len() ==> data@[i] == #[trigger] goal.samples[i],
            decreases h - row,
        {
            let mut col: u32 = 0;
            while col < w
                invariant
                    self.wf(),
                    row < h,
                    col <= w,
                    x0 + w <= self.width,
                    y0 + h <= self.height,
                    goal == cropped(self@, x as nat, y as nat, width as nat, height as nat),
                    crop_region(self@, x as nat, y as nat, width as nat, height as nat) == (
                        x0 as nat,
                        y0 as nat,
                        w as nat,
                        h as nat,
                    ),
                    data@.len() == 3 * (row * w + col),
                    forall|i: int| 0 <= i < data@.len() ==> data@[i] == #[trigger] goal.samples[i],
                decreases w - col,
            {
                let base: usize = self.pixel_base(x0 + col, y0 + row);
                proof {
                    let p = (row * w + col) as int;
                    lemma_row_major_bound(row as nat, h as nat, col as nat, w as nat);
                    assert(3 * p + 3 <= 3 * w * h) by (nonlinear_arith)
                        requires
                            p < h * w,
                    ;
                    lemma_fundamental_div_mod_converse(p, w as int, row as int, col as int);
                    lemma_fundamental_div_mod_converse(3 * p, 3, p, 0);
                    lemma_fundamental_div_mod_converse(3 * p + 1, 3, p, 1);
                    lemma_fundamental_div_mod_converse(3 * p + 2, 3, p, 2);
                    assert(goal.samples[3 * p] == self.data@[base as int]);
                    assert(goal.samples[3 * p + 1] == self.data@[base + 1]);
                    assert(goal.samples[3 * p + 2] == self.data@[base + 2]);
                }
                data.push(self.data[base]);
                data.push(self.data[base + 1]);
                data.push(self.data[base + 2]);
                col += 1;
            }
            proof {
                assert((row + 1) * w == row * w + w) by (nonlinear_arith);
            }
            row += 1;
        }
        proof {
            assert(3 * (h * w) == 3 * w * h) by (nonlinear_arith);
            assert(data@ =~= goal.samples);
        }
        Raster { width: w, height: h, data }
    }
}

/// An 8-bit, single-channel raster: the analysis image.
#[derive(Debug)]
pub struct GrayRaster {
    pub(crate) width: u32,
    pub(crate) height: u32,
    pub(crate) data: Vec<u8>,
}

impl View for GrayRaster {
    type V = Grid<u8>;

    open(crate) spec fn view(&self) -> Grid<u8> {
        Grid { width: self.width as nat, height: self.height as nat, samples: self.data@ }
    }
}

impl GrayRaster {
    /// The invariant of a gray raster: one sample for every pixel.
    pub open(crate) spec fn wf(&self) -> bool {
        self.data@.len() == self.width * self.height
    }

    /// Builds a gray raster from row-major samples. Fails when `data` does not
    /// hold exactly `width * height` samples.
    pub fn new(width: u32, height: u32, data: Vec<u8>) -> (r: Option<GrayRaster>)
        ensures
            r is Some <==> data@.len() == width * height,
            r matches Some(raster) ==> raster.wf() && raster@ == (Grid {
                width: width as nat,
                height: height as nat,
                samples: data@,
            }),
    {
        assert(width * height <= 0xffff_ffff * 0xffff_ffff) by (nonlinear_arith)
            requires
                width <= 0xffff_ffff,
                height <= 0xffff_ffff,
        ;
        let needed: u64 = (width as u64) * (height as u64);
        if data.len() as u64 == needed {
            Some(GrayRaster { width, height, data })
        } else {
            None
        }
    }

    /// Returns the width in pixels.
    pub fn width(&self) -> (w: u32)
        ensures
            w == self@.width,
    {
        self.width
    }

    /// Returns the height in pixels.
    pub fn height(&self) -> (h: u32)
        ensures
            h == self@.height,
    {
        self.height
    }

    /// Returns the samples, row-major.
    pub fn samples(&self) -> (s: &Vec<u8>)
        ensures
            s@ == self@.samples,
    {
        &self.data
    }
}

} // verus!
