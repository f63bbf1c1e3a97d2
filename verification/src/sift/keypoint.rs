//! The data the SIFT stages hand to one another.
use vstd::prelude::*;

verus! {

/// A one-channel image of `f32` samples, each held as its IEEE-754 bit
/// pattern, stored row by row.
pub struct LumaBits {
    pub width: u32,
    pub height: u32,
    /// `data[y * width + x]` holds the sample at column `x`, row `y`.
    pub data: Vec<u32>,
}

impl LumaBits {
    /// The buffer holds exactly one sample per pixel.
    pub open spec fn wf(&self) -> bool {
        self.data@.len() == self.width as int * self.height as int
    }

    /// The sample at column `x`, row `y`.
    pub open spec fn at(&self, x: int, y: int) -> u32 {
        self.data@[y * self.width + x]
    }

    /// The sample at column `x`, row `y`, which must lie inside the image.
    pub fn get_pixel(&self, x: u32, y: u32) -> (v: u32)
        requires
            self.wf(),
            x < self.width,
            y < self.height,
        ensures
            v == self.at(x as int, y as int),
    {
        // Reading the length bounds it by `usize::MAX`, and with it the index.
        let _len = self.data.len();
        proof {
            lemma_row_major_index(x as int, y as int, self.width as int, self.height as int);
        }
        self.data[y as usize * self.width as usize + x as usize]
    }
}

/// A pixel inside a `width` x `height` grid has a row-major index inside it.
pub proof fn lemma_row_major_index(x: int, y: int, width: int, height: int)
    requires
        0 <= x < width,
        0 <= y < height,
    ensures
        0 <= y * width + x < width * height,
{
    assert(y * width + x < width * height) by (nonlinear_arith)
        requires
            0 <= x < width,
            0 <= y < height,
    ;
    assert(0 <= y * width) by (nonlinear_arith)
        requires
            0 <= y,
            0 <= width,
    ;
}

/// A detected feature point.
///
/// `size`, `angle` and `response` are `f32` values held as their bit patterns.
#[derive(Clone, Copy)]
pub struct SIFTKeyPoint {
    /// Column, in the octave's own resolution until the coordinates are mapped
    /// back to the input image.
    pub x: u32,
    /// Row, as `x`.
    pub y: u32,
    pub size: u32,
    pub angle: u32,
    pub response: u32,
    /// The octave the point was found in.
    pub octave: usize,
    /// The difference-of-Gaussians scale inside the octave.
    pub scale: usize,
    /// The descriptor.
    pub feature: [u8; 128],
}

/// The Gaussian pyramid and its difference-of-Gaussians pyramid, one vector
/// of images per octave, the input image at the bottom.
pub struct DoGComputed {
    pub octave_cnt: usize,
    pub pyr_g: Vec<Vec<LumaBits>>,
    pub pyr_dog: Vec<Vec<LumaBits>>,
}

/// The pyramids together with the keypoints found in them.
pub struct DoGAndKPComputed {
    pub octave_cnt: usize,
    pub pyr_g: Vec<Vec<LumaBits>>,
    pub pyr_dog: Vec<Vec<LumaBits>>,
    pub keypoints: Vec<SIFTKeyPoint>,
}

/// A match: the point `(x1, y1)` of the first image and `(x2, y2)` of the
/// second.
#[derive(Debug, Clone, Copy, PartialEq, Eq, Structural)]
pub struct PointPair {
    pub x1: u32,
    pub y1: u32,
    pub x2: u32,
    pub y2: u32,
}

impl Default for PointPair {
    fn default() -> (pp: PointPair)
        ensures
            pp == (PointPair { x1: 0, y1: 0, x2: 0, y2: 0 }),
    {
        PointPair { x1: 0, y1: 0, x2: 0, y2: 0 }
    }
}

} // verus!
