//! In-memory images: 8-bit grayscale, RGB and RGBA rasters stored row-major,
//! and the conversion from RGBA to grayscale.

use vstd::prelude::*;

use crate::grid::{grid_at, lemma_cell_index};

verus! {

/// A grayscale image: one byte per pixel, rows stored one after another.
pub struct GrayImage {
    pub width: u32,
    pub height: u32,
    pub pixels: Vec<u8>,
}

/// An RGBA image: four bytes (red, green, blue, alpha) per pixel, row-major.
pub struct RgbaImage {
    pub width: u32,
    pub height: u32,
    pub pixels: Vec<[u8; 4]>,
}

/// An RGB image: three bytes (red, green, blue) per pixel, row-major.
pub struct RgbImage {
    pub width: u32,
    pub height: u32,
    pub pixels: Vec<[u8; 3]>,
}

/// The colour of an RGBA pixel, without its alpha.
pub open spec fn rgb_of(p: [u8; 4]) -> [u8; 3] {
    [p[0], p[1], p[2]]
}

/// Opaque black.
pub open spec fn black() -> [u8; 4] {
    [0u8, 0u8, 0u8, 255u8]
}

impl GrayImage {
    /// The buffer holds exactly one byte per pixel.
    pub open spec fn wf(&self) -> bool {
        self.pixels@.len() == self.width * self.height
    }

    /// The value of the pixel in column `x`, row `y`.
    pub open spec fn at(&self, x: int, y: int) -> int {
        grid_at(self.pixels@, self.width as int, x, y) as int
    }

    /// Reads the pixel in column `x`, row `y`.
    pub fn get(&self, x: u32, y: u32) -> (p: u8)
        requires
            self.wf(),
            x < self.width,
            y < self.height,
        ensures
            p as int == self.at(x as int, y as int),
    {
        let _len = self.pixels.len();
        proof {
            lemma_cell_index(self.width as int, self.height as int, x as int, y as int);
        }
        self.pixels[y as usize * self.width as usize + x as usize]
    }
}

impl RgbaImage {
    /// The buffer holds exactly one entry per pixel.
    pub open spec fn wf(&self) -> bool {
        self.pixels@.len() == self.width * self.height
    }

    /// The pixel in column `x`, row `y`.
    pub open spec fn at(&self, x: int, y: int) -> [u8; 4] {
        grid_at(self.pixels@, self.width as int, x, y)
    }

    /// Reads the pixel in column `x`, row `y`.
    pub fn get(&self, x: u32, y: u32) -> (p: [u8; 4])
        requires
            self.wf(),
            x < self.width,
            y < self.height,
        ensures
            p == self.at(x as int, y as int),
    {
        let _len = self.pixels.len();
        proof {
            lemma_cell_index(self.width as int, self.height as int, x as int, y as int);
        }
        self.pixels[y as usize * self.width as usize + x as usize]
    }
}

impl RgbImage {
    /// The buffer holds exactly one entry per pixel.
    pub open spec fn wf(&self) -> bool {
        self.pixels@.len() == self.width * self.height
    }

    /// The pixel in column `x`, row `y`.
    pub open spec fn at(&self, x: int, y: int) -> [u8; 3] {
        grid_at(self.pixels@, self.width as int, x, y)
    }
}

/// The grayscale value the `image` crate gives an sRGB pixel: the Rec. 709 luma
/// weights 0.2126, 0.7152 and 0.0722 in integer arithmetic, rounded down.
pub open spec fn rgb_luma(r: int, g: int, b: int) -> int {
    (2126 * r + 7152 * g + 722 * b) / 10000
}

/// Calls `image::imageops::grayscale` on the RGBA image of the given size whose
/// bytes are `raw`, and hands back the bytes of the result.
///
/// Claimed of that function (from the `image` crate's source): the result has one
/// byte per pixel, in the same order, and each is `rgb_luma` of the pixel's red,
/// green and blue bytes; the alpha byte is ignored. Its pixel iterator reads past
/// the buffer of an image with no columns but two or more rows, and it refuses a
/// buffer when four bytes times the width overflows `usize`, so such images are
/// excluded.
#[verifier::external_body]
fn luma_of_rgba_bytes(width: u32, height: u32, raw: Vec<u8>) -> (luma: Vec<u8>)
    requires
        raw@.len() == 4 * (width * height),
        4 * width <= usize::MAX,
        width > 0 || height <= 1,
        raw@.len() <= usize::MAX,
    ensures
        luma@.len() == width * height,
        forall|k: int|
            0 <= k < width * height ==> #[trigger] luma@[k] as int == rgb_luma(
                raw@[4 * k] as int,
                raw@[4 * k + 1] as int,
                raw@[4 * k + 2] as int,
            ),
{
    let rgba = image::RgbaImage::from_raw(width, height, raw).unwrap();
    image::imageops::grayscale(&rgba).into_raw()
}

/// Converts an RGBA image to grayscale: every pixel becomes `rgb_luma` of its
/// red, green and blue values. (An image with no columns but several rows, or
/// whose row of RGBA bytes would not fit in `usize`, is outside what the
/// conversion accepts.)
pub fn grayscale(img: &RgbaImage) -> (gray: GrayImage)
    requires
        img.wf(),
        4 * img.width <= usize::MAX,
        img.width > 0 || img.height <= 1,
    ensures
        gray.wf(),
        gray.width == img.width,
        gray.height == img.height,
        forall|k: int|
            0 <= k < img.pixels@.len() ==> #[trigger] gray.pixels@[k] as int == rgb_luma(
                img.pixels@[k][0] as int,
                img.pixels@[k][1] as int,
                img.pixels@[k][2] as int,
            ),
{
    let n = img.pixels.len();
    let mut raw: Vec<u8> = Vec::new();
    let mut k: usize = 0;
    while k < n
        invariant
            n == img.pixels@.len(),
            k <= n,
            raw@.len() == 4 * k,
            forall|j: int, c: int|
                0 <= j < k && 0 <= c < 4 ==> #[trigger] raw@[4 * j + c] == img.pixels@[j][c],
        decreases n - k,
    {
        let p = img.pixels[k];
        raw.push(p[0]);
        raw.push(p[1]);
        raw.push(p[2]);
        raw.push(p[3]);
        k = k + 1;
    }
    let len = raw.len();
    let luma = luma_of_rgba_bytes(img.width, img.height, raw);
    proof {
        assert forall|k: int| 0 <= k < img.pixels@.len() implies #[trigger] luma@[k] as int
            == rgb_luma(
            img.pixels@[k][0] as int,
            img.pixels@[k][1] as int,
            img.pixels@[k][2] as int,
        ) by {
            assert(raw@[4 * k + 0] == img.pixels@[k][0]);
            assert(raw@[4 * k + 1] == img.pixels@[k][1]);
            assert(raw@[4 * k + 2] == img.pixels@[k][2]);
        }
    }
    GrayImage { width: img.width, height: img.height, pixels: luma }
}

/// A neutral pixel, with equal red, green and blue, keeps its value under the
/// grayscale conversion, and every converted value fits a byte.
pub proof fn lemma_luma_of_neutral(v: int, r: int, g: int, b: int)
    requires
        0 <= v <= 255,
        0 <= r <= 255,
        0 <= g <= 255,
        0 <= b <= 255,
    ensures
        rgb_luma(v, v, v) == v,
        0 <= rgb_luma(r, g, b) <= 255,
{
}

/// One channel (0 red, 1 green, 2 blue, 3 alpha) of every pixel, in pixel order.
pub fn channel(img: &RgbaImage, c: usize) -> (vals: Vec<u8>)
    requires
        c < 4,
    ensures
        vals@.len() == img.pixels@.len(),
        forall|k: int| 0 <= k < vals@.len() ==> #[trigger] vals@[k] == img.pixels@[k][c as int],
{
    let n = img.pixels.len();
    let mut vals: Vec<u8> = Vec::new();
    let mut k: usize = 0;
    while k < n
        invariant
            n == img.pixels@.len(),
            c < 4,
            k <= n,
            vals@.len() == k,
            forall|j: int| 0 <= j < k ==> #[trigger] vals@[j] == img.pixels@[j][c as int],
        decreases n - k,
    {
        vals.push(img.pixels[k][c]);
        k = k + 1;
    }
    vals
}

} // verus!
