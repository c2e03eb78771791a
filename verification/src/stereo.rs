//! Stereo views from a depth map: horizontal pixel shifts, side-by-side pairs
//! and colour anaglyphs.

use vstd::prelude::*;

use crate::grid::{
    filled_before, grid_at, lemma_cell_index, lemma_cell_order, lemma_filled_next_row,
    lemma_filled_push,
};
use crate::raster::{black, rgb_of, RgbImage, RgbaImage};

verus! {

// ─── Horizontal shift ────────────────────────────────────────────────────────

/// The rightmost column `x' < upto` of row `y` whose pixel is moved onto column
/// `nx` by its shift (`x' + shift(x', y) == nx`), or −1 when there is none.
pub open spec fn last_source(shifts: Seq<i32>, w: int, y: int, nx: int, upto: int) -> int
    decreases upto,
{
    if upto <= 0 {
        -1
    } else if (upto - 1) + grid_at(shifts, w, upto - 1, y) == nx {
        upto - 1
    } else {
        last_source(shifts, w, y, nx, upto - 1)
    }
}

/// The pixel that lands on column `nx` of row `y` once the pixels of that row left
/// of column `upto` have been moved: the last one moved there, or black.
pub open spec fn shifted_partial(img: &RgbaImage, shifts: Seq<i32>, nx: int, y: int, upto: int) -> [u8; 4] {
    let s = last_source(shifts, img.width as int, y, nx, upto);
    if s >= 0 {
        img.at(s, y)
    } else {
        black()
    }
}

/// The pixel at `(x, y)` of the shifted image: every pixel of the source moves
/// along its row by its own shift, pixels moved outside the image are dropped,
/// where several land on one place the rightmost source pixel wins, and places
/// that nothing lands on are black.
pub open spec fn shifted_pixel(img: &RgbaImage, shifts: Seq<i32>, x: int, y: int) -> [u8; 4] {
    shifted_partial(img, shifts, x, y, img.width as int)
}

/// Moves every pixel of `img` horizontally by its entry of `shifts` (a row-major
/// map of signed column offsets), onto a black canvas of the same size.
pub fn shift_rows(img: &RgbaImage, shifts: &Vec<i32>) -> (out: RgbaImage)
    requires
        img.wf(),
        shifts@.len() == img.width * img.height,
    ensures
        out.wf(),
        out.width == img.width,
        out.height == img.height,
        forall|x: int, y: int|
            0 <= x < img.width && 0 <= y < img.height ==> #[trigger] out.at(x, y) == shifted_pixel(
                img,
                shifts@,
                x,
                y,
            ),
{
    let w = img.width;
    let h = img.height;
    let n = img.pixels.len();
    let mut pixels: Vec<[u8; 4]> = Vec::new();
    let mut k: usize = 0;
    while k < n
        invariant
            n == img.pixels@.len(),
            k <= n,
            pixels@.len() == k,
            forall|j: int| 0 <= j < k ==> #[trigger] pixels@[j] == black(),
        decreases n - k,
    {
        pixels.push([0u8, 0u8, 0u8, 255u8]);
        k = k + 1;
    }
    let ns = shifts.len();
    proof {
        assert forall|cx: int, cy: int| 0 <= cx < w && 0 <= cy < h implies #[trigger] grid_at(
            pixels@,
            w as int,
            cx,
            cy,
        ) == shifted_partial(img, shifts@, cx, cy, 0) by {
            lemma_cell_index(w as int, h as int, cx, cy);
        }
    }
    let mut y: u32 = 0;
    while y < h
        invariant
            img.wf(),
            ns == shifts@.len(),
            shifts@.len() == w * h,
            w == img.width,
            h == img.height,
            pixels@.len() == w * h,
            y <= h,
            forall|cx: int, cy: int|
                0 <= cx < w && 0 <= cy < h ==> #[trigger] grid_at(pixels@, w as int, cx, cy)
                    == shifted_partial(
                    img,
                    shifts@,
                    cx,
                    cy,
                    if cy < y {
                        w as int
                    } else {
                        0
                    },
                ),
        decreases h - y,
    {
        let mut x: u32 = 0;
        while x < w
            invariant
                img.wf(),
                ns == shifts@.len(),
                shifts@.len() == w * h,
                w == img.width,
                h == img.height,
                pixels@.len() == w * h,
                y < h,
                x <= w,
                forall|cx: int, cy: int|
                    0 <= cx < w && 0 <= cy < h ==> #[trigger] grid_at(pixels@, w as int, cx, cy)
                        == shifted_partial(
                        img,
                        shifts@,
                        cx,
                        cy,
                        if cy < y {
                            w as int
                        } else if cy == y {
                            x as int
                        } else {
                            0
                        },
                    ),
            decreases w - x,
        {
            proof {
                lemma_cell_index(w as int, h as int, x as int, y as int);
            }
            let shift = shifts[y as usize * w as usize + x as usize];
            let nx: i64 = x as i64 + shift as i64;
            let ghost before = pixels@;
            if nx >= 0 && nx < w as i64 {
                let p = img.get(x, y);
                proof {
                    lemma_cell_index(w as int, h as int, nx as int, y as int);
                }
                pixels.set(y as usize * w as usize + nx as usize, p);
                proof {
                    assert forall|cx: int, cy: int|
                        0 <= cx < w && 0 <= cy < h implies #[trigger] grid_at(
                        pixels@,
                        w as int,
                        cx,
                        cy,
                    ) == shifted_partial(
                        img,
                        shifts@,
                        cx,
                        cy,
                        if cy < y {
                            w as int
                        } else if cy == y {
                            x as int + 1
                        } else {
                            0
                        },
                    ) by {
                        lemma_cell_order(w as int, cx, cy, nx as int, y as int);
                        lemma_cell_index(w as int, h as int, cx, cy);
                        assert(grid_at(shifts@, w as int, x as int, y as int) == shift);
                        if cy != y || cx != nx {
                            assert(grid_at(pixels@, w as int, cx, cy) == grid_at(
                                before,
                                w as int,
                                cx,
                                cy,
                            ));
                        }
                    }
                }
            } else {
                proof {
                    assert forall|cx: int, cy: int|
                        0 <= cx < w && 0 <= cy < h implies #[trigger] grid_at(
                        pixels@,
                        w as int,
                        cx,
                        cy,
                    ) == shifted_partial(
                        img,
                        shifts@,
                        cx,
                        cy,
                        if cy < y {
                            w as int
                        } else if cy == y {
                            x as int + 1
                        } else {
                            0
                        },
                    ) by {
                        assert(grid_at(shifts@, w as int, x as int, y as int) == shift);
                    }
                }
            }
            x = x + 1;
        }
        y = y + 1;
    }
    RgbaImage { width: w, height: h, pixels }
}

// ─── Side-by-side pair ───────────────────────────────────────────────────────

/// The colour of the divider between the two views.
pub open spec fn divider() -> [u8; 3] {
    [50u8, 50u8, 50u8]
}

/// The pixel at `(x, y)` of a side-by-side pair of two `w`-wide views: the left
/// view, then a 4-pixel grey divider, then the right view.
pub open spec fn pair_pixel(left: &RgbaImage, right: &RgbaImage, x: int, y: int) -> [u8; 3] {
    let w = left.width as int;
    if x < w {
        rgb_of(left.at(x, y))
    } else if x < w + 4 {
        divider()
    } else {
        rgb_of(right.at(x - w - 4, y))
    }
}

/// Places the left and right views side by side, separated by a 4-pixel grey
/// divider.
pub fn stereo_pair(left: &RgbaImage, right: &RgbaImage) -> (out: RgbImage)
    requires
        left.wf(),
        right.wf(),
        left.width == right.width,
        left.height == right.height,
        2 * left.width + 4 <= u32::MAX,
    ensures
        out.wf(),
        out.width == 2 * left.width + 4,
        out.height == left.height,
        forall|x: int, y: int|
            0 <= x < out.width && 0 <= y < out.height ==> #[trigger] out.at(x, y) == pair_pixel(
                left,
                right,
                x,
                y,
            ),
        forall|x: int, y: int|
            0 <= x < left.width && 0 <= y < left.height ==> #[trigger] out.at(x, y) == rgb_of(
                left.at(x, y),
            ) && out.at(left.width + 4 + x, y) == rgb_of(right.at(x, y)),
        forall|k: int, y: int|
            0 <= k < 4 && 0 <= y < left.height ==> #[trigger] out.at(left.width + k, y) == divider(),
{
    let ghost g = |x: int, y: int| pair_pixel(left, right, x, y);
    let w = left.width;
    let h = left.height;
    let ow = 2 * w + 4;
    let mut pixels: Vec<[u8; 3]> = Vec::new();
    let mut y: u32 = 0;
    while y < h
        invariant
            left.wf(),
            right.wf(),
            g == (|x: int, y: int| pair_pixel(left, right, x, y)),
            w == left.width,
            w == right.width,
            h == left.height,
            h == right.height,
            ow == 2 * w + 4,
            y <= h,
            pixels@.len() == y * ow,
            filled_before(pixels@, ow as int, g, 0, y as int),
        decreases h - y,
    {
        let mut x: u32 = 0;
        while x < ow
            invariant
                left.wf(),
                right.wf(),
                g == (|x: int, y: int| pair_pixel(left, right, x, y)),
                w == left.width,
                w == right.width,
                h == left.height,
                h == right.height,
                ow == 2 * w + 4,
                y < h,
                x <= ow,
                pixels@.len() == y * ow + x,
                filled_before(pixels@, ow as int, g, x as int, y as int),
            decreases ow - x,
        {
            let p: [u8; 3] = if x < w {
                let q = left.get(x, y);
                [q[0], q[1], q[2]]
            } else if x < w + 4 {
                [50u8, 50u8, 50u8]
            } else {
                let q = right.get(x - w - 4, y);
                [q[0], q[1], q[2]]
            };
            proof {
                lemma_filled_push(pixels@, ow as int, g, x as int, y as int, p);
            }
            pixels.push(p);
            x = x + 1;
        }
        proof {
            lemma_filled_next_row(pixels@, ow as int, g, y as int);
        }
        y = y + 1;
    }
    proof {
        assert forall|x: int, y: int| 0 <= x < ow && 0 <= y < h implies #[trigger] grid_at(
            pixels@,
            ow as int,
            x,
            y,
        ) == pair_pixel(left, right, x, y) by {
            assert(grid_at(pixels@, ow as int, x, y) == g(x, y));
        }
        assert forall|x: int, y: int| 0 <= x < w && 0 <= y < h implies #[trigger] grid_at(
            pixels@,
            ow as int,
            x,
            y,
        ) == rgb_of(left.at(x, y)) && grid_at(pixels@, ow as int, w + 4 + x, y) == rgb_of(
            right.at(x, y),
        ) by {
            assert(grid_at(pixels@, ow as int, x, y) == g(x, y));
            assert(grid_at(pixels@, ow as int, w + 4 + x, y) == g(w + 4 + x, y));
        }
        assert forall|k: int, y: int| 0 <= k < 4 && 0 <= y < h implies #[trigger] grid_at(
            pixels@,
            ow as int,
            w + k,
            y,
        ) == divider() by {
            assert(grid_at(pixels@, ow as int, w + k, y) == g(w + k, y));
        }
        assert(h * ow == ow * h) by (nonlinear_arith);
    }
    RgbImage { width: ow, height: h, pixels }
}

/// The two views keep their places and their column order: the right half of the
/// pair of `left` and `right` is the left half of the pair of `right` and `left`,
/// column for column.
pub proof fn lemma_pair_halves_swap(left: &RgbaImage, right: &RgbaImage, x: int, y: int)
    requires
        left.width == right.width,
        0 <= x < left.width,
    ensures
        pair_pixel(left, right, left.width + 4 + x, y) == pair_pixel(right, left, x, y),
        pair_pixel(left, right, x, y) == pair_pixel(right, left, right.width + 4 + x, y),
        pair_pixel(left, right, left.width + 4 + x, y) == rgb_of(right.at(x, y)),
{
}

// ─── Anaglyph ────────────────────────────────────────────────────────────────

/// The colour schemes of anaglyph glasses.
#[derive(Clone, Copy, Debug, PartialEq, Eq, Structural)]
pub enum AnaglyphMode {
    /// Red filter on the left eye, cyan on the right.
    RedCyan,
    /// Green filter on the left eye, magenta on the right.
    GreenMagenta,
    /// Amber filter on the left eye, blue on the right.
    AmberBlue,
}

/// The scheme a name selects: "green-magenta" and "amber-blue" select those, and
/// any other name selects red-cyan.
pub open spec fn mode_for_name(name: Seq<char>) -> AnaglyphMode {
    if name == "green-magenta"@ {
        AnaglyphMode::GreenMagenta
    } else if name == "amber-blue"@ {
        AnaglyphMode::AmberBlue
    } else {
        AnaglyphMode::RedCyan
    }
}

impl AnaglyphMode {
    /// Selects the scheme for a name, falling back to red-cyan.
    pub fn parse(name: &str) -> (m: AnaglyphMode)
        ensures
            m == mode_for_name(name@),
    {
        let s = name.to_owned();
        if s == "green-magenta".to_owned() {
            AnaglyphMode::GreenMagenta
        } else if s == "amber-blue".to_owned() {
            AnaglyphMode::AmberBlue
        } else {
            AnaglyphMode::RedCyan
        }
    }
}

/// The anaglyph colour made from a left-eye pixel `l` and a right-eye pixel `r`.
/// Red-cyan: red from the left eye, green and blue from the right eye.
/// Green-magenta: green from the left eye; red and blue both the mean of the right
/// eye's red and blue. Amber-blue: red and green both the mean of the left eye's
/// red and green; blue from the right eye. Means round down.
pub open spec fn anaglyph_pixel(mode: AnaglyphMode, l: [u8; 4], r: [u8; 4]) -> [u8; 3] {
    match mode {
        AnaglyphMode::GreenMagenta => {
            let m = ((r[0] + r[2]) / 2) as u8;
            [m, l[1], m]
        },
        AnaglyphMode::AmberBlue => {
            let a = ((l[0] + l[1]) / 2) as u8;
            [a, a, r[2]]
        },
        AnaglyphMode::RedCyan => [l[0], r[1], r[2]],
    }
}

/// Combines a left and a right view of the same size into a colour anaglyph,
/// pixel by pixel.
pub fn anaglyph(left: &RgbaImage, right: &RgbaImage, mode: AnaglyphMode) -> (out: RgbImage)
    requires
        left.wf(),
        right.wf(),
        left.width == right.width,
        left.height == right.height,
    ensures
        out.wf(),
        out.width == left.width,
        out.height == left.height,
        forall|k: int|
            0 <= k < out.pixels@.len() ==> #[trigger] out.pixels@[k] == anaglyph_pixel(
                mode,
                left.pixels@[k],
                right.pixels@[k],
            ),
{
    let n = left.pixels.len();
    let mut pixels: Vec<[u8; 3]> = Vec::new();
    let mut k: usize = 0;
    while k < n
        invariant
            n == left.pixels@.len(),
            n == right.pixels@.len(),
            k <= n,
            pixels@.len() == k,
            forall|j: int|
                0 <= j < k ==> #[trigger] pixels@[j] == anaglyph_pixel(
                    mode,
                    left.pixels@[j],
                    right.pixels@[j],
                ),
        decreases n - k,
    {
        let l = left.pixels[k];
        let r = right.pixels[k];
        let p: [u8; 3] = match mode {
            AnaglyphMode::GreenMagenta => {
                let m = ((r[0] as u16 + r[2] as u16) / 2) as u8;
                [m, l[1], m]
            },
            AnaglyphMode::AmberBlue => {
                let a = ((l[0] as u16 + l[1] as u16) / 2) as u8;
                [a, a, r[2]]
            },
            AnaglyphMode::RedCyan => [l[0], r[1], r[2]],
        };
        pixels.push(p);
        k = k + 1;
    }
    RgbImage { width: left.width, height: left.height, pixels }
}

/// Which eye each anaglyph channel comes from: changing the right-eye pixel never
/// changes the channels taken from the left eye (red for red-cyan, green for
/// green-magenta, red and green for amber-blue) and changing the left-eye pixel
/// never changes the others; and a neutral grey seen by both eyes stays that grey.
pub proof fn lemma_anaglyph_eyes(
    mode: AnaglyphMode,
    l: [u8; 4],
    l2: [u8; 4],
    r: [u8; 4],
    r2: [u8; 4],
    v: u8,
)
    ensures
        ({
            let a = anaglyph_pixel(mode, l, r);
            let from_right = anaglyph_pixel(mode, l, r2);
            let from_left = anaglyph_pixel(mode, l2, r);
            match mode {
                AnaglyphMode::RedCyan => a[0] == from_right[0] && a[1] == from_left[1] && a[2]
                    == from_left[2],
                AnaglyphMode::GreenMagenta => a[1] == from_right[1] && a[0] == from_left[0] && a[2]
                    == from_left[2],
                AnaglyphMode::AmberBlue => a[0] == from_right[0] && a[1] == from_right[1] && a[2]
                    == from_left[2],
            }
        }),
        anaglyph_pixel(mode, [v, v, v, l[3]], [v, v, v, r[3]]) == [v, v, v],
{
    let g = anaglyph_pixel(mode, [v, v, v, l[3]], [v, v, v, r[3]]);
    assert(((v + v) / 2) as u8 == v);
    assert(g =~= [v, v, v]) by {
        assert(g[0] == v && g[1] == v && g[2] == v);
    }
}

// ─── Zero disparity ──────────────────────────────────────────────────────────

proof fn lemma_last_source_uniform(shifts: Seq<i32>, w: int, y: int, nx: int, c: int, upto: int)
    requires
        upto <= w,
        forall|x: int| 0 <= x < w ==> #[trigger] grid_at(shifts, w, x, y) == c,
    ensures
        last_source(shifts, w, y, nx, upto) == if 0 <= nx - c < upto {
            nx - c
        } else {
            -1
        },
    decreases upto,
{
    if upto > 0 {
        assert(grid_at(shifts, w, upto - 1, y) == c);
        lemma_last_source_uniform(shifts, w, y, nx, c, upto - 1);
    }
}

/// When every pixel is shifted by the same `c` columns, the view is the image
/// moved `c` columns to the right (to the left for negative `c`), with black
/// where nothing lands.
pub proof fn lemma_uniform_shift(img: &RgbaImage, shifts: Seq<i32>, c: int)
    requires
        img.wf(),
        shifts.len() == img.width * img.height,
        forall|k: int| 0 <= k < shifts.len() ==> #[trigger] shifts[k] == c,
    ensures
        forall|x: int, y: int|
            0 <= x < img.width && 0 <= y < img.height ==> #[trigger] shifted_pixel(
                img,
                shifts,
                x,
                y,
            ) == if 0 <= x - c < img.width {
                img.at(x - c, y)
            } else {
                black()
            },
{
    let w = img.width as int;
    let h = img.height as int;
    assert forall|x: int, y: int| 0 <= x < w && 0 <= y < h implies #[trigger] shifted_pixel(
        img,
        shifts,
        x,
        y,
    ) == if 0 <= x - c < w {
        img.at(x - c, y)
    } else {
        black()
    } by {
        assert forall|xx: int| 0 <= xx < w implies #[trigger] grid_at(shifts, w, xx, y) == c by {
            lemma_cell_index(w, h, xx, y);
        }
        lemma_last_source_uniform(shifts, w, y, x, c, w);
    }
}

/// With no disparity the shifted view is the image itself, and a red-cyan
/// anaglyph of two such views gives back the image's colours.
pub proof fn lemma_zero_disparity(img: &RgbaImage, shifts: Seq<i32>)
    requires
        img.wf(),
        shifts.len() == img.width * img.height,
        forall|k: int| 0 <= k < shifts.len() ==> #[trigger] shifts[k] == 0,
    ensures
        forall|x: int, y: int|
            0 <= x < img.width && 0 <= y < img.height ==> #[trigger] shifted_pixel(
                img,
                shifts,
                x,
                y,
            ) == img.at(x, y),
        forall|x: int, y: int|
            0 <= x < img.width && 0 <= y < img.height ==> anaglyph_pixel(
                AnaglyphMode::RedCyan,
                #[trigger] shifted_pixel(img, shifts, x, y),
                shifted_pixel(img, shifts, x, y),
            ) == rgb_of(img.at(x, y)),
{
    lemma_uniform_shift(img, shifts, 0);
}

} // verus!
