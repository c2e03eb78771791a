//! 3×3 neighbourhood filters on grayscale images, in exact integer arithmetic:
//! the Sobel gradient, the 4-neighbour Laplacian and the 8-neighbour sum.

use vstd::prelude::*;

use crate::raster::GrayImage;

verus! {

/// A pixel whose whole 3×3 neighbourhood lies inside the image.
pub open spec fn is_interior(img: &GrayImage, x: int, y: int) -> bool {
    1 <= x && x + 1 < img.width && 1 <= y && y + 1 < img.height
}

/// Horizontal Sobel response: right column minus left column, centre row weighted 2.
pub open spec fn sobel_x(img: &GrayImage, x: int, y: int) -> int {
    -img.at(x - 1, y - 1) - 2 * img.at(x - 1, y) - img.at(x - 1, y + 1) + img.at(x + 1, y - 1) + 2
        * img.at(x + 1, y) + img.at(x + 1, y + 1)
}

/// Vertical Sobel response: bottom row minus top row, centre column weighted 2.
pub open spec fn sobel_y(img: &GrayImage, x: int, y: int) -> int {
    -img.at(x - 1, y - 1) - 2 * img.at(x, y - 1) - img.at(x + 1, y - 1) + img.at(x - 1, y + 1) + 2
        * img.at(x, y + 1) + img.at(x + 1, y + 1)
}

/// The squared magnitude of the Sobel gradient.
pub open spec fn sobel_energy(img: &GrayImage, x: int, y: int) -> int {
    sobel_x(img, x, y) * sobel_x(img, x, y) + sobel_y(img, x, y) * sobel_y(img, x, y)
}

/// The Laplacian response: four times the pixel minus its four direct neighbours.
pub open spec fn laplacian(img: &GrayImage, x: int, y: int) -> int {
    4 * img.at(x, y) - img.at(x + 1, y) - img.at(x - 1, y) - img.at(x, y + 1) - img.at(x, y - 1)
}

/// The sum of the eight pixels around `(x, y)`.
pub open spec fn neighbour_sum(img: &GrayImage, x: int, y: int) -> int {
    img.at(x - 1, y - 1) + img.at(x - 1, y) + img.at(x - 1, y + 1) + img.at(x, y - 1) + img.at(
        x,
        y + 1,
    ) + img.at(x + 1, y - 1) + img.at(x + 1, y) + img.at(x + 1, y + 1)
}

/// The absolute value of an integer.
pub open spec fn abs(v: int) -> int {
    if v < 0 {
        -v
    } else {
        v
    }
}

/// The Sobel responses of any pixel lie within ±1020, so the squared gradient
/// magnitude is at most 2 · 1020².
pub proof fn lemma_sobel_bounds(img: &GrayImage, x: int, y: int)
    ensures
        -1020 <= sobel_x(img, x, y) <= 1020,
        -1020 <= sobel_y(img, x, y) <= 1020,
        0 <= sobel_energy(img, x, y) <= 2080800,
        -1020 <= laplacian(img, x, y) <= 1020,
{
    let gx = sobel_x(img, x, y);
    let gy = sobel_y(img, x, y);
    assert(0 <= gx * gx <= 1040400) by (nonlinear_arith)
        requires
            -1020 <= gx <= 1020,
    ;
    assert(0 <= gy * gy <= 1040400) by (nonlinear_arith)
        requires
            -1020 <= gy <= 1020,
    ;
}

/// The Sobel responses of an interior pixel, `(gx, gy)`.
pub fn sobel_at(img: &GrayImage, x: u32, y: u32) -> (g: (i32, i32))
    requires
        img.wf(),
        is_interior(img, x as int, y as int),
    ensures
        g.0 as int == sobel_x(img, x as int, y as int),
        g.1 as int == sobel_y(img, x as int, y as int),
        -1020 <= g.0 <= 1020,
        -1020 <= g.1 <= 1020,
{
    let nw = img.get(x - 1, y - 1) as i32;
    let n = img.get(x, y - 1) as i32;
    let ne = img.get(x + 1, y - 1) as i32;
    let w = img.get(x - 1, y) as i32;
    let e = img.get(x + 1, y) as i32;
    let sw = img.get(x - 1, y + 1) as i32;
    let s = img.get(x, y + 1) as i32;
    let se = img.get(x + 1, y + 1) as i32;
    let gx = -nw - 2 * w - sw + ne + 2 * e + se;
    let gy = -nw - 2 * n - ne + sw + 2 * s + se;
    (gx, gy)
}

/// The squared Sobel gradient magnitude of an interior pixel.
pub fn sobel_energy_at(img: &GrayImage, x: u32, y: u32) -> (m: u32)
    requires
        img.wf(),
        is_interior(img, x as int, y as int),
    ensures
        m as int == sobel_energy(img, x as int, y as int),
        m <= 2080800,
{
    let (gx, gy) = sobel_at(img, x, y);
    let ax = gx as i64;
    let ay = gy as i64;
    proof {
        assert(0 <= ax * ax <= 1040400) by (nonlinear_arith)
            requires
                -1020 <= ax <= 1020,
        ;
        assert(0 <= ay * ay <= 1040400) by (nonlinear_arith)
            requires
                -1020 <= ay <= 1020,
        ;
    }
    (ax * ax + ay * ay) as u32
}

/// The Laplacian response of an interior pixel.
pub fn laplacian_at(img: &GrayImage, x: u32, y: u32) -> (l: i32)
    requires
        img.wf(),
        is_interior(img, x as int, y as int),
    ensures
        l as int == laplacian(img, x as int, y as int),
        -1020 <= l <= 1020,
{
    let c = img.get(x, y) as i32;
    let r = img.get(x + 1, y) as i32;
    let left = img.get(x - 1, y) as i32;
    let d = img.get(x, y + 1) as i32;
    let u = img.get(x, y - 1) as i32;
    4 * c - r - left - d - u
}

/// The sum of the eight neighbours of an interior pixel.
pub fn neighbour_sum_at(img: &GrayImage, x: u32, y: u32) -> (s: u32)
    requires
        img.wf(),
        is_interior(img, x as int, y as int),
    ensures
        s as int == neighbour_sum(img, x as int, y as int),
        s <= 2040,
{
    let a = img.get(x - 1, y - 1) as u32;
    let b = img.get(x - 1, y) as u32;
    let c = img.get(x - 1, y + 1) as u32;
    let d = img.get(x, y - 1) as u32;
    let e = img.get(x, y + 1) as u32;
    let f = img.get(x + 1, y - 1) as u32;
    let g = img.get(x + 1, y) as u32;
    let h = img.get(x + 1, y + 1) as u32;
    a + b + c + d + e + f + g + h
}

// ─── Laws of the filters ─────────────────────────────────────────────────────

/// The pixel at offset `(i, j)` from `(x, y)`.
pub open spec fn around(img: &GrayImage, x: int, y: int, i: int, j: int) -> int {
    img.at(x + i, y + j)
}

/// `b` is `a` mirrored left to right.
pub open spec fn is_mirror_h(a: &GrayImage, b: &GrayImage) -> bool {
    &&& b.width == a.width
    &&& b.height == a.height
    &&& forall|x: int, y: int|
        0 <= x < a.width && 0 <= y < a.height ==> #[trigger] b.at(x, y) == a.at(a.width - 1 - x, y)
}

/// `b` is `a` mirrored top to bottom.
pub open spec fn is_mirror_v(a: &GrayImage, b: &GrayImage) -> bool {
    &&& b.width == a.width
    &&& b.height == a.height
    &&& forall|x: int, y: int|
        0 <= x < a.width && 0 <= y < a.height ==> #[trigger] b.at(x, y) == a.at(x, a.height - 1 - y)
}

/// `b` is `a` transposed: rows become columns.
pub open spec fn is_transpose(a: &GrayImage, b: &GrayImage) -> bool {
    &&& b.width == a.height
    &&& b.height == a.width
    &&& forall|x: int, y: int|
        0 <= x < b.width && 0 <= y < b.height ==> #[trigger] b.at(x, y) == a.at(y, x)
}

/// Around `(x, y)` the image is the affine ramp `p + q·i + r·j` of the offset `(i, j)`.
pub open spec fn is_ramp_around(img: &GrayImage, x: int, y: int, p: int, q: int, r: int) -> bool {
    forall|i: int, j: int|
        -1 <= i <= 1 && -1 <= j <= 1 ==> #[trigger] around(img, x, y, i, j) == p + q * i + r * j
}

/// Around `(x, y)` only the pixel at offset `(i0, j0)` is non-zero, with value `v`.
pub open spec fn is_impulse_around(img: &GrayImage, x: int, y: int, i0: int, j0: int, v: int) -> bool {
    forall|i: int, j: int|
        -1 <= i <= 1 && -1 <= j <= 1 ==> #[trigger] around(img, x, y, i, j) == if i == i0 && j == j0 {
            v
        } else {
            0
        }
}

/// `b` is `a` with the one pixel `(px, py)` raised by `d`.
pub open spec fn is_raised_at(a: &GrayImage, b: &GrayImage, px: int, py: int, d: int) -> bool {
    &&& b.width == a.width
    &&& b.height == a.height
    &&& forall|x: int, y: int|
        0 <= x < a.width && 0 <= y < a.height ==> #[trigger] b.at(x, y) == a.at(x, y) + if x == px
            && y == py {
            d
        } else {
            0
        }
}

/// Mirroring an image left to right negates the horizontal Sobel response and
/// keeps the vertical one and the Laplacian, at the mirrored pixel.
pub proof fn lemma_filters_mirror_h(a: &GrayImage, b: &GrayImage)
    requires
        is_mirror_h(a, b),
    ensures
        forall|x: int, y: int|
            is_interior(b, x, y) ==> #[trigger] sobel_x(b, x, y) == -sobel_x(a, a.width - 1 - x, y)
                && sobel_y(b, x, y) == sobel_y(a, a.width - 1 - x, y) && laplacian(b, x, y)
                == laplacian(a, a.width - 1 - x, y),
{
    assert forall|x: int, y: int| is_interior(b, x, y) implies #[trigger] sobel_x(b, x, y)
        == -sobel_x(a, a.width - 1 - x, y) && sobel_y(b, x, y) == sobel_y(a, a.width - 1 - x, y)
        && laplacian(b, x, y) == laplacian(a, a.width - 1 - x, y) by {
        let m = a.width - 1 - x;
        assert(b.at(x - 1, y - 1) == a.at(m + 1, y - 1));
        assert(b.at(x, y - 1) == a.at(m, y - 1));
        assert(b.at(x + 1, y - 1) == a.at(m - 1, y - 1));
        assert(b.at(x - 1, y) == a.at(m + 1, y));
        assert(b.at(x, y) == a.at(m, y));
        assert(b.at(x + 1, y) == a.at(m - 1, y));
        assert(b.at(x - 1, y + 1) == a.at(m + 1, y + 1));
        assert(b.at(x, y + 1) == a.at(m, y + 1));
        assert(b.at(x + 1, y + 1) == a.at(m - 1, y + 1));
    }
}

/// Mirroring an image top to bottom keeps the horizontal Sobel response and the
/// Laplacian and negates the vertical Sobel response, at the mirrored pixel.
pub proof fn lemma_filters_mirror_v(a: &GrayImage, b: &GrayImage)
    requires
        is_mirror_v(a, b),
    ensures
        forall|x: int, y: int|
            is_interior(b, x, y) ==> #[trigger] sobel_x(b, x, y) == sobel_x(a, x, a.height - 1 - y)
                && sobel_y(b, x, y) == -sobel_y(a, x, a.height - 1 - y) && laplacian(b, x, y)
                == laplacian(a, x, a.height - 1 - y),
{
    assert forall|x: int, y: int| is_interior(b, x, y) implies #[trigger] sobel_x(b, x, y)
        == sobel_x(a, x, a.height - 1 - y) && sobel_y(b, x, y) == -sobel_y(a, x, a.height - 1 - y)
        && laplacian(b, x, y) == laplacian(a, x, a.height - 1 - y) by {
        let m = a.height - 1 - y;
        assert(b.at(x - 1, y - 1) == a.at(x - 1, m + 1));
        assert(b.at(x, y - 1) == a.at(x, m + 1));
        assert(b.at(x + 1, y - 1) == a.at(x + 1, m + 1));
        assert(b.at(x - 1, y) == a.at(x - 1, m));
        assert(b.at(x, y) == a.at(x, m));
        assert(b.at(x + 1, y) == a.at(x + 1, m));
        assert(b.at(x - 1, y + 1) == a.at(x - 1, m - 1));
        assert(b.at(x, y + 1) == a.at(x, m - 1));
        assert(b.at(x + 1, y + 1) == a.at(x + 1, m - 1));
    }
}

/// Transposing an image swaps the horizontal and vertical Sobel responses and
/// keeps the Laplacian, at the transposed pixel.
pub proof fn lemma_filters_transpose(a: &GrayImage, b: &GrayImage)
    requires
        is_transpose(a, b),
    ensures
        forall|x: int, y: int|
            is_interior(b, x, y) ==> #[trigger] sobel_x(b, x, y) == sobel_y(a, y, x) && sobel_y(
                b,
                x,
                y,
            ) == sobel_x(a, y, x) && laplacian(b, x, y) == laplacian(a, y, x),
{
    assert forall|x: int, y: int| is_interior(b, x, y) implies #[trigger] sobel_x(b, x, y)
        == sobel_y(a, y, x) && sobel_y(b, x, y) == sobel_x(a, y, x) && laplacian(b, x, y)
        == laplacian(a, y, x) by {
        assert(b.at(x - 1, y - 1) == a.at(y - 1, x - 1));
        assert(b.at(x, y - 1) == a.at(y - 1, x));
        assert(b.at(x + 1, y - 1) == a.at(y - 1, x + 1));
        assert(b.at(x - 1, y) == a.at(y, x - 1));
        assert(b.at(x, y) == a.at(y, x));
        assert(b.at(x + 1, y) == a.at(y, x + 1));
        assert(b.at(x - 1, y + 1) == a.at(y + 1, x - 1));
        assert(b.at(x, y + 1) == a.at(y + 1, x));
        assert(b.at(x + 1, y + 1) == a.at(y + 1, x + 1));
    }
}

proof fn lemma_around_all(img: &GrayImage, x: int, y: int)
    ensures
        around(img, x, y, -1, -1) == img.at(x - 1, y - 1),
        around(img, x, y, 0, -1) == img.at(x, y - 1),
        around(img, x, y, 1, -1) == img.at(x + 1, y - 1),
        around(img, x, y, -1, 0) == img.at(x - 1, y),
        around(img, x, y, 0, 0) == img.at(x, y),
        around(img, x, y, 1, 0) == img.at(x + 1, y),
        around(img, x, y, -1, 1) == img.at(x - 1, y + 1),
        around(img, x, y, 0, 1) == img.at(x, y + 1),
        around(img, x, y, 1, 1) == img.at(x + 1, y + 1),
{
}

/// On an affine ramp rising by `q` per column and `r` per row, the Sobel
/// responses are `8q` and `8r` and the Laplacian is 0.
pub proof fn lemma_filters_on_ramp(img: &GrayImage, x: int, y: int, p: int, q: int, r: int)
    requires
        is_ramp_around(img, x, y, p, q, r),
    ensures
        sobel_x(img, x, y) == 8 * q,
        sobel_y(img, x, y) == 8 * r,
        laplacian(img, x, y) == 0,
{
    lemma_around_all(img, x, y);
    assert(around(img, x, y, -1, -1) == p - q - r);
    assert(around(img, x, y, 0, -1) == p - r);
    assert(around(img, x, y, 1, -1) == p + q - r);
    assert(around(img, x, y, -1, 0) == p - q);
    assert(around(img, x, y, 0, 0) == p);
    assert(around(img, x, y, 1, 0) == p + q);
    assert(around(img, x, y, -1, 1) == p - q + r);
    assert(around(img, x, y, 0, 1) == p + r);
    assert(around(img, x, y, 1, 1) == p + q + r);
}

/// A lone value `v` in a corner of the neighbourhood, at offset `(i0, j0)` with
/// `i0, j0` each ±1, gives Sobel responses `i0·v` and `j0·v` and no Laplacian.
pub proof fn lemma_filters_on_corner(img: &GrayImage, x: int, y: int, i0: int, j0: int, v: int)
    requires
        i0 == -1 || i0 == 1,
        j0 == -1 || j0 == 1,
        is_impulse_around(img, x, y, i0, j0, v),
    ensures
        sobel_x(img, x, y) == if i0 == 1 {
            v
        } else {
            -v
        },
        sobel_y(img, x, y) == if j0 == 1 {
            v
        } else {
            -v
        },
        laplacian(img, x, y) == 0,
{
    lemma_around_all(img, x, y);
    assert(around(img, x, y, -1, -1) == if i0 == -1 && j0 == -1 { v } else { 0 });
    assert(around(img, x, y, 0, -1) == 0);
    assert(around(img, x, y, 1, -1) == if i0 == 1 && j0 == -1 { v } else { 0 });
    assert(around(img, x, y, -1, 0) == 0);
    assert(around(img, x, y, 0, 0) == 0);
    assert(around(img, x, y, 1, 0) == 0);
    assert(around(img, x, y, -1, 1) == if i0 == -1 && j0 == 1 { v } else { 0 });
    assert(around(img, x, y, 0, 1) == 0);
    assert(around(img, x, y, 1, 1) == if i0 == 1 && j0 == 1 { v } else { 0 });
}

/// A lone value `v` at offset `(i0, j0)` of the neighbourhood gives a Laplacian of
/// `4v` at the centre, `−v` at any of the four direct neighbours and 0 at a corner.
pub proof fn lemma_laplacian_of_impulse(img: &GrayImage, x: int, y: int, i0: int, j0: int, v: int)
    requires
        -1 <= i0 <= 1,
        -1 <= j0 <= 1,
        is_impulse_around(img, x, y, i0, j0, v),
    ensures
        laplacian(img, x, y) == if i0 == 0 && j0 == 0 {
            4 * v
        } else if i0 == 0 || j0 == 0 {
            -v
        } else {
            0
        },
{
    lemma_around_all(img, x, y);
    assert(around(img, x, y, -1, -1) == if i0 == -1 && j0 == -1 { v } else { 0 });
    assert(around(img, x, y, 0, -1) == if i0 == 0 && j0 == -1 { v } else { 0 });
    assert(around(img, x, y, 1, -1) == if i0 == 1 && j0 == -1 { v } else { 0 });
    assert(around(img, x, y, -1, 0) == if i0 == -1 && j0 == 0 { v } else { 0 });
    assert(around(img, x, y, 0, 0) == if i0 == 0 && j0 == 0 { v } else { 0 });
    assert(around(img, x, y, 1, 0) == if i0 == 1 && j0 == 0 { v } else { 0 });
    assert(around(img, x, y, -1, 1) == if i0 == -1 && j0 == 1 { v } else { 0 });
    assert(around(img, x, y, 0, 1) == if i0 == 0 && j0 == 1 { v } else { 0 });
    assert(around(img, x, y, 1, 1) == if i0 == 1 && j0 == 1 { v } else { 0 });
}

/// Raising one pixel by `d` raises the neighbour sum of every pixel it surrounds
/// by exactly `d`, and leaves the sum of every other pixel, itself included,
/// unchanged: each of the eight surrounding pixels counts once.
pub proof fn lemma_neighbour_sum_raise(
    a: &GrayImage,
    b: &GrayImage,
    px: int,
    py: int,
    d: int,
    x: int,
    y: int,
)
    requires
        is_raised_at(a, b, px, py, d),
        is_interior(a, x, y),
    ensures
        neighbour_sum(b, x, y) == neighbour_sum(a, x, y) + if abs(px - x) <= 1 && abs(py - y) <= 1
            && !(px == x && py == y) {
            d
        } else {
            0
        },
        8 * b.at(x, y) - neighbour_sum(b, x, y) == 8 * a.at(x, y) - neighbour_sum(a, x, y) + if px
            == x && py == y {
            8 * d
        } else if abs(px - x) <= 1 && abs(py - y) <= 1 {
            -d
        } else {
            0
        },
{
    assert(b.at(x - 1, y - 1) == a.at(x - 1, y - 1) + if x - 1 == px && y - 1 == py { d } else { 0 });
    assert(b.at(x, y - 1) == a.at(x, y - 1) + if x == px && y - 1 == py { d } else { 0 });
    assert(b.at(x + 1, y - 1) == a.at(x + 1, y - 1) + if x + 1 == px && y - 1 == py { d } else { 0 });
    assert(b.at(x - 1, y) == a.at(x - 1, y) + if x - 1 == px && y == py { d } else { 0 });
    assert(b.at(x, y) == a.at(x, y) + if x == px && y == py { d } else { 0 });
    assert(b.at(x + 1, y) == a.at(x + 1, y) + if x + 1 == px && y == py { d } else { 0 });
    assert(b.at(x - 1, y + 1) == a.at(x - 1, y + 1) + if x - 1 == px && y + 1 == py { d } else { 0 });
    assert(b.at(x, y + 1) == a.at(x, y + 1) + if x == px && y + 1 == py { d } else { 0 });
    assert(b.at(x + 1, y + 1) == a.at(x + 1, y + 1) + if x + 1 == px && y + 1 == py { d } else { 0 });
}

/// The squared gradient magnitude is 0 exactly when both Sobel responses are 0,
/// and is at least the size of each response: no gradient is dropped.
pub proof fn lemma_energy_keeps_every_gradient(img: &GrayImage, x: int, y: int)
    ensures
        (sobel_energy(img, x, y) == 0) == (sobel_x(img, x, y) == 0 && sobel_y(img, x, y) == 0),
        sobel_energy(img, x, y) >= abs(sobel_x(img, x, y)),
        sobel_energy(img, x, y) >= abs(sobel_y(img, x, y)),
        sobel_energy(img, x, y) == sobel_x(img, x, y) * sobel_x(img, x, y) + sobel_y(img, x, y)
            * sobel_y(img, x, y),
{
    let gx = sobel_x(img, x, y);
    let gy = sobel_y(img, x, y);
    assert(gx * gx >= abs(gx) && gy * gy >= abs(gy) && gx * gx >= 0 && gy * gy >= 0
        && (gx != 0 ==> gx * gx > 0) && (gy != 0 ==> gy * gy > 0)) by (nonlinear_arith);
}

} // verus!
