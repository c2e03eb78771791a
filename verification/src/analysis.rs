//! Image analysis in exact integer arithmetic: channel statistics, Sobel edge
//! statistics, grey-level co-occurrence, Laplacian and noise responses, and the
//! colour sample used for clustering.

use vstd::prelude::*;

use crate::filters::{
    abs, is_interior, laplacian, laplacian_at, neighbour_sum, neighbour_sum_at, sobel_at, sobel_energy,
    sobel_energy_at, sobel_x, sobel_y,
};
use crate::grid::{
    lemma_cell_index, lemma_rect_count_eq, lemma_rect_max_eq,     lemma_rect_count_bound, lemma_rect_count_none, lemma_rect_max_zero,
    lemma_rect_seq_empty, lemma_row_count_bound, lemma_row_seq_push, lemma_total_same,
    lemma_total_update, rect_count, rect_max, rect_seq, row_count, row_max, row_seq, total,
};
use crate::raster::{rgb_of, GrayImage, RgbaImage};

verus! {

// ─── Edges ───────────────────────────────────────────────────────────────────

/// `a` lies within 22.5° of the axis measured by `b` (both non-negative): that is
/// `a < tan(22.5°)·b = (√2 − 1)·b`, written exactly as `(a + b)² < 2·b²`.
pub open spec fn near_axis(a: int, b: int) -> bool {
    (a + b) * (a + b) < 2 * b * b
}

/// The one of eight 45° sectors nearest the direction of the gradient `(gx, gy)`,
/// counted from the +x axis towards +y: 0 for 0°, 1 for 45°, … 7 for 315°.
/// A sector covers the directions within 22.5° of its centre; for integer
/// gradients other than (0, 0) no direction lies on a sector boundary.
pub open spec fn direction_bin(gx: int, gy: int) -> int {
    let ax = abs(gx);
    let ay = abs(gy);
    if near_axis(ay, ax) {
        if gx > 0 {
            0
        } else {
            4
        }
    } else if near_axis(ax, ay) {
        if gy > 0 {
            2
        } else {
            6
        }
    } else if gx > 0 {
        if gy > 0 {
            1
        } else {
            7
        }
    } else {
        if gy > 0 {
            3
        } else {
            5
        }
    }
}

/// The gradient magnitude at an edge pixel exceeds 30, i.e. its square exceeds 900.
pub open spec fn is_edge(img: &GrayImage, x: int, y: int) -> bool {
    sobel_energy(img, x, y) > 900
}

/// An edge pixel whose gradient points into sector `b`.
pub open spec fn is_edge_in_bin(img: &GrayImage, b: int, x: int, y: int) -> bool {
    is_edge(img, x, y) && direction_bin(sobel_x(img, x, y), sobel_y(img, x, y)) == b
}

/// The number of interior edge pixels whose gradient points into sector `b`.
pub open spec fn sector_count(img: &GrayImage, b: int) -> nat {
    rect_count(
        |x: int, y: int| is_edge_in_bin(img, b, x, y),
        1,
        img.width - 1,
        1,
        img.height - 1,
    )
}

/// The number of pixels whose 3×3 neighbourhood lies inside the image.
pub open spec fn interior_area(img: &GrayImage) -> int {
    if img.width >= 2 && img.height >= 2 {
        (img.width - 2) * (img.height - 2)
    } else {
        0
    }
}

/// Computes `direction_bin` for a Sobel gradient.
pub fn direction_bin_of(gx: i32, gy: i32) -> (b: usize)
    requires
        -1020 <= gx <= 1020,
        -1020 <= gy <= 1020,
    ensures
        b as int == direction_bin(gx as int, gy as int),
        b < 8,
{
    let ax: i64 = if gx < 0 {
        -(gx as i64)
    } else {
        gx as i64
    };
    let ay: i64 = if gy < 0 {
        -(gy as i64)
    } else {
        gy as i64
    };
    proof {
        assert(0 <= (ax + ay) * (ax + ay) <= 2040 * 2040) by (nonlinear_arith)
            requires
                0 <= ax <= 1020,
                0 <= ay <= 1020,
        ;
        assert(0 <= 2 * ax * ax <= 2 * 1020 * 1020) by (nonlinear_arith)
            requires
                0 <= ax <= 1020,
        ;
        assert(0 <= 2 * ay * ay <= 2 * 1020 * 1020) by (nonlinear_arith)
            requires
                0 <= ay <= 1020,
        ;
    }
    let s = ax + ay;
    if s * s < 2 * ax * ax {
        if gx > 0 {
            0
        } else {
            4
        }
    } else if s * s < 2 * ay * ay {
        if gy > 0 {
            2
        } else {
            6
        }
    } else if gx > 0 {
        if gy > 0 {
            1
        } else {
            7
        }
    } else {
        if gy > 0 {
            3
        } else {
            5
        }
    }
}

/// Edge statistics of an image over its interior pixels.
pub struct EdgeCounts {
    /// Number of interior pixels whose gradient magnitude exceeds 30.
    pub edge_pixels: u64,
    /// For each of the eight direction sectors, the number of edge pixels in it.
    pub direction_histogram: Vec<u32>,
    /// The largest squared gradient magnitude over the interior (0 if there is none).
    pub max_energy: u32,
}

proof fn lemma_count_before(
    f: spec_fn(int, int) -> bool,
    w: int,
    h: int,
    x: int,
    y: int,
)
    requires
        3 <= w,
        3 <= h,
        1 <= x < w - 1,
        1 <= y < h - 1,
    ensures
        rect_count(f, 1, w - 1, 1, y) + row_count(f, y, 1, x) + 1 <= (w - 2) * (h - 2),
{
    lemma_rect_count_bound(f, 1, w - 1, 1, y);
    lemma_row_count_bound(f, y, 1, x);
    assert((w - 2) * (y - 1) + (x - 1) + 1 <= (w - 2) * (h - 2)) by (nonlinear_arith)
        requires
            3 <= w,
            1 <= x < w - 1,
            1 <= y < h - 1,
    ;
}

/// Counts the edge pixels of the interior, sorts them by gradient direction and
/// finds the strongest gradient.
pub fn edge_counts(img: &GrayImage) -> (e: EdgeCounts)
    requires
        img.wf(),
        interior_area(img) <= u32::MAX,
    ensures
        e.edge_pixels == rect_count(
            |x: int, y: int| is_edge(img, x, y),
            1,
            img.width - 1,
            1,
            img.height - 1,
        ),
        e.direction_histogram@.len() == 8,
        forall|b: int|
            0 <= b < 8 ==> #[trigger] e.direction_histogram@[b] == rect_count(
                |x: int, y: int| is_edge_in_bin(img, b, x, y),
                1,
                img.width - 1,
                1,
                img.height - 1,
            ),
        total(e.direction_histogram@, 8) == e.edge_pixels,
        e.max_energy == rect_max(
            |x: int, y: int| sobel_energy(img, x, y),
            1,
            img.width - 1,
            1,
            img.height - 1,
        ),
{
    let ghost edge_f = |x: int, y: int| is_edge(img, x, y);
    let ghost energy_f = |x: int, y: int| sobel_energy(img, x, y);
    let w = img.width;
    let h = img.height;
    let mut edge_pixels: u64 = 0;
    let mut hist: Vec<u32> = vec![0u32, 0, 0, 0, 0, 0, 0, 0];
    let mut max_energy: u32 = 0;
    if w < 3 || h < 3 {
        proof {
            assert(total(hist@, 8) == 0) by {
                reveal_with_fuel(total, 9);
            }
            lemma_rect_count_none(edge_f, 1, w - 1, 1, h - 1);
            lemma_rect_max_zero(energy_f, 1, w - 1, 1, h - 1);
            assert forall|b: int| 0 <= b < 8 implies #[trigger] hist@[b] == rect_count(
                |x: int, y: int| is_edge_in_bin(img, b, x, y),
                1,
                w - 1,
                1,
                h - 1,
            ) by {
                lemma_rect_count_none(
                    |x: int, y: int| is_edge_in_bin(img, b, x, y),
                    1,
                    w - 1,
                    1,
                    h - 1,
                );
            }
        }
        return EdgeCounts { edge_pixels, direction_histogram: hist, max_energy };
    }
    proof {
        assert(total(hist@, 8) == 0) by {
            reveal_with_fuel(total, 9);
        }
    }
    let mut y: u32 = 1;
    while y < h - 1
        invariant
            img.wf(),
            edge_f == (|x: int, y: int| is_edge(img, x, y)),
            energy_f == (|x: int, y: int| sobel_energy(img, x, y)),
            w == img.width,
            h == img.height,
            3 <= w,
            3 <= h,
            (w - 2) * (h - 2) <= u32::MAX,
            1 <= y <= h - 1,
            edge_pixels == rect_count(edge_f, 1, w - 1, 1, y as int),
            hist@.len() == 8,
            total(hist@, 8) == edge_pixels,
            forall|b: int|
                0 <= b < 8 ==> #[trigger] hist@[b] == rect_count(
                    |x: int, y: int| is_edge_in_bin(img, b, x, y),
                    1,
                    w - 1,
                    1,
                    y as int,
                ),
            max_energy == rect_max(energy_f, 1, w - 1, 1, y as int),
        decreases h - y,
    {
        let mut x: u32 = 1;
        while x < w - 1
            invariant
                img.wf(),
                edge_f == (|x: int, y: int| is_edge(img, x, y)),
                energy_f == (|x: int, y: int| sobel_energy(img, x, y)),
                w == img.width,
                h == img.height,
                3 <= w,
                3 <= h,
                (w - 2) * (h - 2) <= u32::MAX,
                1 <= y < h - 1,
                1 <= x <= w - 1,
                edge_pixels == rect_count(edge_f, 1, w - 1, 1, y as int) + row_count(
                    edge_f,
                    y as int,
                    1,
                    x as int,
                ),
                hist@.len() == 8,
                total(hist@, 8) == edge_pixels,
                forall|b: int|
                    0 <= b < 8 ==> #[trigger] hist@[b] == rect_count(
                        |x: int, y: int| is_edge_in_bin(img, b, x, y),
                        1,
                        w - 1,
                        1,
                        y as int,
                    ) + row_count(
                        |x: int, y: int| is_edge_in_bin(img, b, x, y),
                        y as int,
                        1,
                        x as int,
                    ),
                max_energy == {
                    let m = rect_max(energy_f, 1, w - 1, 1, y as int);
                    let r = row_max(energy_f, y as int, 1, x as int);
                    if r > m {
                        r
                    } else {
                        m
                    }
                },
            decreases w - x,
        {
            let (gx, gy) = sobel_at(img, x, y);
            let energy = sobel_energy_at(img, x, y);
            proof {
                lemma_count_before(edge_f, w as int, h as int, x as int, y as int);
                assert(edge_f(x as int, y as int) == (energy > 900));
                assert(energy_f(x as int, y as int) == energy);
            }
            if energy > 900 {
                let b = direction_bin_of(gx, gy);
                proof {
                    lemma_count_before(
                        |x: int, y: int| is_edge_in_bin(img, b as int, x, y),
                        w as int,
                        h as int,
                        x as int,
                        y as int,
                    );
                }
                edge_pixels = edge_pixels + 1;
                let old_count = hist[b];
                proof {
                    lemma_total_update(hist@, b as int, (old_count + 1) as u32, 8);
                }
                hist.set(b, old_count + 1);
            }
            if energy > max_energy {
                max_energy = energy;
            }
            x = x + 1;
        }
        y = y + 1;
    }
    EdgeCounts { edge_pixels, direction_histogram: hist, max_energy }
}

// ─── Texture ─────────────────────────────────────────────────────────────────

/// The co-occurrence level of a pixel value: 256 values fall into 64 levels of 4.
pub open spec fn level(p: int) -> int {
    p / 4
}

/// The horizontal pair of pixels `(x, y)`, `(x + 1, y)` falls into cell `c` of the
/// 64 × 64 co-occurrence matrix: row `c / 64` is the level of the left pixel and
/// column `c % 64` the level of the right one.
pub open spec fn is_pair_in_cell(img: &GrayImage, c: int, x: int, y: int) -> bool {
    level(img.at(x, y)) == c / 64 && level(img.at(x + 1, y)) == c % 64
}

proof fn lemma_cell_of_pair(p: int, q: int, c: int)
    requires
        0 <= p <= 255,
        0 <= q <= 255,
        0 <= c < 4096,
    ensures
        (level(p) == c / 64 && level(q) == c % 64) <==> c == 64 * level(p) + level(q),
        0 <= 64 * level(p) + level(q) < 4096,
{
}

/// The grey-level co-occurrence matrix of horizontally adjacent pixels, 64 × 64
/// levels, stored row by row: entry `c` counts the pairs that fall into cell `c`.
/// Every pair falls into exactly one cell, so the entries add up to the number of
/// pairs, `(width − 1) · height`.
pub fn cooccurrence(img: &GrayImage) -> (m: Vec<u64>)
    requires
        img.wf(),
        img.width >= 1,
    ensures
        m@.len() == 4096,
        forall|c: int|
            0 <= c < 4096 ==> #[trigger] m@[c] == rect_count(
                |x: int, y: int| is_pair_in_cell(img, c, x, y),
                0,
                img.width - 1,
                0,
                img.height as int,
            ),
        total(m@, 4096) == (img.width - 1) * img.height,
{
    let w = img.width;
    let h = img.height;
    let mut m: Vec<u64> = Vec::new();
    let mut c: usize = 0;
    while c < 4096
        invariant
            c <= 4096,
            m@.len() == c,
            forall|j: int| 0 <= j < c ==> #[trigger] m@[j] == 0,
            total(m@, c as int) == 0,
        decreases 4096 - c,
    {
        proof {
            lemma_total_same(m@, m@.push(0), c as int);
        }
        m.push(0);
        c = c + 1;
    }
    proof {
        assert forall|c: int| 0 <= c < 4096 implies #[trigger] m@[c] == rect_count(
            |x: int, y: int| is_pair_in_cell(img, c, x, y),
            0,
            w - 1,
            0,
            0,
        ) by {}
        assert((w - 1) * 0 == 0) by (nonlinear_arith);
    }
    let mut y: u32 = 0;
    while y < h
        invariant
            img.wf(),
            w == img.width,
            h == img.height,
            1 <= w,
            y <= h,
            m@.len() == 4096,
            total(m@, 4096) == (w - 1) * y,
            forall|c: int|
                0 <= c < 4096 ==> #[trigger] m@[c] == rect_count(
                    |x: int, y: int| is_pair_in_cell(img, c, x, y),
                    0,
                    w - 1,
                    0,
                    y as int,
                ),
        decreases h - y,
    {
        let mut x: u32 = 0;
        while x < w - 1
            invariant
                img.wf(),
                w == img.width,
                h == img.height,
                1 <= w,
                y < h,
                x <= w - 1,
                m@.len() == 4096,
                total(m@, 4096) == (w - 1) * y + x,
                forall|c: int|
                    0 <= c < 4096 ==> #[trigger] m@[c] == rect_count(
                        |x: int, y: int| is_pair_in_cell(img, c, x, y),
                        0,
                        w - 1,
                        0,
                        y as int,
                    ) + row_count(|x: int, y: int| is_pair_in_cell(img, c, x, y), y as int, 0, x as int),
            decreases w - x,
        {
            let p = img.get(x, y);
            let q = img.get(x + 1, y);
            let cell = (p / 4) as usize * 64 + (q / 4) as usize;
            proof {
                assert forall|c: int| 0 <= c < 4096 implies is_pair_in_cell(img, c, x as int, y as int)
                    <==> c == cell by {
                    lemma_cell_of_pair(p as int, q as int, c);
                }
                lemma_rect_count_bound(
                    |x: int, y: int| is_pair_in_cell(img, cell as int, x, y),
                    0,
                    w - 1,
                    0,
                    y as int,
                );
                lemma_row_count_bound(
                    |x: int, y: int| is_pair_in_cell(img, cell as int, x, y),
                    y as int,
                    0,
                    x as int,
                );
                assert((w - 1) * y <= (w as int - 1) * (h as int)) by (nonlinear_arith)
                    requires
                        1 <= w,
                        y < h,
                ;
                assert((w as int - 1) * (h as int) <= 0xffff_ffff * 0xffff_ffff) by (nonlinear_arith)
                    requires
                        1 <= w <= 0xffff_ffff,
                        h <= 0xffff_ffff,
                ;
            }
            let old_count = m[cell];
            proof {
                lemma_total_update(m@, cell as int, (old_count + 1) as u64, 4096);
            }
            m.set(cell, old_count + 1);
            x = x + 1;
        }
        proof {
            assert((w - 1) * (y + 1) == (w - 1) * y + (w - 1)) by (nonlinear_arith);
        }
        y = y + 1;
    }
    m
}

// ─── Laplacian and noise ─────────────────────────────────────────────────────

/// The noise residual of a pixel: eight times its distance from the mean of its
/// eight neighbours, `|8·p − Σ neighbours|`.
pub open spec fn noise_residual(img: &GrayImage, x: int, y: int) -> int {
    abs(8 * img.at(x, y) - neighbour_sum(img, x, y))
}

/// The Laplacian responses of the interior pixels, in row-major order.
pub fn laplacian_responses(img: &GrayImage) -> (v: Vec<i32>)
    requires
        img.wf(),
    ensures
        v@.map_values(|l: i32| l as int) == rect_seq(
            |x: int, y: int| laplacian(img, x, y),
            1,
            img.width - 1,
            1,
            img.height - 1,
        ),
{
    let ghost g = |x: int, y: int| laplacian(img, x, y);
    let w = img.width;
    let h = img.height;
    let mut v: Vec<i32> = Vec::new();
    if w < 3 || h < 3 {
        proof {
            lemma_rect_seq_empty(g, 1, w - 1, 1, h - 1);
            assert(v@.map_values(|l: i32| l as int) =~= Seq::<int>::empty());
        }
        return v;
    }
    proof {
        assert(v@.map_values(|l: i32| l as int) =~= rect_seq(g, 1, w - 1, 1, 1));
    }
    let mut y: u32 = 1;
    while y < h - 1
        invariant
            img.wf(),
            g == (|x: int, y: int| laplacian(img, x, y)),
            w == img.width,
            h == img.height,
            3 <= w,
            3 <= h,
            1 <= y <= h - 1,
            v@.map_values(|l: i32| l as int) == rect_seq(g, 1, w - 1, 1, y as int),
        decreases h - y,
    {
        let mut x: u32 = 1;
        proof {
            assert(row_seq(g, y as int, 1, 1) =~= Seq::<int>::empty());
            assert(rect_seq(g, 1, w - 1, 1, y as int) + row_seq(g, y as int, 1, 1) =~= rect_seq(
                g,
                1,
                w - 1,
                1,
                y as int,
            ));
        }
        while x < w - 1
            invariant
                img.wf(),
                g == (|x: int, y: int| laplacian(img, x, y)),
                w == img.width,
                h == img.height,
                3 <= w,
                3 <= h,
                1 <= y < h - 1,
                1 <= x <= w - 1,
                v@.map_values(|l: i32| l as int) == rect_seq(g, 1, w - 1, 1, y as int) + row_seq(
                    g,
                    y as int,
                    1,
                    x as int,
                ),
            decreases w - x,
        {
            let l = laplacian_at(img, x, y);
            proof {
                lemma_row_seq_push(g, y as int, 1, x as int);
                assert(v@.push(l).map_values(|l: i32| l as int) =~= v@.map_values(
                    |l: i32| l as int,
                ).push(l as int));
                assert(g(x as int, y as int) == l as int);
            }
            v.push(l);
            proof {
                assert(v@.map_values(|l: i32| l as int) =~= rect_seq(g, 1, w - 1, 1, y as int)
                    + row_seq(g, y as int, 1, x as int + 1));
            }
            x = x + 1;
        }
        y = y + 1;
    }
    v
}

/// The noise residuals of the interior pixels, in row-major order.
pub fn noise_residuals(img: &GrayImage) -> (v: Vec<u32>)
    requires
        img.wf(),
    ensures
        v@.map_values(|r: u32| r as int) == rect_seq(
            |x: int, y: int| noise_residual(img, x, y),
            1,
            img.width - 1,
            1,
            img.height - 1,
        ),
{
    let ghost g = |x: int, y: int| noise_residual(img, x, y);
    let w = img.width;
    let h = img.height;
    let mut v: Vec<u32> = Vec::new();
    if w < 3 || h < 3 {
        proof {
            lemma_rect_seq_empty(g, 1, w - 1, 1, h - 1);
            assert(v@.map_values(|r: u32| r as int) =~= Seq::<int>::empty());
        }
        return v;
    }
    proof {
        assert(v@.map_values(|r: u32| r as int) =~= rect_seq(g, 1, w - 1, 1, 1));
    }
    let mut y: u32 = 1;
    while y < h - 1
        invariant
            img.wf(),
            g == (|x: int, y: int| noise_residual(img, x, y)),
            w == img.width,
            h == img.height,
            3 <= w,
            3 <= h,
            1 <= y <= h - 1,
            v@.map_values(|r: u32| r as int) == rect_seq(g, 1, w - 1, 1, y as int),
        decreases h - y,
    {
        let mut x: u32 = 1;
        proof {
            assert(row_seq(g, y as int, 1, 1) =~= Seq::<int>::empty());
            assert(rect_seq(g, 1, w - 1, 1, y as int) + row_seq(g, y as int, 1, 1) =~= rect_seq(
                g,
                1,
                w - 1,
                1,
                y as int,
            ));
        }
        while x < w - 1
            invariant
                img.wf(),
                g == (|x: int, y: int| noise_residual(img, x, y)),
                w == img.width,
                h == img.height,
                3 <= w,
                3 <= h,
                1 <= y < h - 1,
                1 <= x <= w - 1,
                v@.map_values(|r: u32| r as int) == rect_seq(g, 1, w - 1, 1, y as int) + row_seq(
                    g,
                    y as int,
                    1,
                    x as int,
                ),
            decreases w - x,
        {
            let c = img.get(x, y) as u32;
            let s = neighbour_sum_at(img, x, y);
            let r: u32 = if 8 * c >= s {
                8 * c - s
            } else {
                s - 8 * c
            };
            proof {
                lemma_row_seq_push(g, y as int, 1, x as int);
                assert(v@.push(r).map_values(|r: u32| r as int) =~= v@.map_values(
                    |r: u32| r as int,
                ).push(r as int));
                assert(g(x as int, y as int) == r as int);
            }
            v.push(r);
            proof {
                assert(v@.map_values(|r: u32| r as int) =~= rect_seq(g, 1, w - 1, 1, y as int)
                    + row_seq(g, y as int, 1, x as int + 1));
            }
            x = x + 1;
        }
        y = y + 1;
    }
    v
}

// ─── Colour sample ───────────────────────────────────────────────────────────

/// The colours of every 16th pixel, starting with the first.
pub fn sample_colors(img: &RgbaImage) -> (s: Vec<[u8; 3]>)
    ensures
        s@.len() == (img.pixels@.len() + 15) / 16,
        forall|k: int| 0 <= k < s@.len() ==> #[trigger] s@[k] == rgb_of(img.pixels@[16 * k]),
{
    let n = img.pixels.len();
    let count: usize = n / 16 + if n % 16 != 0 {
        1
    } else {
        0
    };
    let mut s: Vec<[u8; 3]> = Vec::new();
    let mut k: usize = 0;
    while k < count
        invariant
            n == img.pixels@.len(),
            count == (n + 15) / 16,
            k <= count,
            s@.len() == k,
            forall|j: int| 0 <= j < k ==> #[trigger] s@[j] == rgb_of(img.pixels@[16 * j]),
        decreases count - k,
    {
        let p = img.pixels[16 * k];
        s.push([p[0], p[1], p[2]]);
        k = k + 1;
    }
    s
}

/// The pixel indices that seed `k` colour clusters over `len` samples: evenly
/// spaced by `max(len / k, 1)` from the first sample, capped at the last one; no
/// seeds at all when there are no samples.
pub fn seed_indices(len: usize, k: usize) -> (seeds: Vec<usize>)
    requires
        len == 0 || k > 0,
    ensures
        len == 0 ==> seeds@.len() == 0,
        len > 0 ==> seeds@.len() == k,
        len > 0 ==> forall|i: int|
            0 <= i < k ==> #[trigger] seeds@[i] as int == {
                let step = if len / k >= 1 {
                    len / k
                } else {
                    1
                };
                let at = i * step;
                if at < len - 1 {
                    at
                } else {
                    len - 1
                }
            },
{
    let mut seeds: Vec<usize> = Vec::new();
    if len == 0 {
        return seeds;
    }
    let step: usize = if len / k >= 1 {
        len / k
    } else {
        1
    };
    let mut i: usize = 0;
    while i < k
        invariant
            len > 0,
            k > 0,
            step == (if len / k >= 1 {
                len / k
            } else {
                1
            }),
            i <= k,
            seeds@.len() == i,
            forall|j: int|
                0 <= j < i ==> #[trigger] seeds@[j] as int == (if j * step < len - 1 {
                    j * step
                } else {
                    len - 1
                }),
        decreases k - i,
    {
        proof {
            if len / k >= 1 {
                assert(i * step <= len) by (nonlinear_arith)
                    requires
                        i < k,
                        step == len / k,
                        k > 0,
                ;
            } else {
                assert(i * step == i) by (nonlinear_arith)
                    requires
                        step == 1,
                ;
            }
        }
        let at = i * step;
        let seed = if at < len - 1 {
            at
        } else {
            len - 1
        };
        seeds.push(seed);
        i = i + 1;
    }
    seeds
}

// ─── Uniform images ──────────────────────────────────────────────────────────

/// An image of a single grey value has no gradient, no Laplacian response and no
/// noise anywhere in its interior, hence no edge pixels and a strongest gradient of 0.
pub proof fn lemma_uniform_image(img: &GrayImage, v: u8)
    requires
        img.wf(),
        forall|k: int| 0 <= k < img.pixels@.len() ==> #[trigger] img.pixels@[k] == v,
    ensures
        forall|x: int, y: int|
            is_interior(img, x, y) ==> #[trigger] sobel_x(img, x, y) == 0 && sobel_y(img, x, y)
                == 0 && laplacian(img, x, y) == 0 && noise_residual(img, x, y) == 0,
        rect_count(|x: int, y: int| is_edge(img, x, y), 1, img.width - 1, 1, img.height - 1) == 0,
        rect_max(
            |x: int, y: int| sobel_energy(img, x, y),
            1,
            img.width - 1,
            1,
            img.height - 1,
        ) == 0,
{
    let w = img.width as int;
    let h = img.height as int;
    assert forall|x: int, y: int| is_interior(img, x, y) implies #[trigger] sobel_x(img, x, y)
        == 0 && sobel_y(img, x, y) == 0 && laplacian(img, x, y) == 0 && noise_residual(img, x, y)
        == 0 by {
        lemma_cell_index(w, h, x - 1, y - 1);
        lemma_cell_index(w, h, x, y - 1);
        lemma_cell_index(w, h, x + 1, y - 1);
        lemma_cell_index(w, h, x - 1, y);
        lemma_cell_index(w, h, x, y);
        lemma_cell_index(w, h, x + 1, y);
        lemma_cell_index(w, h, x - 1, y + 1);
        lemma_cell_index(w, h, x, y + 1);
        lemma_cell_index(w, h, x + 1, y + 1);
    }
    lemma_rect_count_none(|x: int, y: int| is_edge(img, x, y), 1, w - 1, 1, h - 1);
    lemma_rect_max_zero(|x: int, y: int| sobel_energy(img, x, y), 1, w - 1, 1, h - 1);
}

// ─── Inverted images ─────────────────────────────────────────────────────────

/// The opposite of a non-zero gradient lies in the opposite direction sector.
pub proof fn lemma_direction_bin_opposite(gx: int, gy: int)
    requires
        gx != 0 || gy != 0,
    ensures
        direction_bin(-gx, -gy) == (direction_bin(gx, gy) + 4) % 8,
{
    assert(abs(-gx) == abs(gx));
    assert(abs(-gy) == abs(gy));
    let ax = abs(gx);
    let ay = abs(gy);
    if gx == 0 {
        assert(near_axis(ax, ay)) by {
            assert((ax + ay) * (ax + ay) < 2 * ay * ay) by (nonlinear_arith)
                requires
                    ax == 0,
                    ay > 0,
            ;
        }
        assert(!near_axis(ay, ax)) by {
            assert(!((ay + ax) * (ay + ax) < 2 * ax * ax)) by (nonlinear_arith)
                requires
                    ax == 0,
            ;
        }
    }
    if gy == 0 {
        assert(near_axis(ay, ax)) by {
            assert((ay + ax) * (ay + ax) < 2 * ax * ax) by (nonlinear_arith)
                requires
                    ay == 0,
                    ax > 0,
            ;
        }
    }
}

/// The pixel values of an inverted image, `255 − p`, everywhere inside it.
pub open spec fn is_inverse(img: &GrayImage, inv: &GrayImage) -> bool {
    &&& inv.width == img.width
    &&& inv.height == img.height
    &&& forall|x: int, y: int|
        0 <= x < img.width && 0 <= y < img.height ==> #[trigger] inv.at(x, y) == 255 - img.at(x, y)
}

proof fn lemma_inverse_pixels(img: &GrayImage, inv: &GrayImage)
    requires
        img.wf(),
        inv.wf(),
        inv.width == img.width,
        inv.height == img.height,
        forall|k: int| 0 <= k < img.pixels@.len() ==> #[trigger] inv.pixels@[k] == 255 - img.pixels@[k],
    ensures
        is_inverse(img, inv),
{
    let w = img.width as int;
    let h = img.height as int;
    assert forall|x: int, y: int| 0 <= x < w && 0 <= y < h implies #[trigger] inv.at(x, y) == 255
        - img.at(x, y) by {
        lemma_cell_index(w, h, x, y);
    }
}

proof fn lemma_inverse_responses(img: &GrayImage, inv: &GrayImage, x: int, y: int)
    requires
        is_inverse(img, inv),
        is_interior(img, x, y),
    ensures
        sobel_x(inv, x, y) == -sobel_x(img, x, y),
        sobel_y(inv, x, y) == -sobel_y(img, x, y),
        laplacian(inv, x, y) == -laplacian(img, x, y),
        noise_residual(inv, x, y) == noise_residual(img, x, y),
        sobel_energy(inv, x, y) == sobel_energy(img, x, y),
{
    assert(inv.at(x - 1, y - 1) == 255 - img.at(x - 1, y - 1));
    assert(inv.at(x, y - 1) == 255 - img.at(x, y - 1));
    assert(inv.at(x + 1, y - 1) == 255 - img.at(x + 1, y - 1));
    assert(inv.at(x - 1, y) == 255 - img.at(x - 1, y));
    assert(inv.at(x, y) == 255 - img.at(x, y));
    assert(inv.at(x + 1, y) == 255 - img.at(x + 1, y));
    assert(inv.at(x - 1, y + 1) == 255 - img.at(x - 1, y + 1));
    assert(inv.at(x, y + 1) == 255 - img.at(x, y + 1));
    assert(inv.at(x + 1, y + 1) == 255 - img.at(x + 1, y + 1));
    let gx = sobel_x(img, x, y);
    let gy = sobel_y(img, x, y);
    assert((-gx) * (-gx) + (-gy) * (-gy) == gx * gx + gy * gy) by (nonlinear_arith);
}

proof fn lemma_inverse_sector(img: &GrayImage, inv: &GrayImage, b: int)
    requires
        is_inverse(img, inv),
        0 <= b < 8,
    ensures
        sector_count(inv, (b + 4) % 8) == sector_count(img, b),
{
    let w = img.width as int;
    let h = img.height as int;
    let c = (b + 4) % 8;
    assert forall|x: int, y: int| 1 <= x < w - 1 && 1 <= y < h - 1 implies is_edge_in_bin(
        inv,
        c,
        x,
        y,
    ) == #[trigger] is_edge_in_bin(img, b, x, y) by {
        lemma_inverse_responses(img, inv, x, y);
        let gx = sobel_x(img, x, y);
        let gy = sobel_y(img, x, y);
        if is_edge(img, x, y) {
            if gx == 0 && gy == 0 {
                assert(sobel_energy(img, x, y) == 0);
            }
            lemma_direction_bin_opposite(gx, gy);
            let d = direction_bin(gx, gy);
            assert(0 <= d < 8);
            assert((c == (d + 4) % 8) == (b == d));
        }
    }
    lemma_rect_count_eq(
        |x: int, y: int| is_edge_in_bin(inv, c, x, y),
        |x: int, y: int| is_edge_in_bin(img, b, x, y),
        1,
        w - 1,
        1,
        h - 1,
    );
}

/// An edge pixel is one whose gradient magnitude exceeds 30: the squared Sobel
/// responses add up to more than 30².
pub proof fn lemma_edge_threshold(img: &GrayImage, x: int, y: int)
    ensures
        is_edge(img, x, y) == (sobel_x(img, x, y) * sobel_x(img, x, y) + sobel_y(img, x, y) * sobel_y(
            img,
            x,
            y,
        ) > 30 * 30),
{
}

/// How the direction sectors follow the symmetries of the plane, for any non-zero
/// gradient in sector `b`: the +x axis is sector 0 and the diagonal +x = +y is
/// sector 1; reversing the gradient adds 4, mirroring left to right turns `b`
/// into `4 − b`, mirroring top to bottom into `−b`, and swapping the axes into
/// `2 − b` (all modulo 8).
pub proof fn lemma_direction_bin_symmetries(gx: int, gy: int)
    requires
        gx != 0 || gy != 0,
    ensures
        gx > 0 ==> direction_bin(gx, 0) == 0,
        gx > 0 ==> direction_bin(gx, gx) == 1,
        0 <= direction_bin(gx, gy) < 8,
        direction_bin(-gx, -gy) == (direction_bin(gx, gy) + 4) % 8,
        direction_bin(-gx, gy) == (12 - direction_bin(gx, gy)) % 8,
        direction_bin(gx, -gy) == (8 - direction_bin(gx, gy)) % 8,
        direction_bin(gy, gx) == (10 - direction_bin(gx, gy)) % 8,
{
    lemma_direction_bin_opposite(gx, gy);
    let ax = abs(gx);
    let ay = abs(gy);
    assert(abs(-gx) == ax && abs(-gy) == ay);
    if gx > 0 {
        assert(near_axis(0, gx)) by {
            assert((0 + gx) * (0 + gx) < 2 * gx * gx) by (nonlinear_arith)
                requires
                    gx > 0,
            ;
        }
        assert(!near_axis(gx, gx)) by {
            assert(!((gx + gx) * (gx + gx) < 2 * gx * gx)) by (nonlinear_arith);
        }
    }
    if gx == 0 {
        assert(near_axis(ax, ay)) by {
            assert((ax + ay) * (ax + ay) < 2 * ay * ay) by (nonlinear_arith)
                requires
                    ax == 0,
                    ay > 0,
            ;
        }
        assert(!near_axis(ay, ax)) by {
            assert(!((ay + ax) * (ay + ax) < 2 * ax * ax)) by (nonlinear_arith)
                requires
                    ax == 0,
            ;
        }
    }
    if gy == 0 {
        assert(near_axis(ay, ax)) by {
            assert((ay + ax) * (ay + ax) < 2 * ax * ax) by (nonlinear_arith)
                requires
                    ay == 0,
                    ax > 0,
            ;
        }
        assert(!near_axis(ax, ay)) by {
            assert(!((ax + ay) * (ax + ay) < 2 * ay * ay)) by (nonlinear_arith)
                requires
                    ay == 0,
            ;
        }
    }
    assert(!(near_axis(ay, ax) && near_axis(ax, ay))) by {
        assert(!((ay + ax) * (ay + ax) < 2 * ax * ax && (ax + ay) * (ax + ay) < 2 * ay * ay))
            by (nonlinear_arith)
            requires
                ax >= 0,
                ay >= 0,
        ;
    }
}

/// Inverting an image (every value `p` becomes `255 − p`) negates its Sobel and
/// Laplacian responses and keeps its noise residuals, so it keeps the edge count
/// and the strongest gradient and turns every edge's direction sector half round:
/// sector `(b + 4) % 8` of the inverted image counts what sector `b` counted.
pub proof fn lemma_inverted_edges(img: &GrayImage, inv: &GrayImage)
    requires
        img.wf(),
        inv.wf(),
        inv.width == img.width,
        inv.height == img.height,
        forall|k: int| 0 <= k < img.pixels@.len() ==> #[trigger] inv.pixels@[k] == 255 - img.pixels@[k],
    ensures
        forall|x: int, y: int|
            is_interior(img, x, y) ==> #[trigger] sobel_x(inv, x, y) == -sobel_x(img, x, y)
                && sobel_y(inv, x, y) == -sobel_y(img, x, y) && laplacian(inv, x, y) == -laplacian(
                img,
                x,
                y,
            ) && noise_residual(inv, x, y) == noise_residual(img, x, y),
        rect_count(|x: int, y: int| is_edge(inv, x, y), 1, img.width - 1, 1, img.height - 1)
            == rect_count(|x: int, y: int| is_edge(img, x, y), 1, img.width - 1, 1, img.height - 1),
        forall|b: int| 0 <= b < 8 ==> sector_count(inv, (b + 4) % 8) == #[trigger] sector_count(img, b),
        rect_max(|x: int, y: int| sobel_energy(inv, x, y), 1, img.width - 1, 1, img.height - 1)
            == rect_max(
            |x: int, y: int| sobel_energy(img, x, y),
            1,
            img.width - 1,
            1,
            img.height - 1,
        ),
{
    let w = img.width as int;
    let h = img.height as int;
    lemma_inverse_pixels(img, inv);
    assert forall|x: int, y: int| is_interior(img, x, y) implies #[trigger] sobel_x(inv, x, y)
        == -sobel_x(img, x, y) && sobel_y(inv, x, y) == -sobel_y(img, x, y) && laplacian(inv, x, y)
        == -laplacian(img, x, y) && noise_residual(inv, x, y) == noise_residual(img, x, y) by {
        lemma_inverse_responses(img, inv, x, y);
    }
    assert forall|x: int, y: int| 1 <= x < w - 1 && 1 <= y < h - 1 implies #[trigger] is_edge(
        inv,
        x,
        y,
    ) == is_edge(img, x, y) && sobel_energy(inv, x, y) == sobel_energy(img, x, y) by {
        lemma_inverse_responses(img, inv, x, y);
    }
    lemma_rect_count_eq(
        |x: int, y: int| is_edge(inv, x, y),
        |x: int, y: int| is_edge(img, x, y),
        1,
        w - 1,
        1,
        h - 1,
    );
    assert forall|x: int, y: int| 1 <= x < w - 1 && 1 <= y < h - 1 implies #[trigger] sobel_energy(
        inv,
        x,
        y,
    ) == sobel_energy(img, x, y) by {
        lemma_inverse_responses(img, inv, x, y);
    }
    lemma_rect_max_eq(
        |x: int, y: int| sobel_energy(inv, x, y),
        |x: int, y: int| sobel_energy(img, x, y),
        1,
        w - 1,
        1,
        h - 1,
    );
    assert forall|b: int| 0 <= b < 8 implies sector_count(inv, (b + 4) % 8) == #[trigger] sector_count(
        img,
        b,
    ) by {
        lemma_inverse_sector(img, inv, b);
    }
}

} // verus!
