//! Integer groundwork of the depth estimators: the choice of algorithm by name,
//! and the full-size Sobel-energy and Laplacian-focus maps the estimators start
//! from.

use vstd::prelude::*;

use crate::filters::{
    abs, is_interior, laplacian, laplacian_at, lemma_energy_keeps_every_gradient, lemma_sobel_bounds,
    sobel_energy, sobel_energy_at, sobel_x, sobel_y,
};
use crate::grid::{filled_before, grid_at, lemma_filled_next_row, lemma_filled_push};
use crate::raster::GrayImage;

verus! {

/// The depth estimation algorithms.
#[derive(Clone, Copy, Debug, PartialEq, Eq, Structural)]
pub enum DepthMethod {
    /// Brightness as depth: bright is near.
    Luminance,
    /// Sobel gradient magnitude as depth: strong edges are near.
    Gradient,
    /// A blend of luminance, gradient and focus with a radial bias.
    Combined,
}

/// The algorithm a name selects: "luminance" and "gradient" select those, and any
/// other name selects the combined algorithm.
pub open spec fn method_for_name(name: Seq<char>) -> DepthMethod {
    if name == "luminance"@ {
        DepthMethod::Luminance
    } else if name == "gradient"@ {
        DepthMethod::Gradient
    } else {
        DepthMethod::Combined
    }
}

/// The name of an algorithm.
pub open spec fn method_name(m: DepthMethod) -> Seq<char> {
    match m {
        DepthMethod::Luminance => "luminance"@,
        DepthMethod::Gradient => "gradient"@,
        DepthMethod::Combined => "combined"@,
    }
}

impl DepthMethod {
    /// Selects the algorithm for a name, falling back to the combined one.
    pub fn parse(name: &str) -> (m: DepthMethod)
        ensures
            m == method_for_name(name@),
    {
        let s = name.to_owned();
        if s == "luminance".to_owned() {
            DepthMethod::Luminance
        } else if s == "gradient".to_owned() {
            DepthMethod::Gradient
        } else {
            DepthMethod::Combined
        }
    }

    /// The name of the algorithm.
    pub fn name(&self) -> (s: &'static str)
        ensures
            s@ == method_name(*self),
    {
        match self {
            DepthMethod::Luminance => "luminance",
            DepthMethod::Gradient => "gradient",
            DepthMethod::Combined => "combined",
        }
    }
}

/// The name of every algorithm selects that algorithm again.
pub proof fn lemma_name_selects_method(m: DepthMethod)
    ensures
        method_for_name(method_name(m)) == m,
{
    reveal_strlit("luminance");
    reveal_strlit("gradient");
    reveal_strlit("combined");
    assert("luminance"@.len() != "gradient"@.len());
    assert("combined"@.len() != "luminance"@.len());
    assert("combined"@[0] != "gradient"@[0]);
}

/// The squared Sobel gradient magnitude at an interior pixel, 0 on the border.
pub open spec fn energy_or_zero(img: &GrayImage, x: int, y: int) -> int {
    if is_interior(img, x, y) {
        sobel_energy(img, x, y)
    } else {
        0
    }
}

/// The absolute Laplacian response at an interior pixel, 0 on the border.
pub open spec fn focus_or_zero(img: &GrayImage, x: int, y: int) -> int {
    if is_interior(img, x, y) {
        abs(laplacian(img, x, y))
    } else {
        0
    }
}

/// The squared Sobel gradient magnitude of every pixel, row-major, with 0 on the
/// one-pixel border.
pub fn gradient_energy_map(img: &GrayImage) -> (m: Vec<u32>)
    requires
        img.wf(),
    ensures
        m@.len() == img.width * img.height,
        forall|x: int, y: int|
            0 <= x < img.width && 0 <= y < img.height ==> #[trigger] grid_at(
                m@,
                img.width as int,
                x,
                y,
            ) as int == energy_or_zero(img, x, y),
        forall|x: int, y: int|
            is_interior(img, x, y) ==> #[trigger] grid_at(m@, img.width as int, x, y) as int
                == sobel_x(img, x, y) * sobel_x(img, x, y) + sobel_y(img, x, y) * sobel_y(img, x, y),
        forall|x: int, y: int|
            0 <= x < img.width && 0 <= y < img.height && !is_interior(img, x, y) ==> #[trigger] grid_at(
                m@,
                img.width as int,
                x,
                y,
            ) == 0,
{
    let ghost g = |x: int, y: int| energy_or_zero(img, x, y) as u32;
    let w = img.width;
    let h = img.height;
    let mut m: Vec<u32> = Vec::new();
    let mut y: u32 = 0;
    while y < h
        invariant
            img.wf(),
            g == (|x: int, y: int| energy_or_zero(img, x, y) as u32),
            w == img.width,
            h == img.height,
            y <= h,
            m@.len() == y * w,
            filled_before(m@, w as int, g, 0, y as int),
        decreases h - y,
    {
        let mut x: u32 = 0;
        while x < w
            invariant
                img.wf(),
                g == (|x: int, y: int| energy_or_zero(img, x, y) as u32),
                w == img.width,
                h == img.height,
                y < h,
                x <= w,
                m@.len() == y * w + x,
                filled_before(m@, w as int, g, x as int, y as int),
            decreases w - x,
        {
            let v: u32 = if x >= 1 && x + 1 < w && y >= 1 && y + 1 < h {
                sobel_energy_at(img, x, y)
            } else {
                0
            };
            proof {
                lemma_filled_push(m@, w as int, g, x as int, y as int, v);
            }
            m.push(v);
            x = x + 1;
        }
        proof {
            lemma_filled_next_row(m@, w as int, g, y as int);
        }
        y = y + 1;
    }
    proof {
        assert forall|x: int, y: int| 0 <= x < w && 0 <= y < h implies #[trigger] grid_at(
            m@,
            w as int,
            x,
            y,
        ) as int == energy_or_zero(img, x, y) by {
            assert(grid_at(m@, w as int, x, y) == g(x, y));
            lemma_sobel_bounds(img, x, y);
        }
        assert forall|x: int, y: int| is_interior(img, x, y) implies #[trigger] grid_at(
            m@,
            w as int,
            x,
            y,
        ) as int == sobel_x(img, x, y) * sobel_x(img, x, y) + sobel_y(img, x, y) * sobel_y(img, x, y) by {
            assert(grid_at(m@, w as int, x, y) == g(x, y));
            lemma_sobel_bounds(img, x, y);
        }
        assert forall|x: int, y: int|
            0 <= x < w && 0 <= y < h && !is_interior(img, x, y) implies #[trigger] grid_at(
            m@,
            w as int,
            x,
            y,
        ) == 0 by {
            assert(grid_at(m@, w as int, x, y) == g(x, y));
        }
        assert(h * w == w * h) by (nonlinear_arith);
    }
    m
}

/// Every interior entry of the gradient-energy map is 0 exactly when the pixel has
/// no gradient at all: weak gradients are kept, not cut off.
pub proof fn lemma_energy_map_keeps_weak_gradients(img: &GrayImage, x: int, y: int)
    requires
        is_interior(img, x, y),
    ensures
        (energy_or_zero(img, x, y) == 0) == (sobel_x(img, x, y) == 0 && sobel_y(img, x, y) == 0),
        energy_or_zero(img, x, y) >= abs(sobel_x(img, x, y)),
        energy_or_zero(img, x, y) >= abs(sobel_y(img, x, y)),
{
    lemma_energy_keeps_every_gradient(img, x, y);
}

/// The absolute Laplacian response of every pixel, row-major, with 0 on the
/// one-pixel border: high values mark sharp, in-focus detail.
pub fn focus_map(img: &GrayImage) -> (m: Vec<u32>)
    requires
        img.wf(),
    ensures
        m@.len() == img.width * img.height,
        forall|x: int, y: int|
            0 <= x < img.width && 0 <= y < img.height ==> #[trigger] grid_at(
                m@,
                img.width as int,
                x,
                y,
            ) as int == focus_or_zero(img, x, y),
        forall|x: int, y: int|
            is_interior(img, x, y) ==> #[trigger] grid_at(m@, img.width as int, x, y) as int == abs(
                laplacian(img, x, y),
            ),
        forall|x: int, y: int|
            0 <= x < img.width && 0 <= y < img.height && !is_interior(img, x, y) ==> #[trigger] grid_at(
                m@,
                img.width as int,
                x,
                y,
            ) == 0,
{
    let ghost g = |x: int, y: int| focus_or_zero(img, x, y) as u32;
    let w = img.width;
    let h = img.height;
    let mut m: Vec<u32> = Vec::new();
    let mut y: u32 = 0;
    while y < h
        invariant
            img.wf(),
            g == (|x: int, y: int| focus_or_zero(img, x, y) as u32),
            w == img.width,
            h == img.height,
            y <= h,
            m@.len() == y * w,
            filled_before(m@, w as int, g, 0, y as int),
        decreases h - y,
    {
        let mut x: u32 = 0;
        while x < w
            invariant
                img.wf(),
                g == (|x: int, y: int| focus_or_zero(img, x, y) as u32),
                w == img.width,
                h == img.height,
                y < h,
                x <= w,
                m@.len() == y * w + x,
                filled_before(m@, w as int, g, x as int, y as int),
            decreases w - x,
        {
            let v: u32 = if x >= 1 && x + 1 < w && y >= 1 && y + 1 < h {
                let l = laplacian_at(img, x, y);
                if l < 0 {
                    (-l) as u32
                } else {
                    l as u32
                }
            } else {
                0
            };
            proof {
                lemma_filled_push(m@, w as int, g, x as int, y as int, v);
            }
            m.push(v);
            x = x + 1;
        }
        proof {
            lemma_filled_next_row(m@, w as int, g, y as int);
        }
        y = y + 1;
    }
    proof {
        assert forall|x: int, y: int| 0 <= x < w && 0 <= y < h implies #[trigger] grid_at(
            m@,
            w as int,
            x,
            y,
        ) as int == focus_or_zero(img, x, y) by {
            assert(grid_at(m@, w as int, x, y) == g(x, y));
            lemma_sobel_bounds(img, x, y);
        }
        assert forall|x: int, y: int| is_interior(img, x, y) implies #[trigger] grid_at(
            m@,
            w as int,
            x,
            y,
        ) as int == abs(laplacian(img, x, y)) by {
            assert(grid_at(m@, w as int, x, y) == g(x, y));
            lemma_sobel_bounds(img, x, y);
        }
        assert forall|x: int, y: int|
            0 <= x < w && 0 <= y < h && !is_interior(img, x, y) implies #[trigger] grid_at(
            m@,
            w as int,
            x,
            y,
        ) == 0 by {
            assert(grid_at(m@, w as int, x, y) == g(x, y));
        }
        assert(h * w == w * h) by (nonlinear_arith);
    }
    m
}

} // verus!
