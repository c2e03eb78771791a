//! Row-major grids: how a flat buffer is addressed, and counting, maximum and
//! listing over rectangular regions of a grid.

use vstd::prelude::*;

verus! {

/// The element of a row-major buffer of row width `w` at column `x`, row `y`.
pub open spec fn grid_at<T>(s: Seq<T>, w: int, x: int, y: int) -> T {
    s[y * w + x]
}

/// A cell inside a `w` × `h` grid has an index inside the buffer, and the cells
/// of a row lie before those of the next row.
pub proof fn lemma_cell_index(w: int, h: int, x: int, y: int)
    requires
        0 <= x < w,
        0 <= y < h,
    ensures
        0 <= y * w,
        0 <= y * w + x,
        y * w + x < (y + 1) * w,
        (y + 1) * w <= h * w,
        y * w + x < h * w,
        h * w == w * h,
{
    assert(0 <= y * w) by (nonlinear_arith)
        requires
            0 <= y,
            0 <= w,
    ;
    assert((y + 1) * w == y * w + w) by (nonlinear_arith);
    assert((y + 1) * w <= h * w) by (nonlinear_arith)
        requires
            y + 1 <= h,
            0 <= w,
    ;
    assert(h * w == w * h) by (nonlinear_arith);
}

/// Moving one row down adds one row width to the index.
pub proof fn lemma_next_row(w: int, y: int)
    ensures
        (y + 1) * w == y * w + w,
        (y - 1) * w == y * w - w,
{
    assert((y + 1) * w == y * w + w) by (nonlinear_arith);
    assert((y - 1) * w == y * w - w) by (nonlinear_arith);
}

/// Two cells of a grid with row width `w` have the same index only if they are
/// the same cell, and a cell in an earlier row has a smaller index.
pub proof fn lemma_cell_order(w: int, x1: int, y1: int, x2: int, y2: int)
    requires
        0 <= x1 < w,
        0 <= x2 < w,
    ensures
        y1 < y2 ==> y1 * w + x1 < y2 * w + x2,
        y1 == y2 && x1 < x2 ==> y1 * w + x1 < y2 * w + x2,
        y1 * w + x1 == y2 * w + x2 ==> x1 == x2 && y1 == y2,
{
    if y1 < y2 {
        assert(y1 * w + w <= y2 * w) by (nonlinear_arith)
            requires
                y1 < y2,
                0 <= w,
        ;
    }
    if y2 < y1 {
        assert(y2 * w + w <= y1 * w) by (nonlinear_arith)
            requires
                y2 < y1,
                0 <= w,
        ;
    }
}

/// Number of columns `x` in `[x0, x1)` of row `y` at which `f` holds.
pub open spec fn row_count(f: spec_fn(int, int) -> bool, y: int, x0: int, x1: int) -> nat
    decreases x1 - x0,
{
    if x1 <= x0 {
        0
    } else {
        row_count(f, y, x0, x1 - 1) + if f(x1 - 1, y) {
            1nat
        } else {
            0nat
        }
    }
}

/// Number of cells `(x, y)` of the rectangle `[x0, x1)` × `[y0, y1)` at which `f` holds.
pub open spec fn rect_count(f: spec_fn(int, int) -> bool, x0: int, x1: int, y0: int, y1: int) -> nat
    decreases y1 - y0,
{
    if y1 <= y0 {
        0
    } else {
        rect_count(f, x0, x1, y0, y1 - 1) + row_count(f, y1 - 1, x0, x1)
    }
}

/// The largest of 0 and the values of `g` on columns `[x0, x1)` of row `y`.
pub open spec fn row_max(g: spec_fn(int, int) -> int, y: int, x0: int, x1: int) -> int
    decreases x1 - x0,
{
    if x1 <= x0 {
        0
    } else {
        let m = row_max(g, y, x0, x1 - 1);
        if g(x1 - 1, y) > m {
            g(x1 - 1, y)
        } else {
            m
        }
    }
}

/// The largest of 0 and the values of `g` on the rectangle `[x0, x1)` × `[y0, y1)`.
pub open spec fn rect_max(g: spec_fn(int, int) -> int, x0: int, x1: int, y0: int, y1: int) -> int
    decreases y1 - y0,
{
    if y1 <= y0 {
        0
    } else {
        let m = rect_max(g, x0, x1, y0, y1 - 1);
        let r = row_max(g, y1 - 1, x0, x1);
        if r > m {
            r
        } else {
            m
        }
    }
}

/// The values of `g` on columns `[x0, x1)` of row `y`, left to right.
pub open spec fn row_seq(g: spec_fn(int, int) -> int, y: int, x0: int, x1: int) -> Seq<int> {
    Seq::new(if x1 > x0 { (x1 - x0) as nat } else { 0nat }, |i: int| g(x0 + i, y))
}

/// The values of `g` on the rectangle `[x0, x1)` × `[y0, y1)` in row-major order.
pub open spec fn rect_seq(g: spec_fn(int, int) -> int, x0: int, x1: int, y0: int, y1: int) -> Seq<int>
    decreases y1 - y0,
{
    if y1 <= y0 {
        Seq::empty()
    } else {
        rect_seq(g, x0, x1, y0, y1 - 1) + row_seq(g, y1 - 1, x0, x1)
    }
}

/// A row count is at most the width of the row.
pub proof fn lemma_row_count_bound(f: spec_fn(int, int) -> bool, y: int, x0: int, x1: int)
    requires
        x0 <= x1,
    ensures
        row_count(f, y, x0, x1) <= x1 - x0,
    decreases x1 - x0,
{
    if x1 > x0 {
        lemma_row_count_bound(f, y, x0, x1 - 1);
    }
}

/// A count over a rectangle is at most its area.
pub proof fn lemma_rect_count_bound(f: spec_fn(int, int) -> bool, x0: int, x1: int, y0: int, y1: int)
    requires
        x0 <= x1,
        y0 <= y1,
    ensures
        rect_count(f, x0, x1, y0, y1) <= (x1 - x0) * (y1 - y0),
    decreases y1 - y0,
{
    if y1 > y0 {
        lemma_rect_count_bound(f, x0, x1, y0, y1 - 1);
        lemma_row_count_bound(f, y1 - 1, x0, x1);
        assert((x1 - x0) * (y1 - 1 - y0) + (x1 - x0) == (x1 - x0) * (y1 - y0)) by (nonlinear_arith);
    }
}

/// A row count where `f` holds nowhere is 0.
pub proof fn lemma_row_count_none(f: spec_fn(int, int) -> bool, y: int, x0: int, x1: int)
    requires
        forall|x: int| x0 <= x < x1 ==> !#[trigger] f(x, y),
    ensures
        row_count(f, y, x0, x1) == 0,
    decreases x1 - x0,
{
    if x1 > x0 {
        lemma_row_count_none(f, y, x0, x1 - 1);
    }
}

/// A count over a rectangle where `f` holds nowhere is 0.
pub proof fn lemma_rect_count_none(f: spec_fn(int, int) -> bool, x0: int, x1: int, y0: int, y1: int)
    requires
        forall|x: int, y: int| x0 <= x < x1 && y0 <= y < y1 ==> !#[trigger] f(x, y),
    ensures
        rect_count(f, x0, x1, y0, y1) == 0,
    decreases y1 - y0,
{
    if y1 > y0 {
        lemma_rect_count_none(f, x0, x1, y0, y1 - 1);
        lemma_row_count_none(f, y1 - 1, x0, x1);
    }
}

/// The row maximum where `g` is 0 everywhere is 0.
pub proof fn lemma_row_max_zero(g: spec_fn(int, int) -> int, y: int, x0: int, x1: int)
    requires
        forall|x: int| x0 <= x < x1 ==> #[trigger] g(x, y) == 0,
    ensures
        row_max(g, y, x0, x1) == 0,
    decreases x1 - x0,
{
    if x1 > x0 {
        lemma_row_max_zero(g, y, x0, x1 - 1);
    }
}

/// The maximum over a rectangle where `g` is 0 everywhere is 0.
pub proof fn lemma_rect_max_zero(g: spec_fn(int, int) -> int, x0: int, x1: int, y0: int, y1: int)
    requires
        forall|x: int, y: int| x0 <= x < x1 && y0 <= y < y1 ==> #[trigger] g(x, y) == 0,
    ensures
        rect_max(g, x0, x1, y0, y1) == 0,
    decreases y1 - y0,
{
    if y1 > y0 {
        lemma_rect_max_zero(g, x0, x1, y0, y1 - 1);
        lemma_row_max_zero(g, y1 - 1, x0, x1);
    }
}

/// Every cell of a row-major buffer of row width `w` that comes before column
/// `x` of row `y` holds the value `g` gives it.
pub open spec fn filled_before<T>(s: Seq<T>, w: int, g: spec_fn(int, int) -> T, x: int, y: int) -> bool {
    forall|xx: int, yy: int|
        0 <= xx < w && 0 <= yy && (yy < y || (yy == y && xx < x)) ==> #[trigger] grid_at(
            s,
            w,
            xx,
            yy,
        ) == g(xx, yy)
}

/// Appending the value of the next cell extends a row-major fill by one cell.
pub proof fn lemma_filled_push<T>(s: Seq<T>, w: int, g: spec_fn(int, int) -> T, x: int, y: int, v: T)
    requires
        0 <= x < w,
        0 <= y,
        s.len() == y * w + x,
        filled_before(s, w, g, x, y),
        v == g(x, y),
    ensures
        s.push(v).len() == y * w + x + 1,
        filled_before(s.push(v), w, g, x + 1, y),
{
    let t = s.push(v);
    assert forall|xx: int, yy: int|
        0 <= xx < w && 0 <= yy && (yy < y || (yy == y && xx < x + 1)) implies #[trigger] grid_at(
        t,
        w,
        xx,
        yy,
    ) == g(xx, yy) by {
        lemma_cell_order(w, xx, yy, x, y);
        assert(0 <= yy * w) by (nonlinear_arith)
            requires
                0 <= yy,
                0 <= w,
        ;
        if xx == x && yy == y {
        } else {
            assert(grid_at(s, w, xx, yy) == g(xx, yy));
        }
    }
}

/// A fill that has reached the end of row `y` continues at the start of row `y + 1`.
pub proof fn lemma_filled_next_row<T>(s: Seq<T>, w: int, g: spec_fn(int, int) -> T, y: int)
    requires
        0 <= w,
        0 <= y,
        s.len() == y * w + w,
        filled_before(s, w, g, w, y),
    ensures
        s.len() == (y + 1) * w,
        filled_before(s, w, g, 0, y + 1),
{
    lemma_next_row(w, y);
    assert forall|xx: int, yy: int|
        0 <= xx < w && 0 <= yy && (yy < y + 1 || (yy == y + 1 && xx < 0)) implies #[trigger] grid_at(
        s,
        w,
        xx,
        yy,
    ) == g(xx, yy) by {
        assert(yy < y || (yy == y && xx < w));
    }
}

/// The total of the first `n` entries of a sequence of counters.
pub open spec fn total<T: Integer>(s: Seq<T>, n: int) -> int
    decreases n,
{
    if n <= 0 {
        0
    } else {
        total(s, n - 1) + s[n - 1] as int
    }
}

/// Changing one counter among the first `n` changes their total by the difference.
pub proof fn lemma_total_update<T: Integer>(s: Seq<T>, i: int, v: T, n: int)
    requires
        0 <= i < n <= s.len(),
    ensures
        total(s.update(i, v), n) == total(s, n) - s[i] as int + v as int,
    decreases n,
{
    if n - 1 > i {
        lemma_total_update(s, i, v, n - 1);
    } else {
        lemma_total_same(s, s.update(i, v), n - 1);
    }
}

/// Totals of sequences that agree on their first `n` entries are equal.
pub proof fn lemma_total_same<T: Integer>(s: Seq<T>, t: Seq<T>, n: int)
    requires
        n <= s.len(),
        n <= t.len(),
        forall|k: int| 0 <= k < n ==> s[k] == t[k],
    ensures
        total(s, n) == total(t, n),
    decreases n,
{
    if n > 0 {
        lemma_total_same(s, t, n - 1);
    }
}

/// A listing over a rectangle with no columns, or no rows, is empty.
pub proof fn lemma_rect_seq_empty(g: spec_fn(int, int) -> int, x0: int, x1: int, y0: int, y1: int)
    requires
        x1 <= x0 || y1 <= y0,
    ensures
        rect_seq(g, x0, x1, y0, y1) =~= Seq::<int>::empty(),
    decreases y1 - y0,
{
    if y1 > y0 {
        lemma_rect_seq_empty(g, x0, x1, y0, y1 - 1);
        assert(row_seq(g, y1 - 1, x0, x1) =~= Seq::<int>::empty());
    }
}

/// Listing one more column of the current row appends its value.
pub proof fn lemma_row_seq_push(g: spec_fn(int, int) -> int, y: int, x0: int, x: int)
    requires
        x0 <= x,
    ensures
        row_seq(g, y, x0, x + 1) =~= row_seq(g, y, x0, x).push(g(x, y)),
{
}

/// Row counts of two predicates that agree on the row are equal.
pub proof fn lemma_row_count_eq(
    f: spec_fn(int, int) -> bool,
    g: spec_fn(int, int) -> bool,
    y: int,
    x0: int,
    x1: int,
)
    requires
        forall|x: int| x0 <= x < x1 ==> #[trigger] f(x, y) == g(x, y),
    ensures
        row_count(f, y, x0, x1) == row_count(g, y, x0, x1),
    decreases x1 - x0,
{
    if x1 > x0 {
        lemma_row_count_eq(f, g, y, x0, x1 - 1);
    }
}

/// Counts of two predicates that agree on a rectangle are equal.
pub proof fn lemma_rect_count_eq(
    f: spec_fn(int, int) -> bool,
    g: spec_fn(int, int) -> bool,
    x0: int,
    x1: int,
    y0: int,
    y1: int,
)
    requires
        forall|x: int, y: int| x0 <= x < x1 && y0 <= y < y1 ==> #[trigger] f(x, y) == g(x, y),
    ensures
        rect_count(f, x0, x1, y0, y1) == rect_count(g, x0, x1, y0, y1),
    decreases y1 - y0,
{
    if y1 > y0 {
        lemma_rect_count_eq(f, g, x0, x1, y0, y1 - 1);
        lemma_row_count_eq(f, g, y1 - 1, x0, x1);
    }
}

/// Row maxima of two functions that agree on the row are equal.
pub proof fn lemma_row_max_eq(
    f: spec_fn(int, int) -> int,
    g: spec_fn(int, int) -> int,
    y: int,
    x0: int,
    x1: int,
)
    requires
        forall|x: int| x0 <= x < x1 ==> #[trigger] f(x, y) == g(x, y),
    ensures
        row_max(f, y, x0, x1) == row_max(g, y, x0, x1),
    decreases x1 - x0,
{
    if x1 > x0 {
        lemma_row_max_eq(f, g, y, x0, x1 - 1);
    }
}

/// Maxima of two functions that agree on a rectangle are equal.
pub proof fn lemma_rect_max_eq(
    f: spec_fn(int, int) -> int,
    g: spec_fn(int, int) -> int,
    x0: int,
    x1: int,
    y0: int,
    y1: int,
)
    requires
        forall|x: int, y: int| x0 <= x < x1 && y0 <= y < y1 ==> #[trigger] f(x, y) == g(x, y),
    ensures
        rect_max(f, x0, x1, y0, y1) == rect_max(g, x0, x1, y0, y1),
    decreases y1 - y0,
{
    if y1 > y0 {
        lemma_rect_max_eq(f, g, x0, x1, y0, y1 - 1);
        lemma_row_max_eq(f, g, y1 - 1, x0, x1);
    }
}

} // verus!
