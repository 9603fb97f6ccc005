//! The rasterizer: drawing lines and filled triangles onto any `Drawable`
//! surface, with per-pixel clipping against the surface extent.

use crate::drawable::Drawable;
use crate::walk::{
    abs, in_range, lemma_line_rows_covered, lemma_line_seq_props, lemma_line_set_horizontal,
    lemma_line_set_vertical, line_seq, line_set, sign, walk_line,
};
use vstd::prelude::*;

verus! {

/// Write one pixel through the shared bounds check: the pixel lands on the
/// surface only when it lies inside `[0, w) x [0, h)`.
#[verifier::loop_isolation(false)]
fn plot<D: Drawable>(surface: &mut D, x: i32, y: i32, w: i32, h: i32, color: u32)
    requires
        old(surface).inv(),
        w as int == old(surface).spec_width(),
        h as int == old(surface).spec_height(),
    ensures
        final(surface).inv(),
        final(surface).spec_width() == old(surface).spec_width(),
        final(surface).spec_height() == old(surface).spec_height(),
        forall|i: int, j: int|
            final(surface).spec_pixel(i, j) == (if i == x as int && j == y as int && 0 <= i
                < w as int && 0 <= j < h as int {
                color
            } else {
                old(surface).spec_pixel(i, j)
            }),
{
    if x >= 0 && y >= 0 && x < w && y < h {
        surface.set_pixel(x as usize, y as usize, color);
    }
}

/// Draw a horizontal run from (x1, y) to (x2, y), in either x order,
/// clipped to the surface extent.
#[verifier::loop_isolation(false)]
fn draw_horizontal<D: Drawable>(
    surface: &mut D,
    y: i32,
    x1: i32,
    x2: i32,
    w: i32,
    h: i32,
    color: u32,
)
    requires
        old(surface).inv(),
        w as int == old(surface).spec_width(),
        h as int == old(surface).spec_height(),
    ensures
        final(surface).inv(),
        final(surface).spec_width() == old(surface).spec_width(),
        final(surface).spec_height() == old(surface).spec_height(),
        forall|i: int, j: int|
            final(surface).spec_pixel(i, j) == (if j == y as int && in_range(
                i,
                x1 as int,
                x2 as int,
            ) && 0 <= i < w as int && 0 <= j < h as int {
                color
            } else {
                old(surface).spec_pixel(i, j)
            }),
{
    // row-level bounds checks and early exit
    if y < 0 || y >= h {
        return ;
    }
    if (x1 < 0 && x2 < 0) || (x1 >= w && x2 >= w) {
        return ;
    }
    let (lo, hi) = if x1 > x2 {
        (x2, x1)
    } else {
        (x1, x2)
    };
    let mut x: i64 = lo as i64;
    while x <= hi as i64
        invariant
            lo as i64 <= x <= hi as i64 + 1,
            surface.inv(),
            surface.spec_width() == old(surface).spec_width(),
            surface.spec_height() == old(surface).spec_height(),
            forall|i: int, j: int|
                surface.spec_pixel(i, j) == (if j == y as int && lo as int <= i < x as int && 0 <= i
                    < w as int && 0 <= j < h as int {
                    color
                } else {
                    old(surface).spec_pixel(i, j)
                }),
        decreases hi as i64 + 1 - x,
    {
        plot(surface, x as i32, y, w, h, color);
        x = x + 1;
    }
}

/// Draw a vertical run from (x, y1) to (x, y2), in either y order, clipped
/// to the surface extent.
#[verifier::loop_isolation(false)]
fn draw_vertical<D: Drawable>(
    surface: &mut D,
    x: i32,
    y1: i32,
    y2: i32,
    w: i32,
    h: i32,
    color: u32,
)
    requires
        old(surface).inv(),
        w as int == old(surface).spec_width(),
        h as int == old(surface).spec_height(),
    ensures
        final(surface).inv(),
        final(surface).spec_width() == old(surface).spec_width(),
        final(surface).spec_height() == old(surface).spec_height(),
        forall|i: int, j: int|
            final(surface).spec_pixel(i, j) == (if i == x as int && in_range(
                j,
                y1 as int,
                y2 as int,
            ) && 0 <= i < w as int && 0 <= j < h as int {
                color
            } else {
                old(surface).spec_pixel(i, j)
            }),
{
    // column-level bounds checks and early exit
    if x < 0 || x >= w {
        return ;
    }
    if (y1 < 0 && y2 < 0) || (y1 >= h && y2 >= h) {
        return ;
    }
    let (lo, hi) = if y1 > y2 {
        (y2, y1)
    } else {
        (y1, y2)
    };
    let mut y: i64 = lo as i64;
    while y <= hi as i64
        invariant
            lo as i64 <= y <= hi as i64 + 1,
            surface.inv(),
            surface.spec_width() == old(surface).spec_width(),
            surface.spec_height() == old(surface).spec_height(),
            forall|i: int, j: int|
                surface.spec_pixel(i, j) == (if i == x as int && lo as int <= j < y as int && 0 <= i
                    < w as int && 0 <= j < h as int {
                    color
                } else {
                    old(surface).spec_pixel(i, j)
                }),
        decreases hi as i64 + 1 - y,
    {
        plot(surface, x, y as i32, w, h, color);
        y = y + 1;
    }
}

/// Draw a perfect diagonal from (x1, y1) to (x2, y2): both axes step by one
/// each iteration, so no error accumulator is needed.
#[verifier::loop_isolation(false)]
fn draw_diagonal<D: Drawable>(
    surface: &mut D,
    x1: i32,
    y1: i32,
    x2: i32,
    y2: i32,
    w: i32,
    h: i32,
    color: u32,
)
    requires
        old(surface).inv(),
        w as int == old(surface).spec_width(),
        h as int == old(surface).spec_height(),
        abs(x2 as int - x1 as int) == abs(y2 as int - y1 as int),
    ensures
        final(surface).inv(),
        final(surface).spec_width() == old(surface).spec_width(),
        final(surface).spec_height() == old(surface).spec_height(),
        forall|i: int, j: int|
            final(surface).spec_pixel(i, j) == (if line_set(
                x1 as int,
                y1 as int,
                x2 as int,
                y2 as int,
            ).contains((i, j)) && 0 <= i < w as int && 0 <= j < h as int {
                color
            } else {
                old(surface).spec_pixel(i, j)
            }),
{
    let ghost s = line_seq(x1 as int, y1 as int, x2 as int, y2 as int);
    proof {
        lemma_line_seq_props(x1 as int, y1 as int, x2 as int, y2 as int);
    }
    let sx: i64 = if x2 > x1 {
        1
    } else if x2 < x1 {
        -1
    } else {
        0
    };
    let sy: i64 = if y2 > y1 {
        1
    } else if y2 < y1 {
        -1
    } else {
        0
    };
    let steps: i64 = if x2 >= x1 {
        x2 as i64 - x1 as i64
    } else {
        x1 as i64 - x2 as i64
    };
    let mut x: i64 = x1 as i64;
    let mut y: i64 = y1 as i64;
    let mut k: i64 = 0;
    while k <= steps
        invariant
            0 <= k <= steps + 1,
            k <= steps ==> (x as int, y as int) == s[k as int],
            surface.inv(),
            surface.spec_width() == old(surface).spec_width(),
            surface.spec_height() == old(surface).spec_height(),
            forall|i: int, j: int|
                surface.spec_pixel(i, j) == (if (exists|t: int|
                    0 <= t < k && #[trigger] s[t] == (i, j)) && 0 <= i < w as int && 0 <= j
                    < h as int {
                    color
                } else {
                    old(surface).spec_pixel(i, j)
                }),
        decreases steps + 1 - k,
    {
        plot(surface, x as i32, y as i32, w, h, color);
        proof {
            assert(s[k as int] == (x as int, y as int));
        }
        x = x + sx;
        y = y + sy;
        k = k + 1;
        proof {
            if k <= steps {
                assert(s[k as int].0 == x1 as int + k as int * sign(x2 as int - x1 as int));
                assert(s[k as int - 1].0 == x1 as int + (k as int - 1) * sign(
                    x2 as int - x1 as int,
                ));
                assert(s[k as int].1 == y1 as int + k as int * sign(y2 as int - y1 as int));
                assert(s[k as int - 1].1 == y1 as int + (k as int - 1) * sign(
                    y2 as int - y1 as int,
                ));
                assert(k as int * sign(x2 as int - x1 as int) == (k as int - 1) * sign(
                    x2 as int - x1 as int,
                ) + sign(x2 as int - x1 as int)) by (nonlinear_arith);
                assert(k as int * sign(y2 as int - y1 as int) == (k as int - 1) * sign(
                    y2 as int - y1 as int,
                ) + sign(y2 as int - y1 as int)) by (nonlinear_arith);
                assert(sx as int == sign(x2 as int - x1 as int));
                assert(sy as int == sign(y2 as int - y1 as int));
            }
        }
    }
    proof {
        assert forall|i: int, j: int| #[trigger]
            line_set(x1 as int, y1 as int, x2 as int, y2 as int).contains((i, j)) <==> (exists|
            t: int|
            0 <= t < k && #[trigger] s[t] == (i, j)) by {
            assert(line_set(x1 as int, y1 as int, x2 as int, y2 as int).contains((i, j))
                <==> s.contains((i, j)));
        }
    }
}

/// Draw a colored line from (x1, y1) to (x2, y2) onto any surface
/// implementing `Drawable`.
///
/// Every pixel of the segment's discrete path that lies on the surface gets
/// the color; every other pixel of the surface is untouched. Endpoints may
/// lie anywhere, including far outside the surface: out-of-range pixels are
/// simply dropped.
#[verifier::loop_isolation(false)]
pub fn draw_line<D: Drawable>(surface: &mut D, x1: i32, y1: i32, x2: i32, y2: i32, color: u32)
    requires
        old(surface).inv(),
        old(surface).spec_width() <= i32::MAX as int,
        old(surface).spec_height() <= i32::MAX as int,
    ensures
        final(surface).inv(),
        final(surface).spec_width() == old(surface).spec_width(),
        final(surface).spec_height() == old(surface).spec_height(),
        forall|i: int, j: int|
            final(surface).spec_pixel(i, j) == (if line_set(
                x1 as int,
                y1 as int,
                x2 as int,
                y2 as int,
            ).contains((i, j)) && 0 <= i < old(surface).spec_width() && 0 <= j < old(
                surface,
            ).spec_height() {
                color
            } else {
                old(surface).spec_pixel(i, j)
            }),
{
    let w = surface.width() as i32;
    let h = surface.height() as i32;
    let ghost s = line_seq(x1 as int, y1 as int, x2 as int, y2 as int);
    proof {
        lemma_line_seq_props(x1 as int, y1 as int, x2 as int, y2 as int);
    }
    // early exit for zero-length lines
    if x1 == x2 && y1 == y2 {
        plot(surface, x1, y1, w, h, color);
        proof {
            assert forall|i: int, j: int| #[trigger]
                line_set(x1 as int, y1 as int, x2 as int, y2 as int).contains((i, j)) <==> (i
                == x1 as int && j == y1 as int) by {
                assert(s == seq![(x1 as int, y1 as int)]);
                assert(line_set(x1 as int, y1 as int, x2 as int, y2 as int).contains((i, j))
                    <==> s.contains((i, j)));
            }
        }
        return ;
    }
    // deltas (the change on each axis)
    let dx: i64 = if x2 >= x1 {
        x2 as i64 - x1 as i64
    } else {
        x1 as i64 - x2 as i64
    };
    let dy: i64 = if y2 >= y1 {
        y2 as i64 - y1 as i64
    } else {
        y1 as i64 - y2 as i64
    };
    // fast paths for horizontal and vertical lines
    if dy == 0 {
        draw_horizontal(surface, y1, x1, x2, w, h, color);
        proof {
            lemma_line_set_horizontal(x1 as int, y1 as int, x2 as int);
        }
        return ;
    }
    if dx == 0 {
        draw_vertical(surface, x1, y1, y2, w, h, color);
        proof {
            lemma_line_set_vertical(x1 as int, y1 as int, y2 as int);
        }
        return ;
    }
    // early exit for lines fully outside the surface
    if (x1 < 0 && x2 < 0) || (x1 >= w && x2 >= w) {
        proof {
            assert forall|i: int, j: int| #[trigger]
                line_set(x1 as int, y1 as int, x2 as int, y2 as int).contains((i, j)) implies !(0
                <= i < w as int) by {
                let t = choose|t: int| 0 <= t < s.len() && s[t] == (i, j);
                assert(in_range(s[t].0, x1 as int, x2 as int));
            }
        }
        return ;
    }
    if (y1 < 0 && y2 < 0) || (y1 >= h && y2 >= h) {
        proof {
            assert forall|i: int, j: int| #[trigger]
                line_set(x1 as int, y1 as int, x2 as int, y2 as int).contains((i, j)) implies !(0
                <= j < h as int) by {
                let t = choose|t: int| 0 <= t < s.len() && s[t] == (i, j);
                assert(in_range(s[t].1, y1 as int, y2 as int));
            }
        }
        return ;
    }
    // fast path for perfect diagonals
    if dx == dy {
        draw_diagonal(surface, x1, y1, x2, y2, w, h, color);
        return ;
    }
    // general case: walk the segment and plot every point, individually
    // bounds-checked
    let points = walk_line(x1, y1, x2, y2);
    let mut idx: usize = 0;
    while idx < points.len()
        invariant
            0 <= idx <= points@.len(),
            surface.inv(),
            surface.spec_width() == old(surface).spec_width(),
            surface.spec_height() == old(surface).spec_height(),
            forall|i: int, j: int|
                surface.spec_pixel(i, j) == (if (exists|t: int|
                    0 <= t < idx && ((#[trigger] points@[t]).0 as int, points@[t].1 as int) == (
                    i,
                    j,
                )) && 0 <= i < w as int && 0 <= j < h as int {
                    color
                } else {
                    old(surface).spec_pixel(i, j)
                }),
        decreases points@.len() - idx,
    {
        let p = points[idx];
        plot(surface, p.0, p.1, w, h, color);
        idx = idx + 1;
    }
    proof {
        assert forall|i: int, j: int| #[trigger]
            line_set(x1 as int, y1 as int, x2 as int, y2 as int).contains((i, j)) <==> (exists|
            t: int|
            0 <= t < idx && ((#[trigger] points@[t]).0 as int, points@[t].1 as int) == (
            i,
            j,
        )) by {
            assert(line_set(x1 as int, y1 as int, x2 as int, y2 as int).contains((i, j))
                <==> s.contains((i, j)));
            if s.contains((i, j)) {
                let t = choose|t: int| 0 <= t < s.len() && s[t] == (i, j);
                assert(((points@[t]).0 as int, points@[t].1 as int) == (i, j));
            }
            if exists|t: int|
                0 <= t < idx && ((#[trigger] points@[t]).0 as int, points@[t].1 as int) == (i, j) {
                let t = choose|t: int|
                    0 <= t < idx && ((#[trigger] points@[t]).0 as int, points@[t].1 as int) == (
                    i,
                    j,
                    );
                assert(s[t] == (i, j));
                assert(s.contains((i, j)));
            }
        }
    }
}

/// The concatenated point sequences of the three edges of a triangle.
pub open spec fn edge_seq(ax: int, ay: int, bx: int, by: int, cx: int, cy: int) -> Seq<(int, int)> {
    line_seq(ax, ay, bx, by) + line_seq(bx, by, cx, cy) + line_seq(cx, cy, ax, ay)
}

/// The smallest x of any point of `s` on row `y`, folded together with the
/// sentinel `i32::MAX`, which loses every comparison against a real point.
pub open spec fn row_lo(s: Seq<(int, int)>, y: int) -> int
    decreases s.len(),
{
    if s.len() == 0 {
        i32::MAX as int
    } else {
        let m = row_lo(s.drop_last(), y);
        if s.last().1 == y && s.last().0 < m {
            s.last().0
        } else {
            m
        }
    }
}

/// The largest x of any point of `s` on row `y`, folded together with the
/// sentinel `i32::MIN`.
pub open spec fn row_hi(s: Seq<(int, int)>, y: int) -> int
    decreases s.len(),
{
    if s.len() == 0 {
        i32::MIN as int
    } else {
        let m = row_hi(s.drop_last(), y);
        if s.last().1 == y && s.last().0 > m {
            s.last().0
        } else {
            m
        }
    }
}

/// The filled pixel set of a triangle: on every row, everything between the
/// leftmost and the rightmost edge pixel of that row, boundary included.
/// A row that no edge pixel touches keeps its impossible sentinel span and
/// contributes nothing.
pub open spec fn tri_fill_set(ax: int, ay: int, bx: int, by: int, cx: int, cy: int) -> Set<
    (int, int),
> {
    Set::new(
        |p: (int, int)|
            row_lo(edge_seq(ax, ay, bx, by, cx, cy), p.1) <= p.0 <= row_hi(
                edge_seq(ax, ay, bx, by, cx, cy),
                p.1,
            ),
    )
}

/// A row whose span is not in the sentinel state holds at least one point.
pub proof fn lemma_row_has_point(s: Seq<(int, int)>, y: int)
    requires
        row_lo(s, y) <= row_hi(s, y),
    ensures
        exists|t: int| 0 <= t < s.len() && (#[trigger] s[t]).1 == y,
    decreases s.len(),
{
    if s.len() == 0 {
    } else if s.last().1 == y {
        assert(s[s.len() - 1].1 == y);
    } else {
        lemma_row_has_point(s.drop_last(), y);
        let t = choose|t: int| 0 <= t < s.drop_last().len() && (#[trigger] s.drop_last()[t]).1 == y;
        assert(s[t].1 == y);
    }
}

/// Every point of `s` on row `y` lies within that row's span.
pub proof fn lemma_row_span_covers(s: Seq<(int, int)>, y: int, t: int)
    requires
        0 <= t < s.len(),
        s[t].1 == y,
    ensures
        row_lo(s, y) <= s[t].0 <= row_hi(s, y),
    decreases s.len(),
{
    if t == s.len() - 1 {
    } else {
        assert(s.drop_last()[t] == s[t]);
        lemma_row_span_covers(s.drop_last(), y, t);
    }
}

/// Walk one triangle edge and widen each touched row's span to take in its
/// points; `prior` is the model of what earlier edges already scattered.
#[verifier::loop_isolation(false)]
fn scatter_edge(
    spans: &mut Vec<(i32, i32)>,
    x1: i32,
    y1: i32,
    x2: i32,
    y2: i32,
    min_y: i32,
    max_y: i32,
    Ghost(prior): Ghost<Seq<(int, int)>>,
)
    requires
        min_y as int <= y1 as int <= max_y as int,
        min_y as int <= y2 as int <= max_y as int,
        old(spans)@.len() == max_y as int - min_y as int + 1,
        forall|r: int|
            0 <= r < old(spans)@.len() ==> (#[trigger] old(spans)@[r]).0 as int == row_lo(
                prior,
                min_y as int + r,
            ) && old(spans)@[r].1 as int == row_hi(prior, min_y as int + r),
    ensures
        final(spans)@.len() == old(spans)@.len(),
        forall|r: int|
            0 <= r < final(spans)@.len() ==> (#[trigger] final(spans)@[r]).0 as int == row_lo(
                prior + line_seq(x1 as int, y1 as int, x2 as int, y2 as int),
                min_y as int + r,
            ) && final(spans)@[r].1 as int == row_hi(
                prior + line_seq(x1 as int, y1 as int, x2 as int, y2 as int),
                min_y as int + r,
            ),
{
    let ghost ls = line_seq(x1 as int, y1 as int, x2 as int, y2 as int);
    proof {
        lemma_line_seq_props(x1 as int, y1 as int, x2 as int, y2 as int);
        assert(prior + ls.take(0) =~= prior);
    }
    let points = walk_line(x1, y1, x2, y2);
    let mut t: usize = 0;
    while t < points.len()
        invariant
            0 <= t <= points@.len(),
            spans@.len() == max_y as int - min_y as int + 1,
            forall|r: int|
                0 <= r < spans@.len() ==> (#[trigger] spans@[r]).0 as int == row_lo(
                    prior + ls.take(t as int),
                    min_y as int + r,
                ) && spans@[r].1 as int == row_hi(prior + ls.take(t as int), min_y as int + r),
        decreases points@.len() - t,
    {
        let (px, py) = points[t];
        let ghost processed = prior + ls.take(t as int);
        let ghost np = prior + ls.take(t as int + 1);
        proof {
            assert(((points@[t as int]).0 as int, points@[t as int].1 as int) == ls[t as int]);
            assert(in_range(ls[t as int].1, y1 as int, y2 as int));
            assert(ls.take(t as int + 1).drop_last() =~= ls.take(t as int));
            assert(ls.take(t as int + 1).last() == ls[t as int]);
            assert(np.drop_last() =~= processed);
            assert(np.last() == ls[t as int]);
        }
        if py >= min_y && py <= max_y {
            let idx = (py as i64 - min_y as i64) as usize;
            let cur = spans[idx];
            let nl = if px < cur.0 {
                px
            } else {
                cur.0
            };
            let nh = if px > cur.1 {
                px
            } else {
                cur.1
            };
            spans[idx] = (nl, nh);
            proof {
                assert forall|r: int|
                    0 <= r < spans@.len() implies (#[trigger] spans@[r]).0 as int == row_lo(
                    np,
                    min_y as int + r,
                ) && spans@[r].1 as int == row_hi(np, min_y as int + r) by {
                    let yr = min_y as int + r;
                    assert(row_lo(np.drop_last(), yr) == row_lo(processed, yr));
                    assert(row_hi(np.drop_last(), yr) == row_hi(processed, yr));
                    if yr == py as int {
                        assert(r == idx as int);
                    } else {
                        assert(np.last().1 != yr);
                    }
                }
            }
        } else {
            proof {
                // every point of the edge lies between the endpoint rows,
                // which both sit inside [min_y, max_y], so this branch is
                // never taken
                assert(false);
            }
        }
        t = t + 1;
    }
    proof {
        assert(ls.take(points@.len() as int) =~= ls);
    }
}

/// Draw a filled triangle onto any surface implementing `Drawable`, using
/// an edge walk into a per-row span buffer followed by a horizontal fill of
/// every touched row.
///
/// Every pixel between the leftmost and rightmost edge pixel of each row
/// (boundary included) that lies on the surface gets the color; every other
/// pixel of the surface is untouched. Degenerate (collinear or zero-area)
/// triangles reduce to their edge pixels; vertices may lie anywhere.
#[verifier::loop_isolation(false)]
pub fn fill_triangle<D: Drawable>(surface: &mut D, v: &[(i32, i32)], color: u32)
    requires
        old(surface).inv(),
        old(surface).spec_width() <= i32::MAX as int,
        old(surface).spec_height() <= i32::MAX as int,
        v@.len() == 3,
    ensures
        final(surface).inv(),
        final(surface).spec_width() == old(surface).spec_width(),
        final(surface).spec_height() == old(surface).spec_height(),
        forall|i: int, j: int|
            final(surface).spec_pixel(i, j) == (if tri_fill_set(
                v@[0].0 as int,
                v@[0].1 as int,
                v@[1].0 as int,
                v@[1].1 as int,
                v@[2].0 as int,
                v@[2].1 as int,
            ).contains((i, j)) && 0 <= i < old(surface).spec_width() && 0 <= j < old(
                surface,
            ).spec_height() {
                color
            } else {
                old(surface).spec_pixel(i, j)
            }),
{
    let (ax, ay) = v[0];
    let (bx, by) = v[1];
    let (cx, cy) = v[2];
    let ghost es = edge_seq(ax as int, ay as int, bx as int, by as int, cx as int, cy as int);
    // bounding rows of the triangle
    let min_y = if ay <= by && ay <= cy {
        ay
    } else if by <= cy {
        by
    } else {
        cy
    };
    let max_y = if ay >= by && ay >= cy {
        ay
    } else if by >= cy {
        by
    } else {
        cy
    };
    let height: i64 = max_y as i64 - min_y as i64 + 1;
    // span buffer: one (min_x, max_x) pair per row, in the sentinel state
    let mut spans: Vec<(i32, i32)> = Vec::new();
    let mut r: i64 = 0;
    while r < height
        invariant
            0 <= r <= height,
            spans@.len() == r,
            forall|t: int| 0 <= t < r ==> #[trigger] spans@[t] == (i32::MAX, i32::MIN),
        decreases height - r,
    {
        spans.push((i32::MAX, i32::MIN));
        r = r + 1;
    }
    proof {
        assert forall|t: int|
            0 <= t < spans@.len() implies (#[trigger] spans@[t]).0 as int == row_lo(
            Seq::<(int, int)>::empty(),
            min_y as int + t,
        ) && spans@[t].1 as int == row_hi(Seq::<(int, int)>::empty(), min_y as int + t) by {}
    }
    // walk the three edges into the span buffer
    scatter_edge(&mut spans, ax, ay, bx, by, min_y, max_y, Ghost(Seq::empty()));
    proof {
        assert(Seq::empty() + line_seq(ax as int, ay as int, bx as int, by as int) =~= line_seq(
            ax as int,
            ay as int,
            bx as int,
            by as int,
        ));
    }
    scatter_edge(
        &mut spans,
        bx,
        by,
        cx,
        cy,
        min_y,
        max_y,
        Ghost(line_seq(ax as int, ay as int, bx as int, by as int)),
    );
    scatter_edge(
        &mut spans,
        cx,
        cy,
        ax,
        ay,
        min_y,
        max_y,
        Ghost(
            line_seq(ax as int, ay as int, bx as int, by as int) + line_seq(
                bx as int,
                by as int,
                cx as int,
                cy as int,
            ),
        ),
    );
    // every fill pixel sits on a row that some edge pixel touches, and all
    // edge pixels stay between the triangle's lowest and highest row
    proof {
        lemma_line_seq_props(ax as int, ay as int, bx as int, by as int);
        lemma_line_seq_props(bx as int, by as int, cx as int, cy as int);
        lemma_line_seq_props(cx as int, cy as int, ax as int, ay as int);
        assert forall|i: int, j: int| #[trigger]
            tri_fill_set(
                ax as int,
                ay as int,
                bx as int,
                by as int,
                cx as int,
                cy as int,
            ).contains((i, j)) implies min_y as int <= j <= max_y as int by {
            lemma_row_has_point(es, j);
            let t = choose|t: int| 0 <= t < es.len() && (#[trigger] es[t]).1 == j;
            let l1 = line_seq(ax as int, ay as int, bx as int, by as int);
            let l2 = line_seq(bx as int, by as int, cx as int, cy as int);
            let l3 = line_seq(cx as int, cy as int, ax as int, ay as int);
            if t < l1.len() {
                assert(es[t] == l1[t]);
                assert(in_range(l1[t].1, ay as int, by as int));
            } else if t < l1.len() + l2.len() {
                assert(es[t] == l2[t - l1.len()]);
                assert(in_range(l2[t - l1.len()].1, by as int, cy as int));
            } else {
                assert(es[t] == l3[t - l1.len() - l2.len()]);
                assert(in_range(l3[t - l1.len() - l2.len()].1, cy as int, ay as int));
            }
        }
    }
    let w = surface.width() as i32;
    let h = surface.height() as i32;
    // draw the spans: one horizontal run per row whose span left the
    // sentinel state
    let mut row: i64 = 0;
    while row < height
        invariant
            0 <= row <= height,
            spans@.len() == height,
            forall|r2: int|
                0 <= r2 < spans@.len() ==> (#[trigger] spans@[r2]).0 as int == row_lo(
                    es,
                    min_y as int + r2,
                ) && spans@[r2].1 as int == row_hi(es, min_y as int + r2),
            surface.inv(),
            surface.spec_width() == old(surface).spec_width(),
            surface.spec_height() == old(surface).spec_height(),
            forall|i: int, j: int|
                surface.spec_pixel(i, j) == (if tri_fill_set(
                    ax as int,
                    ay as int,
                    bx as int,
                    by as int,
                    cx as int,
                    cy as int,
                ).contains((i, j)) && j < min_y as int + row && 0 <= i < w as int && 0 <= j
                    < h as int {
                    color
                } else {
                    old(surface).spec_pixel(i, j)
                }),
        decreases height - row,
    {
        let (lo, hi) = spans[row as usize];
        let yr = (min_y as i64 + row) as i32;
        if lo <= hi {
            draw_line(surface, lo, yr, hi, yr, color);
            proof {
                lemma_line_set_horizontal(lo as int, yr as int, hi as int);
                assert forall|i: int, j: int| #[trigger]
                    line_set(lo as int, yr as int, hi as int, yr as int).contains((i, j)) <==> (j
                    == yr as int && tri_fill_set(
                    ax as int,
                    ay as int,
                    bx as int,
                    by as int,
                    cx as int,
                    cy as int,
                ).contains((i, j))) by {}
            }
        } else {
            proof {
                assert forall|i: int|
                    !tri_fill_set(
                        ax as int,
                        ay as int,
                        bx as int,
                        by as int,
                        cx as int,
                        cy as int,
                    ).contains((i, yr as int)) by {}
            }
        }
        row = row + 1;
    }
}

/// Every edge pixel of a triangle belongs to its filled set: the fill covers
/// the whole boundary, and by the definition of the filled set every filled
/// pixel of a row lies between the leftmost and rightmost edge pixel there.
pub proof fn lemma_triangle_boundary_filled(
    ax: int,
    ay: int,
    bx: int,
    by: int,
    cx: int,
    cy: int,
    q: (int, int),
)
    requires
        edge_seq(ax, ay, bx, by, cx, cy).contains(q),
    ensures
        tri_fill_set(ax, ay, bx, by, cx, cy).contains(q),
{
    let es = edge_seq(ax, ay, bx, by, cx, cy);
    let t = choose|t: int| 0 <= t < es.len() && es[t] == q;
    lemma_row_span_covers(es, q.1, t);
}

/// A row's smallest x never exceeds the sentinel it folds from.
proof fn lemma_row_lo_le_sentinel(s: Seq<(int, int)>, y: int)
    ensures
        row_lo(s, y) <= i32::MAX as int,
    decreases s.len(),
{
    if s.len() > 0 {
        lemma_row_lo_le_sentinel(s.drop_last(), y);
    }
}

/// A row's largest x never drops under the sentinel it folds from.
proof fn lemma_row_hi_ge_sentinel(s: Seq<(int, int)>, y: int)
    ensures
        row_hi(s, y) >= i32::MIN as int,
    decreases s.len(),
{
    if s.len() > 0 {
        lemma_row_hi_ge_sentinel(s.drop_last(), y);
    }
}

/// A row's smallest x over a concatenation folds the two parts' smallest xs.
proof fn lemma_row_lo_concat(a: Seq<(int, int)>, b: Seq<(int, int)>, y: int)
    ensures
        row_lo(a + b, y) == (if row_lo(a, y) < row_lo(b, y) {
            row_lo(a, y)
        } else {
            row_lo(b, y)
        }),
    decreases b.len(),
{
    if b.len() == 0 {
        assert(a + b =~= a);
        lemma_row_lo_le_sentinel(a, y);
    } else {
        lemma_row_lo_concat(a, b.drop_last(), y);
        assert((a + b).drop_last() =~= a + b.drop_last());
        assert((a + b).last() == b.last());
        assert(row_lo((a + b).drop_last(), y) == row_lo(a + b.drop_last(), y));
    }
}

/// A row's largest x over a concatenation folds the two parts' largest xs.
proof fn lemma_row_hi_concat(a: Seq<(int, int)>, b: Seq<(int, int)>, y: int)
    ensures
        row_hi(a + b, y) == (if row_hi(a, y) > row_hi(b, y) {
            row_hi(a, y)
        } else {
            row_hi(b, y)
        }),
    decreases b.len(),
{
    if b.len() == 0 {
        assert(a + b =~= a);
        lemma_row_hi_ge_sentinel(a, y);
    } else {
        lemma_row_hi_concat(a, b.drop_last(), y);
        assert((a + b).drop_last() =~= a + b.drop_last());
        assert((a + b).last() == b.last());
        assert(row_hi((a + b).drop_last(), y) == row_hi(a + b.drop_last(), y));
    }
}

/// Rotating the three vertices of a triangle leaves its filled set
/// unchanged: the same three directed edges are walked, only in another
/// order, and each row's span folds their pixels together symmetrically.
/// (Reversing the vertex order also reverses each edge's walk, which may
/// round differently; only rotations are interchangeable in general.)
pub proof fn lemma_triangle_rotation(ax: int, ay: int, bx: int, by: int, cx: int, cy: int)
    ensures
        tri_fill_set(ax, ay, bx, by, cx, cy) == tri_fill_set(bx, by, cx, cy, ax, ay),
{
    let l1 = line_seq(ax, ay, bx, by);
    let l2 = line_seq(bx, by, cx, cy);
    let l3 = line_seq(cx, cy, ax, ay);
    assert forall|y: int|
        row_lo(#[trigger] edge_seq(ax, ay, bx, by, cx, cy), y) == row_lo(
            edge_seq(bx, by, cx, cy, ax, ay),
            y,
        ) && row_hi(edge_seq(ax, ay, bx, by, cx, cy), y) == row_hi(
            edge_seq(bx, by, cx, cy, ax, ay),
            y,
        ) by {
        lemma_row_lo_concat(l1 + l2, l3, y);
        lemma_row_lo_concat(l1, l2, y);
        lemma_row_lo_concat(l2 + l3, l1, y);
        lemma_row_lo_concat(l2, l3, y);
        lemma_row_hi_concat(l1 + l2, l3, y);
        lemma_row_hi_concat(l1, l2, y);
        lemma_row_hi_concat(l2 + l3, l1, y);
        lemma_row_hi_concat(l2, l3, y);
    }
    assert(tri_fill_set(ax, ay, bx, by, cx, cy) =~= tri_fill_set(bx, by, cx, cy, ax, ay));
}

/// The fold for a row's smallest x never goes under a bound that every
/// point of `s` respects.
proof fn lemma_row_lo_lower_bound(s: Seq<(int, int)>, y: int, b: int)
    requires
        b <= i32::MAX as int,
        forall|t: int| 0 <= t < s.len() ==> (#[trigger] s[t]).0 >= b,
    ensures
        row_lo(s, y) >= b,
    decreases s.len(),
{
    if s.len() > 0 {
        lemma_row_lo_lower_bound(s.drop_last(), y, b);
    }
}

/// The fold for a row's largest x never goes over a bound that every point
/// of `s` respects.
proof fn lemma_row_hi_upper_bound(s: Seq<(int, int)>, y: int, b: int)
    requires
        b >= i32::MIN as int,
        forall|t: int| 0 <= t < s.len() ==> (#[trigger] s[t]).0 <= b,
    ensures
        row_hi(s, y) <= b,
    decreases s.len(),
{
    if s.len() > 0 {
        lemma_row_hi_upper_bound(s.drop_last(), y, b);
    }
}

/// A degenerate triangle whose three vertices share one row fills exactly
/// the segment connecting its extreme points, and nothing else. The
/// coordinates must lie in the 32-bit range the rasterizer works in, so
/// that no real column collides with a span sentinel.
#[verifier::rlimit(80)]
pub proof fn lemma_collinear_row_triangle(x1: int, x2: int, x3: int, y: int)
    requires
        i32::MIN as int <= x1 <= i32::MAX as int,
        i32::MIN as int <= x2 <= i32::MAX as int,
        i32::MIN as int <= x3 <= i32::MAX as int,
    ensures
        tri_fill_set(x1, y, x2, y, x3, y) == line_set(
            if x1 <= x2 && x1 <= x3 {
                x1
            } else if x2 <= x3 {
                x2
            } else {
                x3
            },
            y,
            if x1 >= x2 && x1 >= x3 {
                x1
            } else if x2 >= x3 {
                x2
            } else {
                x3
            },
            y,
        ),
{
    let mn = if x1 <= x2 && x1 <= x3 {
        x1
    } else if x2 <= x3 {
        x2
    } else {
        x3
    };
    let mx = if x1 >= x2 && x1 >= x3 {
        x1
    } else if x2 >= x3 {
        x2
    } else {
        x3
    };
    let l1 = line_seq(x1, y, x2, y);
    let l2 = line_seq(x2, y, x3, y);
    let l3 = line_seq(x3, y, x1, y);
    let es = edge_seq(x1, y, x2, y, x3, y);
    lemma_line_seq_props(x1, y, x2, y);
    lemma_line_seq_props(x2, y, x3, y);
    lemma_line_seq_props(x3, y, x1, y);
    lemma_line_set_horizontal(mn, y, mx);
    // every edge pixel sits on the shared row, between the extreme columns
    assert forall|t: int| 0 <= t < es.len() implies (#[trigger] es[t]).1 == y && mn <= es[t].0
        <= mx by {
        if t < l1.len() {
            assert(es[t] == l1[t]);
            assert(in_range(l1[t].0, x1, x2) && in_range(l1[t].1, y, y));
        } else if t < l1.len() + l2.len() {
            assert(es[t] == l2[t - l1.len()]);
            assert(in_range(l2[t - l1.len()].0, x2, x3) && in_range(l2[t - l1.len()].1, y, y));
        } else {
            assert(es[t] == l3[t - l1.len() - l2.len()]);
            assert(in_range(l3[t - l1.len() - l2.len()].0, x3, x1) && in_range(
                l3[t - l1.len() - l2.len()].1,
                y,
                y,
            ));
        }
    }
    lemma_row_lo_lower_bound(es, y, mn);
    lemma_row_hi_upper_bound(es, y, mx);
    // the extreme points themselves are edge pixels, so the row's span
    // reaches them
    assert(es[0] == l1[0] && l1[0] == (x1, y));
    assert(es[l1.len() as int] == l2[0] && l2[0] == (x2, y));
    assert(es[l1.len() as int + l2.len() as int] == l3[0] && l3[0] == (x3, y));
    let tmn: int = if mn == x1 {
        0
    } else if mn == x2 {
        l1.len() as int
    } else {
        l1.len() as int + l2.len() as int
    };
    let tmx: int = if mx == x1 {
        0
    } else if mx == x2 {
        l1.len() as int
    } else {
        l1.len() as int + l2.len() as int
    };
    assert(es[tmn] == (mn, y));
    assert(es[tmx] == (mx, y));
    lemma_row_span_covers(es, y, tmn);
    lemma_row_span_covers(es, y, tmx);
    assert(row_lo(es, y) == mn && row_hi(es, y) == mx);
    assert forall|q: (int, int)| #[trigger]
        tri_fill_set(x1, y, x2, y, x3, y).contains(q) <==> line_set(mn, y, mx, y).contains(q) by {
        if tri_fill_set(x1, y, x2, y, x3, y).contains(q) && q.1 != y {
            lemma_row_has_point(es, q.1);
        }
    }
    assert(tri_fill_set(x1, y, x2, y, x3, y) =~= line_set(mn, y, mx, y));
}

/// Every row of the triangle's vertical extent receives a span: on each row
/// between the lowest and the highest vertex some pixel is filled, because
/// each edge's walk visits every row between its endpoints and any two
/// vertices share an edge.
pub proof fn lemma_triangle_rows_covered(
    ax: int,
    ay: int,
    bx: int,
    by: int,
    cx: int,
    cy: int,
    y: int,
)
    requires
        (if ay <= by && ay <= cy {
            ay
        } else if by <= cy {
            by
        } else {
            cy
        }) <= y,
        y <= (if ay >= by && ay >= cy {
            ay
        } else if by >= cy {
            by
        } else {
            cy
        }),
    ensures
        row_lo(edge_seq(ax, ay, bx, by, cx, cy), y) <= row_hi(edge_seq(ax, ay, bx, by, cx, cy), y),
        exists|x: int| #[trigger] tri_fill_set(ax, ay, bx, by, cx, cy).contains((x, y)),
{
    let es = edge_seq(ax, ay, bx, by, cx, cy);
    let l1 = line_seq(ax, ay, bx, by);
    let l2 = line_seq(bx, by, cx, cy);
    let l3 = line_seq(cx, cy, ax, ay);
    if in_range(y, ay, by) {
        lemma_line_rows_covered(ax, ay, bx, by, y);
        let t = choose|t: int| 0 <= t < l1.len() && (#[trigger] l1[t]).1 == y;
        assert(es[t] == l1[t]);
        lemma_row_span_covers(es, y, t);
        assert(tri_fill_set(ax, ay, bx, by, cx, cy).contains((es[t].0, y)));
    } else if in_range(y, by, cy) {
        lemma_line_rows_covered(bx, by, cx, cy, y);
        let t = choose|t: int| 0 <= t < l2.len() && (#[trigger] l2[t]).1 == y;
        assert(es[l1.len() + t] == l2[t]);
        lemma_row_span_covers(es, y, l1.len() + t);
        assert(tri_fill_set(ax, ay, bx, by, cx, cy).contains((es[l1.len() + t].0, y)));
    } else {
        assert(in_range(y, cy, ay));
        lemma_line_rows_covered(cx, cy, ax, ay, y);
        let t = choose|t: int| 0 <= t < l3.len() && (#[trigger] l3[t]).1 == y;
        assert(es[l1.len() + l2.len() + t] == l3[t]);
        lemma_row_span_covers(es, y, l1.len() + l2.len() + t);
        assert(tri_fill_set(ax, ay, bx, by, cx, cy).contains((es[l1.len() + l2.len() + t].0, y)));
    }
}

} // verus!
