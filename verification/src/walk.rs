//! The line-walking primitive: the integer incremental-error ("Bresenham")
//! walk that produces every integer point of a segment, and its mathematical
//! model.

use vstd::prelude::*;

verus! {

/// Sign of an integer: -1, 0 or 1.
pub open spec fn sign(v: int) -> int {
    if v > 0 {
        1
    } else if v < 0 {
        -1
    } else {
        0
    }
}

/// Absolute value of an integer.
pub open spec fn abs(v: int) -> int {
    if v < 0 {
        -v
    } else {
        v
    }
}

/// The remaining points of an incremental-error walk, in driving-axis
/// coordinates.
///
/// `x` is the current driving-axis coordinate and `y` the secondary one;
/// `step_x` and `step_y` are the per-step increments; `dx >= dy >= 0` are the
/// absolute deltas along the two axes; `err` is the error accumulator; `n` is
/// the number of points still to emit. When `steep` is set the driving axis
/// is the vertical one, and each emitted pair is swapped back to (column,
/// row) order.
pub open spec fn walk_rec(
    x: int,
    y: int,
    step_x: int,
    step_y: int,
    dx: int,
    dy: int,
    err: int,
    n: nat,
    steep: bool,
) -> Seq<(int, int)>
    decreases n,
{
    if n == 0 {
        Seq::empty()
    } else {
        let p = if steep {
            (y, x)
        } else {
            (x, y)
        };
        let y_next = if err >= 0 {
            y + step_y
        } else {
            y
        };
        let err_next = if err >= 0 {
            err - 2 * dx + 2 * dy
        } else {
            err + 2 * dy
        };
        seq![p] + walk_rec(x + step_x, y_next, step_x, step_y, dx, dy, err_next, (n - 1) as nat, steep)
    }
}

/// The inclusive, ordered sequence of integer points that the walk emits for
/// the segment from (x1, y1) to (x2, y2), in (column, row) order.
pub open spec fn line_seq(x1: int, y1: int, x2: int, y2: int) -> Seq<(int, int)> {
    if x1 == x2 && y1 == y2 {
        seq![(x1, y1)]
    } else {
        let dx = abs(x2 - x1);
        let dy = abs(y2 - y1);
        if dy > dx {
            // steep: the vertical axis drives the walk
            walk_rec(y1, x1, sign(y2 - y1), sign(x2 - x1), dy, dx, 2 * dx - dy, (dy + 1) as nat, true)
        } else {
            walk_rec(x1, y1, sign(x2 - x1), sign(y2 - y1), dx, dy, 2 * dy - dx, (dx + 1) as nat, false)
        }
    }
}

/// The set of pixels of the segment from (x1, y1) to (x2, y2).
pub open spec fn line_set(x1: int, y1: int, x2: int, y2: int) -> Set<(int, int)> {
    line_seq(x1, y1, x2, y2).to_set()
}

/// The coordinate of a point along the driving axis of the walk.
pub open spec fn driving(p: (int, int), steep: bool) -> int {
    if steep {
        p.1
    } else {
        p.0
    }
}

/// The coordinate of a point along the secondary axis of the walk.
pub open spec fn secondary(p: (int, int), steep: bool) -> int {
    if steep {
        p.0
    } else {
        p.1
    }
}

/// `v` lies between `a` and `b`, inclusive, in either order.
pub open spec fn in_range(v: int, a: int, b: int) -> bool {
    (a <= v && v <= b) || (b <= v && v <= a)
}

/// The state invariant of the incremental-error walk, after `k` driving
/// steps and `j` secondary steps from the start (x0, y0) (in driving-axis
/// coordinates).
///
/// The error accumulator always equals `2*dy*(k+1) - dx - 2*dx*j` and stays
/// within `[2*dy - 2*dx, 2*dy - 1]`; together these pin the number of
/// secondary steps to within one of the ideal slope.
pub open spec fn walk_inv(
    x0: int,
    y0: int,
    x: int,
    y: int,
    step_x: int,
    step_y: int,
    dx: int,
    dy: int,
    err: int,
    k: int,
    j: int,
) -> bool {
    &&& 1 <= dx
    &&& 0 <= dy <= dx
    &&& (step_x == 1 || step_x == -1)
    &&& (if dy == 0 {
        step_y == 0
    } else {
        step_y == 1 || step_y == -1
    })
    &&& 0 <= k <= dx
    &&& 0 <= j <= dy
    &&& x == x0 + k * step_x
    &&& y == y0 + j * step_y
    &&& err == 2 * dy * (k + 1) - dx - 2 * dx * j
    &&& 2 * dy - 2 * dx <= err <= 2 * dy - 1
}

/// What the emitted points of a walk look like, starting after `k` driving
/// steps: one point per remaining driving position, the driving coordinate
/// stepping by exactly `step_x` each time, the secondary coordinate staying
/// between the endpoints' secondary coordinates, reaching the far endpoint
/// on the last point, and moving by at most one step between neighbours.
pub open spec fn walk_shape(
    s: Seq<(int, int)>,
    x0: int,
    y0: int,
    step_x: int,
    step_y: int,
    dx: int,
    dy: int,
    k: int,
    steep: bool,
) -> bool {
    &&& s.len() == dx + 1 - k
    &&& forall|i: int|
        0 <= i < s.len() ==> driving(#[trigger] s[i], steep) == x0 + (k + i) * step_x
    &&& forall|i: int|
        0 <= i < s.len() ==> in_range(secondary(#[trigger] s[i], steep), y0, y0 + dy * step_y)
    &&& secondary(s[s.len() - 1], steep) == y0 + dy * step_y
    &&& forall|i: int|
        0 <= i < s.len() - 1 ==> secondary(s[i + 1], steep) == secondary(#[trigger] s[i], steep)
            || secondary(s[i + 1], steep) == secondary(s[i], steep) + step_y
    &&& dy == dx ==> forall|i: int|
        0 <= i < s.len() ==> secondary(#[trigger] s[i], steep) == y0 + (k + i) * step_y
}

/// From any state satisfying the walk invariant, the emitted points have the
/// walk shape, and the first of them is the current point.
pub proof fn lemma_walk_rec_props(
    x0: int,
    y0: int,
    x: int,
    y: int,
    step_x: int,
    step_y: int,
    dx: int,
    dy: int,
    err: int,
    n: nat,
    steep: bool,
    k: int,
    j: int,
)
    requires
        walk_inv(x0, y0, x, y, step_x, step_y, dx, dy, err, k, j),
        n == dx + 1 - k,
    ensures
        walk_shape(walk_rec(x, y, step_x, step_y, dx, dy, err, n, steep), x0, y0, step_x, step_y, dx, dy, k, steep),
        walk_rec(x, y, step_x, step_y, dx, dy, err, n, steep)[0] == (if steep {
            (y, x)
        } else {
            (x, y)
        }),
    decreases n,
{
    lemma_walk_rec_len(x, y, step_x, step_y, dx, dy, err, n, steep);
    let s = walk_rec(x, y, step_x, step_y, dx, dy, err, n, steep);
    let p = if steep {
        (y, x)
    } else {
        (x, y)
    };
    // facts about the head point
    assert(driving(p, steep) == x0 + (k + 0) * step_x) by (nonlinear_arith)
        requires
            x == x0 + k * step_x,
            driving(p, steep) == x,
    ;
    assert(in_range(secondary(p, steep), y0, y0 + dy * step_y)) by (nonlinear_arith)
        requires
            y == y0 + j * step_y,
            secondary(p, steep) == y,
            0 <= j <= dy,
            step_y == 1 || step_y == -1 || step_y == 0,
    ;
    if dy == dx {
        // on a perfect diagonal the error equation forces one secondary step
        // per driving step
        assert(j == k) by (nonlinear_arith)
            requires
                err == 2 * dy * (k + 1) - dx - 2 * dx * j,
                2 * dy - 2 * dx <= err <= 2 * dy - 1,
                dy == dx,
                1 <= dx,
        ;
        assert(secondary(p, steep) == y0 + (k + 0) * step_y);
    }
    if n == 1 {
        // the walk ends here: the last secondary step count is exactly dy
        assert(j == dy) by (nonlinear_arith)
            requires
                err == 2 * dy * (k + 1) - dx - 2 * dx * j,
                2 * dy - 2 * dx <= err <= 2 * dy - 1,
                k == dx,
                1 <= dx,
                0 <= j <= dy,
        ;
        assert(s =~= seq![p]);
        assert(secondary(s[s.len() - 1], steep) == y0 + dy * step_y);
    } else {
        let y_next = if err >= 0 {
            y + step_y
        } else {
            y
        };
        let err_next = if err >= 0 {
            err - 2 * dx + 2 * dy
        } else {
            err + 2 * dy
        };
        let j_next = if err >= 0 {
            j + 1
        } else {
            j
        };
        if err >= 0 {
            // a secondary step is owed; it cannot overshoot before the end
            assert(j + 1 <= dy) by (nonlinear_arith)
                requires
                    err == 2 * dy * (k + 1) - dx - 2 * dx * j,
                    err >= 0,
                    k + 1 <= dx,
                    1 <= dx,
                    0 <= dy <= dx,
                    0 <= j,
            ;
        }
        assert(y_next == y0 + j_next * step_y) by (nonlinear_arith)
            requires
                y == y0 + j * step_y,
                y_next == if err >= 0 {
                    y + step_y
                } else {
                    y
                },
                j_next == if err >= 0 {
                    j + 1
                } else {
                    j
                },
        ;
        assert(err_next == 2 * dy * (k + 2) - dx - 2 * dx * j_next) by (nonlinear_arith)
            requires
                err == 2 * dy * (k + 1) - dx - 2 * dx * j,
                err_next == if err >= 0 {
                    err - 2 * dx + 2 * dy
                } else {
                    err + 2 * dy
                },
                j_next == if err >= 0 {
                    j + 1
                } else {
                    j
                },
        ;
        assert(x + step_x == x0 + (k + 1) * step_x) by (nonlinear_arith)
            requires
                x == x0 + k * step_x,
        ;
        assert(walk_inv(x0, y0, x + step_x, y_next, step_x, step_y, dx, dy, err_next, k + 1, j_next));
        lemma_walk_rec_props(
            x0,
            y0,
            x + step_x,
            y_next,
            step_x,
            step_y,
            dx,
            dy,
            err_next,
            (n - 1) as nat,
            steep,
            k + 1,
            j_next,
        );
        let rest = walk_rec(x + step_x, y_next, step_x, step_y, dx, dy, err_next, (n - 1) as nat, steep);
        assert(s == seq![p] + rest);
        assert(s[0] == p);
        assert forall|i: int| 1 <= i < s.len() implies #[trigger] s[i] == rest[i - 1] by {
        }
        assert forall|i: int| 0 <= i < s.len() implies driving(#[trigger] s[i], steep) == x0 + (k + i)
            * step_x by {
            if i >= 1 {
                assert(driving(rest[i - 1], steep) == x0 + (k + 1 + (i - 1)) * step_x);
                assert((k + 1 + (i - 1)) * step_x == (k + i) * step_x) by (nonlinear_arith);
            }
        }
        assert forall|i: int|
            0 <= i < s.len() implies in_range(
            secondary(#[trigger] s[i], steep),
            y0,
            y0 + dy * step_y,
        ) by {
            if i >= 1 {
                assert(in_range(secondary(rest[i - 1], steep), y0, y0 + dy * step_y));
            }
        }
        assert(secondary(s[s.len() - 1], steep) == y0 + dy * step_y) by {
            assert(s[s.len() - 1] == rest[rest.len() - 1]);
        }
        assert forall|i: int|
            0 <= i < s.len() - 1 implies secondary(s[i + 1], steep) == secondary(#[trigger] s[i], steep)
            || secondary(s[i + 1], steep) == secondary(s[i], steep) + step_y by {
            if i == 0 {
                assert(s[1] == rest[0]);
                assert(rest[0] == (if steep {
                    (y_next, x + step_x)
                } else {
                    (x + step_x, y_next)
                }));
            } else {
                assert(s[i] == rest[i - 1] && s[i + 1] == rest[i]);
            }
        }
        if dy == dx {
            assert forall|i: int|
                0 <= i < s.len() implies secondary(#[trigger] s[i], steep) == y0 + (k + i) * step_y by {
                if i >= 1 {
                    assert(secondary(rest[i - 1], steep) == y0 + (k + 1 + (i - 1)) * step_y);
                    assert((k + 1 + (i - 1)) * step_y == (k + i) * step_y) by (nonlinear_arith);
                }
            }
        }
    }
}

/// The walk emits exactly `n` points.
pub proof fn lemma_walk_rec_len(
    x: int,
    y: int,
    step_x: int,
    step_y: int,
    dx: int,
    dy: int,
    err: int,
    n: nat,
    steep: bool,
)
    ensures
        walk_rec(x, y, step_x, step_y, dx, dy, err, n, steep).len() == n,
    decreases n,
{
    if n > 0 {
        let y_next = if err >= 0 {
            y + step_y
        } else {
            y
        };
        let err_next = if err >= 0 {
            err - 2 * dx + 2 * dy
        } else {
            err + 2 * dy
        };
        lemma_walk_rec_len(x + step_x, y_next, step_x, step_y, dx, dy, err_next, (n - 1) as nat, steep);
    }
}

/// Everything the walk guarantees of the point sequence of one segment,
/// stated in (column, row) coordinates: inclusive endpoints, one point per
/// driving-axis position stepping exactly by the driving sign, both
/// coordinates confined to the endpoints' bounding box, and neighbouring
/// points differing by at most one on each axis.
pub open spec fn line_shape(s: Seq<(int, int)>, x1: int, y1: int, x2: int, y2: int) -> bool {
    &&& s.len() == (if abs(x2 - x1) >= abs(y2 - y1) {
        abs(x2 - x1)
    } else {
        abs(y2 - y1)
    }) + 1
    &&& s[0] == (x1, y1)
    &&& s[s.len() - 1] == (x2, y2)
    &&& forall|i: int|
        0 <= i < s.len() ==> in_range((#[trigger] s[i]).0, x1, x2) && in_range(s[i].1, y1, y2)
    &&& forall|i: int|
        0 <= i < s.len() - 1 ==> -1 <= s[i + 1].0 - (#[trigger] s[i]).0 <= 1 && -1 <= s[i + 1].1
            - s[i].1 <= 1
    &&& abs(x2 - x1) >= abs(y2 - y1) ==> forall|i: int|
        0 <= i < s.len() ==> (#[trigger] s[i]).0 == x1 + i * sign(x2 - x1)
    &&& abs(y2 - y1) >= abs(x2 - x1) ==> forall|i: int|
        0 <= i < s.len() ==> (#[trigger] s[i]).1 == y1 + i * sign(y2 - y1)
}

/// Stepping `abs(b - a)` times by `sign(b - a)` from `a` lands on `b`.
proof fn lemma_abs_sign(a: int, b: int)
    ensures
        a + abs(b - a) * sign(b - a) == b,
{
    if b > a {
        assert(abs(b - a) * sign(b - a) == b - a) by (nonlinear_arith)
            requires
                sign(b - a) == 1,
        ;
    } else if b < a {
        assert(abs(b - a) * sign(b - a) == b - a) by (nonlinear_arith)
            requires
                sign(b - a) == -1,
                abs(b - a) == a - b,
        ;
    }
}

/// The point sequence of any segment has the line shape: this is the
/// endpoint-inclusion, connectivity, driving-axis monotonicity and
/// bounding-box statement for the walk, all in one.
pub proof fn lemma_line_seq_props(x1: int, y1: int, x2: int, y2: int)
    ensures
        line_shape(line_seq(x1, y1, x2, y2), x1, y1, x2, y2),
{
    let s = line_seq(x1, y1, x2, y2);
    if x1 == x2 && y1 == y2 {
        assert(s == seq![(x1, y1)]);
    } else {
        let dx = abs(x2 - x1);
        let dy = abs(y2 - y1);
        lemma_abs_sign(x1, x2);
        lemma_abs_sign(y1, y2);
        if dy > dx {
            let sx = sign(y2 - y1);
            let sy = sign(x2 - x1);
            assert(walk_inv(y1, x1, y1, x1, sx, sy, dy, dx, 2 * dx - dy, 0, 0));
            lemma_walk_rec_props(y1, x1, y1, x1, sx, sy, dy, dx, 2 * dx - dy, (dy + 1) as nat, true, 0, 0);
            assert(s[s.len() - 1] == (x2, y2)) by {
                assert(driving(s[s.len() - 1], true) == y1 + (0 + (s.len() - 1)) * sx);
                assert((0 + (dy + 1 - 1)) * sx == dy * sx) by (nonlinear_arith);
                assert(secondary(s[s.len() - 1], true) == x1 + dx * sy);
            }
            assert forall|i: int| 0 <= i < s.len() implies (#[trigger] s[i]).1 == y1 + i * sign(
                y2 - y1,
            ) by {
                assert(driving(s[i], true) == y1 + (0 + i) * sx);
                assert((0 + i) * sx == i * sx) by (nonlinear_arith);
            }
            assert forall|i: int|
                0 <= i < s.len() implies in_range((#[trigger] s[i]).0, x1, x2) && in_range(
                s[i].1,
                y1,
                y2,
            ) by {
                assert(in_range(secondary(s[i], true), x1, x1 + dx * sy));
                assert(s[i].1 == y1 + i * sx);
                assert(in_range(y1 + i * sx, y1, y1 + dy * sx)) by (nonlinear_arith)
                    requires
                        0 <= i <= dy,
                        sx == 1 || sx == -1,
                ;
            }
            assert forall|i: int|
                0 <= i < s.len() - 1 implies -1 <= s[i + 1].0 - (#[trigger] s[i]).0 <= 1 && -1 <= s[
                    i + 1
                ].1 - s[i].1 <= 1 by {
                assert(secondary(s[i + 1], true) == secondary(s[i], true) || secondary(s[i + 1], true)
                    == secondary(s[i], true) + sy);
                assert(s[i].1 == y1 + i * sx && s[i + 1].1 == y1 + (i + 1) * sx);
                assert((i + 1) * sx - i * sx == sx) by (nonlinear_arith);
            }
        } else {
            let sx = sign(x2 - x1);
            let sy = sign(y2 - y1);
            assert(walk_inv(x1, y1, x1, y1, sx, sy, dx, dy, 2 * dy - dx, 0, 0));
            lemma_walk_rec_props(x1, y1, x1, y1, sx, sy, dx, dy, 2 * dy - dx, (dx + 1) as nat, false, 0, 0);
            assert(s[s.len() - 1] == (x2, y2)) by {
                assert(driving(s[s.len() - 1], false) == x1 + (0 + (s.len() - 1)) * sx);
                assert((0 + (dx + 1 - 1)) * sx == dx * sx) by (nonlinear_arith);
                assert(secondary(s[s.len() - 1], false) == y1 + dy * sy);
            }
            assert forall|i: int| 0 <= i < s.len() implies (#[trigger] s[i]).0 == x1 + i * sign(
                x2 - x1,
            ) by {
                assert(driving(s[i], false) == x1 + (0 + i) * sx);
                assert((0 + i) * sx == i * sx) by (nonlinear_arith);
            }
            if dy == dx {
                assert forall|i: int| 0 <= i < s.len() implies (#[trigger] s[i]).1 == y1 + i * sign(
                    y2 - y1,
                ) by {
                    assert(secondary(s[i], false) == y1 + (0 + i) * sy);
                    assert((0 + i) * sy == i * sy) by (nonlinear_arith);
                }
            }
            assert forall|i: int|
                0 <= i < s.len() implies in_range((#[trigger] s[i]).0, x1, x2) && in_range(
                s[i].1,
                y1,
                y2,
            ) by {
                assert(in_range(secondary(s[i], false), y1, y1 + dy * sy));
                assert(s[i].0 == x1 + i * sx);
                assert(in_range(x1 + i * sx, x1, x1 + dx * sx)) by (nonlinear_arith)
                    requires
                        0 <= i <= dx,
                        sx == 1 || sx == -1,
                ;
            }
            assert forall|i: int|
                0 <= i < s.len() - 1 implies -1 <= s[i + 1].0 - (#[trigger] s[i]).0 <= 1 && -1 <= s[
                    i + 1
                ].1 - s[i].1 <= 1 by {
                assert(secondary(s[i + 1], false) == secondary(s[i], false) || secondary(
                    s[i + 1],
                    false,
                ) == secondary(s[i], false) + sy);
                assert(s[i].0 == x1 + i * sx && s[i + 1].0 == x1 + (i + 1) * sx);
                assert((i + 1) * sx - i * sx == sx) by (nonlinear_arith);
            }
        }
    }
}

/// Walks the segment from (x1, y1) to (x2, y2) with the incremental-error
/// technique and returns every integer point on it, in order, both endpoints
/// included. Only integer addition, subtraction and comparison are used; the
/// working variables are 64-bit so that no pair of endpoints can overflow.
#[verifier::loop_isolation(false)]
#[verifier::rlimit(60)]
pub fn walk_line(x1: i32, y1: i32, x2: i32, y2: i32) -> (points: Vec<(i32, i32)>)
    ensures
        points@.len() == line_seq(x1 as int, y1 as int, x2 as int, y2 as int).len(),
        forall|i: int|
            0 <= i < points@.len() ==> ((#[trigger] points@[i]).0 as int, points@[i].1 as int)
                == line_seq(x1 as int, y1 as int, x2 as int, y2 as int)[i],
{
    let ghost full = line_seq(x1 as int, y1 as int, x2 as int, y2 as int);
    proof {
        lemma_line_seq_props(x1 as int, y1 as int, x2 as int, y2 as int);
    }
    let mut points: Vec<(i32, i32)> = Vec::new();
    if x1 == x2 && y1 == y2 {
        points.push((x1, y1));
        return points;
    }
    // deltas (the change on each axis) and step directions
    let ddx: i64 = if x2 >= x1 {
        (x2 as i64) - (x1 as i64)
    } else {
        (x1 as i64) - (x2 as i64)
    };
    let ddy: i64 = if y2 >= y1 {
        (y2 as i64) - (y1 as i64)
    } else {
        (y1 as i64) - (y2 as i64)
    };
    let sx0: i64 = if x2 > x1 {
        1
    } else if x2 < x1 {
        -1
    } else {
        0
    };
    let sy0: i64 = if y2 > y1 {
        1
    } else if y2 < y1 {
        -1
    } else {
        0
    };
    let steep = ddy > ddx;  // check whether the vertical axis drives
    // swap axes if the line is steep
    let (wx1, wy1, wx2, wy2, dx, dy, sx, sy) = if steep {
        (y1 as i64, x1 as i64, y2 as i64, x2 as i64, ddy, ddx, sy0, sx0)
    } else {
        (x1 as i64, y1 as i64, x2 as i64, y2 as i64, ddx, ddy, sx0, sy0)
    };
    proof {
        assert(ddx as int == abs(x2 as int - x1 as int));
        assert(ddy as int == abs(y2 as int - y1 as int));
        assert(sx0 as int == sign(x2 as int - x1 as int));
        assert(sy0 as int == sign(y2 as int - y1 as int));
        assert(full == walk_rec(
            wx1 as int,
            wy1 as int,
            sx as int,
            sy as int,
            dx as int,
            dy as int,
            2 * (dy as int) - (dx as int),
            (dx + 1) as nat,
            steep,
        ));
    }
    let mut err: i64 = 2 * dy - dx;
    let mut x: i64 = wx1;
    let mut y: i64 = wy1;
    let mut k: i64 = 0;
    while k <= dx
        invariant
            0 <= k <= dx + 1,
            points@.len() == k,
            forall|i: int|
                0 <= i < k ==> ((#[trigger] points@[i]).0 as int, points@[i].1 as int) == full[i],
            full.skip(k as int) == walk_rec(
                x as int,
                y as int,
                sx as int,
                sy as int,
                dx as int,
                dy as int,
                err as int,
                (dx + 1 - k) as nat,
                steep,
            ),
            -2 * dx <= err <= 2 * dy,
            k <= dx ==> in_range(x as int, wx1 as int, wx2 as int) && in_range(
                y as int,
                wy1 as int,
                wy2 as int,
            ),
        decreases dx + 1 - k,
    {
        let ghost p = if steep {
            ((y as i64) as int, (x as i64) as int)
        } else {
            ((x as i64) as int, (y as i64) as int)
        };
        proof {
            assert(full.skip(k as int)[0] == full[k as int]);
            assert(full[k as int] == p);
        }
        if steep {
            points.push((y as i32, x as i32));
        } else {
            points.push((x as i32, y as i32));
        }
        let ghost rest = walk_rec(
            (x + sx) as int,
            if err >= 0 {
                (y + sy) as int
            } else {
                y as int
            },
            sx as int,
            sy as int,
            dx as int,
            dy as int,
            if err >= 0 {
                err - 2 * dx + 2 * dy
            } else {
                err + 2 * dy
            } as int,
            (dx - k) as nat,
            steep,
        );
        proof {
            assert(full.skip(k as int) == seq![p] + rest);
            assert(full.skip(k as int + 1) =~= rest) by {
                assert forall|i: int| 0 <= i < rest.len() implies full.skip(k as int + 1)[i] == rest[i] by {
                    assert(full.skip(k as int)[i + 1] == rest[i]);
                }
            }
        }
        if err >= 0 {
            y = y + sy;  // move on the secondary axis when the error passes the threshold
            err = err - 2 * dx;  // correct the error after the move
        }
        err = err + 2 * dy;  // the error grows by 2*dy at every step
        x = x + sx;  // always move along the driving axis
        k = k + 1;
        proof {
            if k <= dx {
                // the next point of the walk is the new current point, and it
                // stays inside the endpoints' bounding box
                assert(rest[0] == full[k as int]);
                assert(in_range(full[k as int].0, x1 as int, x2 as int) && in_range(
                    full[k as int].1,
                    y1 as int,
                    y2 as int,
                ));
            }
        }
    }
    points
}

/// The pixel set of a horizontal segment is exactly the x-range at its row.
pub proof fn lemma_line_set_horizontal(x1: int, y: int, x2: int)
    ensures
        forall|q: (int, int)|
            #[trigger] line_set(x1, y, x2, y).contains(q) <==> (q.1 == y && in_range(q.0, x1, x2)),
{
    lemma_line_seq_props(x1, y, x2, y);
    let s = line_seq(x1, y, x2, y);
    assert forall|q: (int, int)|
        #[trigger] line_set(x1, y, x2, y).contains(q) <==> (q.1 == y && in_range(
        q.0,
        x1,
        x2,
    )) by {
        if line_set(x1, y, x2, y).contains(q) {
            let t = choose|t: int| 0 <= t < s.len() && s[t] == q;
            assert(in_range(s[t].0, x1, x2) && in_range(s[t].1, y, y));
        }
        if q.1 == y && in_range(q.0, x1, x2) {
            let t = abs(q.0 - x1);
            assert(0 <= t < s.len());
            assert(s[t].0 == x1 + t * sign(x2 - x1));
            if x2 > x1 {
                assert(t * 1 == t) by (nonlinear_arith);
            } else if x2 < x1 {
                assert(t * -1 == -t) by (nonlinear_arith);
            } else {
                assert(t * 0 == 0) by (nonlinear_arith);
            }
            assert(s[t] == q);
            assert(s.contains(q));
        }
    }
}

/// The pixel set of a vertical segment is exactly the y-range at its column.
pub proof fn lemma_line_set_vertical(x: int, y1: int, y2: int)
    ensures
        forall|q: (int, int)|
            #[trigger] line_set(x, y1, x, y2).contains(q) <==> (q.0 == x && in_range(q.1, y1, y2)),
{
    lemma_line_seq_props(x, y1, x, y2);
    let s = line_seq(x, y1, x, y2);
    assert forall|q: (int, int)|
        #[trigger] line_set(x, y1, x, y2).contains(q) <==> (q.0 == x && in_range(
        q.1,
        y1,
        y2,
    )) by {
        if line_set(x, y1, x, y2).contains(q) {
            let t = choose|t: int| 0 <= t < s.len() && s[t] == q;
            assert(in_range(s[t].0, x, x) && in_range(s[t].1, y1, y2));
        }
        if q.0 == x && in_range(q.1, y1, y2) {
            let t = abs(q.1 - y1);
            assert(0 <= t < s.len());
            assert(s[t].1 == y1 + t * sign(y2 - y1));
            if y2 > y1 {
                assert(t * 1 == t) by (nonlinear_arith);
            } else if y2 < y1 {
                assert(t * -1 == -t) by (nonlinear_arith);
            } else {
                assert(t * 0 == 0) by (nonlinear_arith);
            }
            assert(s[t] == q);
            assert(s.contains(q));
        }
    }
}

/// Both endpoints of a segment are always among its pixels.
pub proof fn lemma_line_endpoints(x1: int, y1: int, x2: int, y2: int)
    ensures
        line_set(x1, y1, x2, y2).contains((x1, y1)),
        line_set(x1, y1, x2, y2).contains((x2, y2)),
{
    lemma_line_seq_props(x1, y1, x2, y2);
    let s = line_seq(x1, y1, x2, y2);
    assert(s.contains((x1, y1)));
    assert(s.contains((x2, y2)));
}

/// Reversing the endpoints of an axis-aligned or perfectly diagonal segment
/// yields the same pixel set. For other slopes the two directions may round
/// a tie of the error accumulator differently and need not agree pixel for
/// pixel.
pub proof fn lemma_line_set_symmetric(x1: int, y1: int, x2: int, y2: int)
    requires
        x1 == x2 || y1 == y2 || abs(x2 - x1) == abs(y2 - y1),
    ensures
        line_set(x1, y1, x2, y2) == line_set(x2, y2, x1, y1),
{
    if y1 == y2 {
        lemma_line_set_horizontal(x1, y1, x2);
        lemma_line_set_horizontal(x2, y1, x1);
        assert(line_set(x1, y1, x2, y2) =~= line_set(x2, y2, x1, y1));
    } else if x1 == x2 {
        lemma_line_set_vertical(x1, y1, y2);
        lemma_line_set_vertical(x1, y2, y1);
        assert(line_set(x1, y1, x2, y2) =~= line_set(x2, y2, x1, y1));
    } else {
        // a perfect diagonal: both walks visit the same points, in opposite
        // orders
        lemma_line_seq_props(x1, y1, x2, y2);
        lemma_line_seq_props(x2, y2, x1, y1);
        lemma_abs_sign(x1, x2);
        lemma_abs_sign(y1, y2);
        let s1 = line_seq(x1, y1, x2, y2);
        let s2 = line_seq(x2, y2, x1, y1);
        let d = abs(x2 - x1);
        let u = sign(x2 - x1);
        let vv = sign(y2 - y1);
        assert(sign(x1 - x2) == -u);
        assert(sign(y1 - y2) == -vv);
        assert(s1.len() == d + 1 && s2.len() == d + 1);
        assert forall|q: (int, int)| s1.contains(q) implies s2.contains(q) by {
            let i = choose|i: int| 0 <= i < s1.len() && s1[i] == q;
            assert(s1[i].0 == x1 + i * u && s1[i].1 == y1 + i * vv);
            assert(s2[d - i].0 == x2 + (d - i) * (sign(x1 - x2)) && s2[d - i].1 == y2 + (d - i) * (
            sign(y1 - y2)));
            assert(x2 + (d - i) * (-u) == x1 + i * u) by (nonlinear_arith)
                requires
                    x2 == x1 + d * u,
            ;
            assert(y2 + (d - i) * (-vv) == y1 + i * vv) by (nonlinear_arith)
                requires
                    y2 == y1 + d * vv,
            ;
            assert(s2[d - i] == q);
            assert(s2.contains(q));
        }
        assert forall|q: (int, int)| s2.contains(q) implies s1.contains(q) by {
            let i = choose|i: int| 0 <= i < s2.len() && s2[i] == q;
            assert(s2[i].0 == x2 + i * (sign(x1 - x2)) && s2[i].1 == y2 + i * (sign(y1 - y2)));
            assert(s1[d - i].0 == x1 + (d - i) * u && s1[d - i].1 == y1 + (d - i) * vv);
            assert(x1 + (d - i) * u == x2 + i * (-u)) by (nonlinear_arith)
                requires
                    x2 == x1 + d * u,
            ;
            assert(y1 + (d - i) * vv == y2 + i * (-vv)) by (nonlinear_arith)
                requires
                    y2 == y1 + d * vv,
            ;
            assert(s1[d - i] == q);
            assert(s1.contains(q));
        }
        assert(line_set(x1, y1, x2, y2) =~= line_set(x2, y2, x1, y1));
    }
}

/// A walk whose neighbouring rows differ by at most one visits every row
/// between the rows of its first point and of any later one: a discrete
/// intermediate-value property.
proof fn lemma_unit_steps_hit(s: Seq<(int, int)>, y: int, n: int)
    requires
        0 <= n < s.len(),
        forall|i: int| 0 <= i < s.len() - 1 ==> -1 <= s[i + 1].1 - (#[trigger] s[i]).1 <= 1,
        in_range(y, s[0].1, s[n].1),
    ensures
        exists|t: int| 0 <= t <= n && (#[trigger] s[t]).1 == y,
    decreases n,
{
    if s[n].1 == y {
        assert(0 <= n <= n && s[n].1 == y);
    } else if s[0].1 == y {
        assert(0 <= 0 <= n && s[0].1 == y);
    } else {
        assert(n >= 1);
        assert(-1 <= s[n - 1 + 1].1 - s[n - 1].1 <= 1);
        assert(in_range(y, s[0].1, s[n - 1].1));
        lemma_unit_steps_hit(s, y, n - 1);
    }
}

/// Every row between a segment's endpoint rows holds at least one of its
/// pixels.
pub proof fn lemma_line_rows_covered(x1: int, y1: int, x2: int, y2: int, y: int)
    requires
        in_range(y, y1, y2),
    ensures
        exists|t: int|
            0 <= t < line_seq(x1, y1, x2, y2).len() && (#[trigger] line_seq(x1, y1, x2, y2)[t]).1
                == y,
{
    lemma_line_seq_props(x1, y1, x2, y2);
    let s = line_seq(x1, y1, x2, y2);
    lemma_unit_steps_hit(s, y, s.len() - 1);
}

} // verus!
