//! Solid line segments by integer error-accumulation stepping.
use vstd::prelude::*;

use crate::common_2d::{abs, max, PutPixel};

verus! {

/// Direction of travel along one axis: +1 towards a larger end, -1 otherwise.
pub open spec fn dir(from: int, to: int) -> int {
    if from < to {
        1
    } else {
        -1
    }
}

/// One stepping decision on the state `(i, j, err)`, where `i` and `j` count
/// the steps taken along x and y. Both tests use the error as it was before
/// the step; a tie advances both axes.
pub open spec fn step(s: (int, int, int), dx: int, dy: int) -> (int, int, int) {
    let e2 = 2 * s.2;
    let (i, e) = if e2 >= -dy {
        (s.0 + 1, s.2 - dy)
    } else {
        (s.0, s.2)
    };
    if e2 <= dx {
        (i, s.1 + 1, e + dx)
    } else {
        (i, s.1, e)
    }
}

/// The stepping state after `k` steps, for axis deltas `dx`, `dy` (both >= 0).
pub open spec fn state(dx: int, dy: int, k: nat) -> (int, int, int)
    decreases k,
{
    if k == 0 {
        (0, 0, dx - dy)
    } else {
        step(state(dx, dy, (k - 1) as nat), dx, dy)
    }
}

/// Number of steps from start to end: the larger axis delta.
pub open spec fn line_steps(x0: int, y0: int, x1: int, y1: int) -> int {
    max(abs(x1 - x0), abs(y1 - y0))
}

/// The `k`-th pixel of the solid line from `(x0, y0)` to `(x1, y1)`.
pub open spec fn line_pixel(x0: int, y0: int, x1: int, y1: int, k: nat) -> (int, int) {
    let s = state(abs(x1 - x0), abs(y1 - y0), k);
    (x0 + dir(x0, x1) * s.0, y0 + dir(y0, y1) * s.1)
}

/// The pixels of the solid line from `(x0, y0)` to `(x1, y1)`, both ends
/// included, in the order they are visited.
pub open spec fn line_pixels(x0: int, y0: int, x1: int, y1: int) -> Seq<(int, int)> {
    Seq::new(
        (line_steps(x0, y0, x1, y1) + 1) as nat,
        |k: int| line_pixel(x0, y0, x1, y1, k as nat),
    )
}

/// Twice the signed area spanned by the step counts `(i, j)` and the deltas;
/// proportional to the distance of the pixel from the ideal line.
pub open spec fn deviation(dx: int, dy: int, i: int, j: int) -> int {
    dx * j - dy * i
}

proof fn lemma_deviation_step(dx: int, dy: int, i: int, j: int)
    ensures
        deviation(dx, dy, i + 1, j) == deviation(dx, dy, i, j) - dy,
        deviation(dx, dy, i, j + 1) == deviation(dx, dy, i, j) + dx,
        deviation(dx, dy, i + 1, j + 1) == deviation(dx, dy, i, j) - dy + dx,
{
    assert(dx * j - dy * (i + 1) == dx * j - dy * i - dy) by (nonlinear_arith);
    assert(dx * (j + 1) - dy * i == dx * j - dy * i + dx) by (nonlinear_arith);
    assert(dx * (j + 1) - dy * (i + 1) == dx * j - dy * i - dy + dx) by (nonlinear_arith);
}

proof fn lemma_state(dx: int, dy: int, k: nat)
    requires
        dx >= 0,
        dy >= 0,
        k <= max(dx, dy),
    ensures
        ({
            let s = state(dx, dy, k);
            &&& s.2 == dx - dy + deviation(dx, dy, s.0, s.1)
            &&& -max(dx, dy) <= 2 * deviation(dx, dy, s.0, s.1) <= max(dx, dy)
            &&& 0 <= s.0 <= dx
            &&& 0 <= s.1 <= dy
            &&& dx >= dy ==> s.0 == k
            &&& dx < dy ==> s.1 == k
        }),
    decreases k,
{
    if k == 0 {
        assert(deviation(dx, dy, 0, 0) == 0) by (nonlinear_arith);
    } else {
        lemma_state(dx, dy, (k - 1) as nat);
        let p = state(dx, dy, (k - 1) as nat);
        let s = state(dx, dy, k);
        let d = deviation(dx, dy, p.0, p.1);
        lemma_deviation_step(dx, dy, p.0, p.1);
        if dx >= dy {
            if s.1 > dy {
                assert(p.1 == dy);
                assert(2 * d <= dx);
                assert(dx * p.1 - dy * p.0 == dy * (dx - p.0)) by (nonlinear_arith)
                    requires
                        p.1 == dy,
                ;
                assert(dy * (dx - p.0) >= dy) by (nonlinear_arith)
                    requires
                        p.0 < dx,
                        dy >= 0,
                ;
            }
        } else {
            if s.0 > dx {
                assert(p.0 == dx);
                assert(dx * p.1 - dy * p.0 == -(dx * (dy - p.1))) by (nonlinear_arith)
                    requires
                        p.0 == dx,
                ;
                assert(dx * (dy - p.1) >= dx) by (nonlinear_arith)
                    requires
                        p.1 < dy,
                        dx >= 0,
                ;
            }
        }
    }
}

/// After the last step the end point is reached, and never before.
proof fn lemma_state_end(dx: int, dy: int, k: nat)
    requires
        dx >= 0,
        dy >= 0,
        k <= max(dx, dy),
    ensures
        (state(dx, dy, k).0 == dx && state(dx, dy, k).1 == dy) <==> k == max(dx, dy),
{
    lemma_state(dx, dy, k);
    let s = state(dx, dy, k);
    let d = deviation(dx, dy, s.0, s.1);
    if k == max(dx, dy) {
        if dx >= dy {
            assert(s.0 == dx);
            assert(d == dx * (s.1 - dy)) by (nonlinear_arith)
                requires
                    s.0 == dx,
                    d == dx * s.1 - dy * s.0,
            ;
            if dx > 0 {
                if s.1 < dy {
                    assert(dx * (s.1 - dy) <= -dx) by (nonlinear_arith)
                        requires
                            s.1 < dy,
                            dx > 0,
                    ;
                }
            }
        } else {
            assert(s.1 == dy);
            assert(d == dy * (dx - s.0)) by (nonlinear_arith)
                requires
                    s.1 == dy,
                    d == dx * s.1 - dy * s.0,
            ;
            if s.0 < dx {
                assert(dy * (dx - s.0) >= dy) by (nonlinear_arith)
                    requires
                        s.0 < dx,
                        dy > 0,
                ;
            }
        }
    }
}

/// A pixel of the line as a full-coverage event.
pub open spec fn solid(p: (int, int)) -> (int, int, int) {
    (p.0, p.1, 255)
}

/// Writes the solid line from `(x0, y0)` to `(x1, y1)` into `canvas`, one
/// full-coverage event per pixel, from the start point to the end point.
pub fn plot_line<C: PutPixel>(canvas: &mut C, x0: i32, y0: i32, x1: i32, y1: i32)
    ensures
        final(canvas).painted() == old(canvas).painted() + line_pixels(
            x0 as int,
            y0 as int,
            x1 as int,
            y1 as int,
        ).map_values(|p: (int, int)| solid(p)),
{
    let dx: i64 = if x0 < x1 {
        x1 as i64 - x0 as i64
    } else {
        x0 as i64 - x1 as i64
    };
    let sx: i64 = if x0 < x1 {
        1
    } else {
        -1
    };
    let dy: i64 = if y0 < y1 {
        y1 as i64 - y0 as i64
    } else {
        y0 as i64 - y1 as i64
    };
    let sy: i64 = if y0 < y1 {
        1
    } else {
        -1
    };
    let mut err: i64 = dx - dy;
    let mut x: i64 = x0 as i64;
    let mut y: i64 = y0 as i64;
    let ghost pixels = line_pixels(x0 as int, y0 as int, x1 as int, y1 as int);
    let ghost events = pixels.map_values(|p: (int, int)| solid(p));
    let ghost m = max(dx as int, dy as int);
    let ghost mut k: nat = 0;
    proof {
        lemma_state(dx as int, dy as int, 0);
    }
    loop
        invariant_except_break
            canvas.painted() == old(canvas).painted() + events.take(k as int),
        invariant
            dx == abs(x1 - x0),
            dy == abs(y1 - y0),
            sx == dir(x0 as int, x1 as int),
            sy == dir(y0 as int, y1 as int),
            m == line_steps(x0 as int, y0 as int, x1 as int, y1 as int),
            pixels == line_pixels(x0 as int, y0 as int, x1 as int, y1 as int),
            events == pixels.map_values(|p: (int, int)| solid(p)),
            pixels.len() == m + 1,
            events.len() == m + 1,
            k <= m,
            ({
                let s = state(dx as int, dy as int, k);
                &&& x == x0 + sx * s.0
                &&& y == y0 + sy * s.1
                &&& err == s.2
                &&& s.2 == dx - dy + deviation(dx as int, dy as int, s.0, s.1)
                &&& -m <= 2 * deviation(dx as int, dy as int, s.0, s.1) <= m
                &&& 0 <= s.0 <= dx
                &&& 0 <= s.1 <= dy
            }),
        ensures
            canvas.painted() == old(canvas).painted() + events,
        decreases m - k,
    {
        proof {
            lemma_state(dx as int, dy as int, k);
            lemma_state_end(dx as int, dy as int, k);
        }
        let ghost s = state(dx as int, dy as int, k);
        assert(-dx <= sx * s.0 <= dx && -dy <= sy * s.1 <= dy) by (nonlinear_arith)
            requires
                0 <= s.0 <= dx,
                0 <= s.1 <= dy,
                sx == 1 || sx == -1,
                sy == 1 || sy == -1,
        ;
        assert(x0 <= x <= x1 || x1 <= x <= x0) by (nonlinear_arith)
            requires
                x == x0 + sx * s.0,
                0 <= s.0 <= dx,
                dx == abs(x1 - x0),
                sx == dir(x0 as int, x1 as int),
        ;
        assert(y0 <= y <= y1 || y1 <= y <= y0) by (nonlinear_arith)
            requires
                y == y0 + sy * s.1,
                0 <= s.1 <= dy,
                dy == abs(y1 - y0),
                sy == dir(y0 as int, y1 as int),
        ;
        canvas.put_pixel(x as i32, y as i32);
        assert(pixels[k as int] == line_pixel(x0 as int, y0 as int, x1 as int, y1 as int, k));
        assert(events[k as int] == solid(line_pixel(x0 as int, y0 as int, x1 as int, y1 as int, k)));
        assert(events.take(k as int + 1) =~= events.take(k as int).push(events[k as int]));
        if x == x1 as i64 && y == y1 as i64 {
            assert(s.0 == dx && s.1 == dy) by (nonlinear_arith)
                requires
                    x == x0 + sx * s.0,
                    y == y0 + sy * s.1,
                    x == x1,
                    y == y1,
                    dx == abs(x1 - x0),
                    dy == abs(y1 - y0),
                    sx == dir(x0 as int, x1 as int),
                    sy == dir(y0 as int, y1 as int),
            ;
            assert(events.take(k as int + 1) =~= events);
            break;
        }
        proof {
            if s.0 == dx && s.1 == dy {
                assert(x == x1 && y == y1) by (nonlinear_arith)
                    requires
                        x == x0 + sx * s.0,
                        y == y0 + sy * s.1,
                        s.0 == dx,
                        s.1 == dy,
                        dx == abs(x1 - x0),
                        dy == abs(y1 - y0),
                        sx == dir(x0 as int, x1 as int),
                        sy == dir(y0 as int, y1 as int),
                ;
            }
        }
        let e2: i64 = 2 * err;
        if e2 >= -dy {
            err = err - dy;
            x = x + sx;
        }
        if e2 <= dx {
            err = err + dx;
            y = y + sy;
        }
        proof {
            k = k + 1;
            lemma_state(dx as int, dy as int, k);
            let t = state(dx as int, dy as int, k);
            assert(x == x0 + sx * t.0 && y == y0 + sy * t.1) by (nonlinear_arith)
                requires
                    x == x0 + sx * s.0 + (t.0 - s.0) * sx,
                    y == y0 + sy * s.1 + (t.1 - s.1) * sy,
            ;
        }
    }
}

/// Twice the signed area of the triangle `(x0, y0)`, `(x1, y1)`, `p`: zero
/// exactly on the ideal line, and the line length times twice the distance
/// from it elsewhere.
pub open spec fn cross(x0: int, y0: int, x1: int, y1: int, p: (int, int)) -> int {
    (p.0 - x0) * (y1 - y0) - (p.1 - y0) * (x1 - x0)
}

proof fn lemma_line_pixel(x0: int, y0: int, x1: int, y1: int, k: nat)
    requires
        k <= line_steps(x0, y0, x1, y1),
    ensures
        ({
            let p = line_pixel(x0, y0, x1, y1, k);
            &&& 2 * abs(cross(x0, y0, x1, y1, p)) <= line_steps(x0, y0, x1, y1)
            &&& x0 <= p.0 <= x1 || x1 <= p.0 <= x0
            &&& y0 <= p.1 <= y1 || y1 <= p.1 <= y0
        }),
        k < line_steps(x0, y0, x1, y1) ==> {
            let p = line_pixel(x0, y0, x1, y1, k);
            let q = line_pixel(x0, y0, x1, y1, k + 1);
            &&& abs(q.0 - p.0) <= 1
            &&& abs(q.1 - p.1) <= 1
        },
{
    let dx = abs(x1 - x0);
    let dy = abs(y1 - y0);
    let sx = dir(x0, x1);
    let sy = dir(y0, y1);
    lemma_state(dx, dy, k);
    let s = state(dx, dy, k);
    let d = deviation(dx, dy, s.0, s.1);
    let p = line_pixel(x0, y0, x1, y1, k);
    assert(x1 - x0 == sx * dx && y1 - y0 == sy * dy);
    assert(cross(x0, y0, x1, y1, p) == -(sx * sy * d)) by (nonlinear_arith)
        requires
            p.0 - x0 == sx * s.0,
            p.1 - y0 == sy * s.1,
            x1 - x0 == sx * dx,
            y1 - y0 == sy * dy,
            d == dx * s.1 - dy * s.0,
            sx == 1 || sx == -1,
            sy == 1 || sy == -1,
    ;
    assert(abs(sx * sy * d) == abs(d)) by (nonlinear_arith)
        requires
            sx == 1 || sx == -1,
            sy == 1 || sy == -1,
    ;
    assert(x0 <= p.0 <= x1 || x1 <= p.0 <= x0) by (nonlinear_arith)
        requires
            p.0 == x0 + sx * s.0,
            0 <= s.0 <= dx,
            dx == abs(x1 - x0),
            sx == dir(x0, x1),
    ;
    assert(y0 <= p.1 <= y1 || y1 <= p.1 <= y0) by (nonlinear_arith)
        requires
            p.1 == y0 + sy * s.1,
            0 <= s.1 <= dy,
            dy == abs(y1 - y0),
            sy == dir(y0, y1),
    ;
    if k < line_steps(x0, y0, x1, y1) {
        let t = state(dx, dy, k + 1);
        let q = line_pixel(x0, y0, x1, y1, k + 1);
        assert(0 <= t.0 - s.0 <= 1 && 0 <= t.1 - s.1 <= 1);
        assert(abs(q.0 - p.0) <= 1 && abs(q.1 - p.1) <= 1) by (nonlinear_arith)
            requires
                q.0 - p.0 == sx * (t.0 - s.0),
                q.1 - p.1 == sy * (t.1 - s.1),
                0 <= t.0 - s.0 <= 1,
                0 <= t.1 - s.1 <= 1,
                sx == 1 || sx == -1,
                sy == 1 || sy == -1,
        ;
    }
}

/// Shape of a solid line: it has one pixel per step along the longer axis
/// plus one, starts and ends exactly at the given end points, forms a
/// connected 8-neighbour path, stays inside the end points' bounding box, and
/// every pixel lies within half a pixel of the ideal line along the shorter
/// axis (twice its cross product with the segment is at most the step count).
#[verifier::spinoff_prover]
pub proof fn lemma_line_shape(x0: int, y0: int, x1: int, y1: int)
    ensures
        ({
            let l = line_pixels(x0, y0, x1, y1);
            let n = line_steps(x0, y0, x1, y1);
            &&& l.len() == max(abs(x1 - x0), abs(y1 - y0)) + 1
            &&& l[0] == (x0, y0)
            &&& l[n] == (x1, y1)
            &&& forall|k: int|
                0 <= k < n ==> abs(#[trigger] l[k + 1].0 - l[k].0) <= 1 && abs(l[k + 1].1 - l[k].1)
                    <= 1
            &&& forall|k: int|
                0 <= k <= n ==> 2 * abs(cross(x0, y0, x1, y1, #[trigger] l[k])) <= n
            &&& forall|k: int|
                0 <= k <= n ==> (x0 <= #[trigger] l[k].0 <= x1 || x1 <= l[k].0 <= x0) && (y0
                    <= l[k].1 <= y1 || y1 <= l[k].1 <= y0)
        }),
{
    let l = line_pixels(x0, y0, x1, y1);
    let n = line_steps(x0, y0, x1, y1);
    let dx = abs(x1 - x0);
    let dy = abs(y1 - y0);
    lemma_state_end(dx, dy, n as nat);
    assert(0 * dir(x0, x1) == 0 && 0 * dir(y0, y1) == 0);
    let sx = dir(x0, x1);
    let sy = dir(y0, y1);
    assert(x0 + sx * dx == x1 && y0 + sy * dy == y1) by (nonlinear_arith)
        requires
            dx == abs(x1 - x0),
            dy == abs(y1 - y0),
            sx == dir(x0, x1),
            sy == dir(y0, y1),
    ;
    assert forall|k: int| 0 <= k < n implies abs(#[trigger] l[k + 1].0 - l[k].0) <= 1 && abs(
        l[k + 1].1 - l[k].1,
    ) <= 1 by {
        lemma_line_pixel(x0, y0, x1, y1, k as nat);
    }
    assert forall|k: int| 0 <= k <= n implies 2 * abs(cross(x0, y0, x1, y1, #[trigger] l[k]))
        <= n && (x0 <= l[k].0 <= x1 || x1 <= l[k].0 <= x0) && (y0 <= l[k].1 <= y1 || y1 <= l[k].1
        <= y0) by {
        lemma_line_pixel(x0, y0, x1, y1, k as nat);
    }
}

/// The fixed data of one wide line: its end point, axis deltas and
/// directions, and the error bound at which perpendicular runs stop.
pub struct WideLine {
    pub x1: int,
    pub y1: int,
    pub dx: int,
    pub dy: int,
    pub sx: int,
    pub sy: int,
    pub limit: int,
}

pub open spec fn wide_line(x0: int, y0: int, x1: int, y1: int, limit: int) -> WideLine {
    WideLine {
        x1,
        y1,
        dx: abs(x1 - x0),
        dy: abs(y1 - y0),
        sx: dir(x0, x1),
        sy: dir(y0, y1),
        limit,
    }
}

/// Whether `v` has not passed `end` when travelling in direction `s`.
pub open spec fn before_end(v: int, end: int, s: int) -> bool {
    if s > 0 {
        v <= end
    } else {
        v >= end
    }
}

/// The vertical run at column `x` beside row `y`, where `e` is the error of
/// the next pixel of the run: while that error is below the limit (and, for a
/// steep line, the end row is not reached) it steps one row and emits
/// `(x, row, e)`; each further row adds `dx` to the error.
pub open spec fn vertical_run(w: WideLine, x: int, y: int, e: int) -> Seq<(int, int, int)>
    decreases if w.dx > 0 {
        w.limit - e + w.dx
    } else {
        abs(w.y1 - y)
    },
{
    if e < w.limit && (w.y1 != y || w.dx > w.dy) && (w.dx > 0 || (w.y1 != y && before_end(y, w.y1, w.sy))) && (w.sy == 1
        || w.sy == -1) {
        seq![(x, y + w.sy, e)] + vertical_run(w, x, y + w.sy, e + w.dx)
    } else {
        Seq::empty()
    }
}

/// The horizontal run on row `y` beside column `x`, where `e` is the error of
/// the next pixel of the run; the mirror image of `vertical_run`.
pub open spec fn horizontal_run(w: WideLine, x: int, y: int, e: int) -> Seq<(int, int, int)>
    decreases if w.dy > 0 {
        w.limit - e + w.dy
    } else {
        abs(w.x1 - x)
    },
{
    if e < w.limit && (w.x1 != x || w.dx < w.dy) && (w.dy > 0 || (w.x1 != x && before_end(x, w.x1, w.sx))) && (w.sx == 1
        || w.sx == -1) {
        seq![(x + w.sx, y, e)] + horizontal_run(w, x + w.sx, y, e + w.dy)
    } else {
        Seq::empty()
    }
}

/// The events of the wide line from spine pixel `(x, y)` with error `err` on:
/// the spine pixel, with its error measured from the ideal line; when the x
/// test passes, the vertical run through it, and the step along x (or the
/// end, at the last column); when the y test passes, the horizontal run
/// through it, and the step along y (or the end, at the last row). Both tests
/// use the error as it was before the step.
pub open spec fn wide_from(w: WideLine, x: int, y: int, err: int) -> Seq<(int, int, int)>
    decreases abs(w.x1 - x) + abs(w.y1 - y),
{
    if !(before_end(x, w.x1, w.sx) && before_end(y, w.y1, w.sy) && (w.sx == 1 || w.sx == -1) && (
    w.sy == 1 || w.sy == -1)) {
        Seq::empty()
    } else {
        let head = seq![(x, y, err - w.dx + w.dy)];
        let step_x = 2 * err >= -w.dx;
        let v = if step_x {
            vertical_run(w, x, y, err + w.dy)
        } else {
            Seq::empty()
        };
        if step_x && x == w.x1 {
            head + v
        } else {
            let nx = if step_x {
                x + w.sx
            } else {
                x
            };
            let e1 = if step_x {
                err - w.dy
            } else {
                err
            };
            let step_y = 2 * err <= w.dy;
            let h = if step_y {
                horizontal_run(w, x, y, w.dx - err)
            } else {
                Seq::empty()
            };
            if step_y && y == w.y1 {
                head + v + h
            } else if !step_x && !step_y {
                head
            } else {
                let ny = if step_y {
                    y + w.sy
                } else {
                    y
                };
                let e2 = if step_y {
                    e1 + w.dx
                } else {
                    e1
                };
                head + v + h + wide_from(w, nx, ny, e2)
            }
        }
    }
}

/// The events `(x, y, error)` of the wide line from `(x0, y0)` to `(x1, y1)`:
/// spine pixels and the perpendicular runs around them, which stop once the
/// error reaches `limit`.
pub open spec fn wide_events(x0: int, y0: int, x1: int, y1: int, limit: int) -> Seq<
    (int, int, int),
> {
    wide_from(wide_line(x0, y0, x1, y1, limit), x0, y0, abs(x1 - x0) - abs(y1 - y0))
}

pub open spec fn wide_view(v: Seq<(i64, i64, i64)>) -> Seq<(int, int, int)> {
    v.map_values(|t: (i64, i64, i64)| (t.0 as int, t.1 as int, t.2 as int))
}

/// The events `(x, y, error)` of the anti-aliased wide line from `(x0, y0)`
/// to `(x1, y1)`: each spine pixel, then the perpendicular runs of pixels
/// beside it, in the order they are visited. The error of a pixel measures its
/// distance from the ideal line, scaled by the line's length; a caller turns
/// it into a coverage value. `limit` is the error at which a run stops: the
/// line's length times its half-width, rounded up.
pub fn wide_line_events(x0: i32, y0: i32, x1: i32, y1: i32, limit: i64) -> (r: Vec<
    (i64, i64, i64),
>)
    requires
        0 <= limit <= 0x1_0000_0000,
    ensures
        wide_view(r@) == wide_events(x0 as int, y0 as int, x1 as int, y1 as int, limit as int),
{
    let dx: i64 = if x0 < x1 {
        x1 as i64 - x0 as i64
    } else {
        x0 as i64 - x1 as i64
    };
    let sx: i64 = if x0 < x1 {
        1
    } else {
        -1
    };
    let dy: i64 = if y0 < y1 {
        y1 as i64 - y0 as i64
    } else {
        y0 as i64 - y1 as i64
    };
    let sy: i64 = if y0 < y1 {
        1
    } else {
        -1
    };
    let ghost w = wide_line(x0 as int, y0 as int, x1 as int, y1 as int, limit as int);
    let ghost all = wide_events(x0 as int, y0 as int, x1 as int, y1 as int, limit as int);
    let mut out: Vec<(i64, i64, i64)> = Vec::new();
    let mut err: i64 = dx - dy;
    let mut x: i64 = x0 as i64;
    let mut y: i64 = y0 as i64;
    assert(wide_view(out@) + all =~= all);
    loop
        invariant_except_break
            wide_view(out@) + wide_from(w, x as int, y as int, err as int) == all,
        invariant
            w == wide_line(x0 as int, y0 as int, x1 as int, y1 as int, limit as int),
            all == wide_events(x0 as int, y0 as int, x1 as int, y1 as int, limit as int),
            dx == w.dx,
            dy == w.dy,
            sx == w.sx,
            sy == w.sy,
            w.x1 == x1,
            w.y1 == y1,
            w.limit == limit,
            0 <= limit <= 0x1_0000_0000,
            0 <= dx <= 0x1_0000_0000,
            0 <= dy <= 0x1_0000_0000,
            sx == 1 || sx == -1,
            sy == 1 || sy == -1,
            before_end(x as int, x1 as int, sx as int),
            before_end(y as int, y1 as int, sy as int),
            x0 <= x <= x1 || x1 <= x <= x0,
            y0 <= y <= y1 || y1 <= y <= y0,
            -dx - dy <= err <= dx + dy,
        ensures
            wide_view(out@) == all,
        decreases abs(x1 - x) + abs(y1 - y),
    {
        let ghost base = wide_view(out@);
        let ghost px = x as int;
        let ghost py = y as int;
        let ghost head = seq![(x as int, y as int, (err - dx + dy) as int)];
        out.push((x, y, err - dx + dy));
        assert(wide_view(out@) =~= base + head);
        let e_old: i64 = err;
        let step_x = 2 * err >= -dx;
        let ghost v = if step_x {
            vertical_run(w, x as int, y as int, (err + dy) as int)
        } else {
            Seq::empty()
        };
        if step_x {
            let te0: i64 = err + dy;
            let mut te: i64 = te0;
            let mut ty: i64 = y;
            let ghost mid = wide_view(out@);
            assert(mid + vertical_run(w, x as int, ty as int, te as int) == mid + v);
            while te < limit && (y1 as i64 != ty || dx > dy)
                invariant
                    w == wide_line(x0 as int, y0 as int, x1 as int, y1 as int, limit as int),
                    dx == w.dx,
                    dy == w.dy,
                    sy == w.sy,
                    w.y1 == y1,
                    w.limit == limit,
                    0 <= limit <= 0x1_0000_0000,
                    0 <= dx <= 0x1_0000_0000,
                    0 <= dy <= 0x1_0000_0000,
                    sy == 1 || sy == -1,
                    -0x4_0000_0000 <= te0 <= 0x4_0000_0000,
                    -0x8000_0000 <= y < 0x8000_0000,
                    te0 <= te,
                    te == te0 || te < limit + dx,
                    dx >= 1 ==> abs(ty - y) <= te - te0,
                    dx == 0 ==> te == te0 && before_end(ty as int, y1 as int, sy as int) && abs(
                        ty - y,
                    ) <= 0x1_0000_0000,
                    wide_view(out@) + vertical_run(w, x as int, ty as int, te as int) == mid + v,
                decreases if dx > 0 {
                    limit - te + dx
                } else {
                    abs(y1 - ty)
                },
            {
                let ghost before = wide_view(out@);
                let ghost rest = vertical_run(w, x as int, ty as int, te as int);
                assert(rest == seq![(x as int, ty + sy, te as int)] + vertical_run(
                    w,
                    x as int,
                    ty + sy,
                    te + dx,
                ));
                ty = ty + sy;
                out.push((x, ty, te));
                assert(wide_view(out@) =~= before + seq![(x as int, ty as int, te as int)]);
                te = te + dx;
                assert(wide_view(out@) + vertical_run(w, x as int, ty as int, te as int) =~= before
                    + rest);
            }
            assert(vertical_run(w, x as int, ty as int, te as int) =~= Seq::empty());
            assert(wide_view(out@) =~= mid + v);
            if x == x1 as i64 {
                assert(wide_from(w, x as int, y as int, err as int) == head + v);
                assert(wide_view(out@) =~= base + (head + v));
                break;
            }
            err = err - dy;
            x = x + sx;
        }
        let step_y = 2 * e_old <= dy;
        assert(step_x || step_y);
        let ghost h = if step_y {
            horizontal_run(w, px, y as int, (dx - e_old) as int)
        } else {
            Seq::empty()
        };
        let ghost after_v = wide_view(out@);
        assert(after_v == base + head + v);
        if step_y {
            let te0: i64 = dx - e_old;
            let mut te: i64 = te0;
            let mut tx: i64 = if step_x {
                x - sx
            } else {
                x
            };
            let ghost mid = wide_view(out@);
            let ghost tx0 = tx;
            assert(mid + horizontal_run(w, tx as int, y as int, te as int) == mid + h);
            while te < limit && (x1 as i64 != tx || dx < dy)
                invariant
                    w == wide_line(x0 as int, y0 as int, x1 as int, y1 as int, limit as int),
                    dx == w.dx,
                    dy == w.dy,
                    sx == w.sx,
                    w.x1 == x1,
                    w.limit == limit,
                    0 <= limit <= 0x1_0000_0000,
                    0 <= dx <= 0x1_0000_0000,
                    0 <= dy <= 0x1_0000_0000,
                    sx == 1 || sx == -1,
                    -0x4_0000_0000 <= te0 <= 0x4_0000_0000,
                    -0x8000_0000 <= tx0 < 0x8000_0000,
                    te0 <= te,
                    te == te0 || te < limit + dy,
                    dy >= 1 ==> abs(tx - tx0) <= te - te0,
                    dy == 0 ==> te == te0 && before_end(tx as int, x1 as int, sx as int) && abs(
                        tx - tx0,
                    ) <= 0x1_0000_0000,
                    wide_view(out@) + horizontal_run(w, tx as int, y as int, te as int) == mid + h,
                decreases if dy > 0 {
                    limit - te + dy
                } else {
                    abs(x1 - tx)
                },
            {
                let ghost before = wide_view(out@);
                let ghost rest = horizontal_run(w, tx as int, y as int, te as int);
                assert(rest == seq![(tx + sx, y as int, te as int)] + horizontal_run(
                    w,
                    tx + sx,
                    y as int,
                    te + dy,
                ));
                tx = tx + sx;
                out.push((tx, y, te));
                assert(wide_view(out@) =~= before + seq![(tx as int, y as int, te as int)]);
                te = te + dy;
                assert(wide_view(out@) + horizontal_run(w, tx as int, y as int, te as int) =~= before
                    + rest);
            }
            assert(horizontal_run(w, tx as int, y as int, te as int) =~= Seq::empty());
            assert(wide_view(out@) =~= mid + h);
            if y == y1 as i64 {
                assert(wide_from(w, px, py, e_old as int) == head + v + h);
                assert(wide_view(out@) =~= base + (head + v + h));
                break;
            }
            err = err + dx;
            y = y + sy;
        } else {
            assert(h =~= Seq::empty());
            assert(wide_view(out@) =~= after_v + h);
        }
        assert(wide_from(w, px, py, e_old as int) == head + v + h + wide_from(w, x as int, y as int, err as int));
        assert(wide_view(out@) + wide_from(w, x as int, y as int, err as int) =~= base + (head + v + h + wide_from(w, x as int, y as int, err as int)));
    }
    out
}

/// Along a vertical run the column stays fixed, each pixel is one row further
/// on with an error larger by `dx` (so, for any line that is not vertical,
/// strictly growing: coverage falls away from the spine), and every pixel's
/// error is below the limit.
pub proof fn lemma_vertical_run(w: WideLine, x: int, y: int, e: int)
    ensures
        ({
            let r = vertical_run(w, x, y, e);
            &&& forall|k: int| 0 <= k < r.len() ==> #[trigger] r[k].0 == x && r[k].2 < w.limit
            &&& r.len() > 0 ==> r[0].1 == y + w.sy && r[0].2 == e
            &&& forall|k: int|
                0 <= k < r.len() - 1 ==> #[trigger] r[k + 1].2 == r[k].2 + w.dx && r[k + 1].1
                    == r[k].1 + w.sy
        }),
    decreases if w.dx > 0 {
        w.limit - e + w.dx
    } else {
        abs(w.y1 - y)
    },
{
    let r = vertical_run(w, x, y, e);
    if r.len() > 0 {
        lemma_vertical_run(w, x, y + w.sy, e + w.dx);
        let t = vertical_run(w, x, y + w.sy, e + w.dx);
        assert(r == seq![(x, y + w.sy, e)] + t);
        assert forall|k: int| 0 <= k < r.len() implies #[trigger] r[k].0 == x && r[k].2 < w.limit by {
            if k > 0 {
                assert(r[k] == t[k - 1]);
            }
        }
        assert forall|k: int| 0 <= k < r.len() - 1 implies #[trigger] r[k + 1].2 == r[k].2 + w.dx
            && r[k + 1].1 == r[k].1 + w.sy by {
            assert(r[k + 1] == t[k]);
            if k > 0 {
                assert(r[k] == t[k - 1]);
                assert(t[(k - 1) + 1].2 == t[k - 1].2 + w.dx);
            } else {
                assert(t.len() > 0);
            }
        }
    }
}

/// Along a horizontal run the row stays fixed, each pixel is one column
/// further on with an error larger by `dy`, and every pixel's error is below
/// the limit.
pub proof fn lemma_horizontal_run(w: WideLine, x: int, y: int, e: int)
    ensures
        ({
            let r = horizontal_run(w, x, y, e);
            &&& forall|k: int| 0 <= k < r.len() ==> #[trigger] r[k].1 == y && r[k].2 < w.limit
            &&& r.len() > 0 ==> r[0].0 == x + w.sx && r[0].2 == e
            &&& forall|k: int|
                0 <= k < r.len() - 1 ==> #[trigger] r[k + 1].2 == r[k].2 + w.dy && r[k + 1].0
                    == r[k].0 + w.sx
        }),
    decreases if w.dy > 0 {
        w.limit - e + w.dy
    } else {
        abs(w.x1 - x)
    },
{
    let r = horizontal_run(w, x, y, e);
    if r.len() > 0 {
        lemma_horizontal_run(w, x + w.sx, y, e + w.dy);
        let t = horizontal_run(w, x + w.sx, y, e + w.dy);
        assert(r == seq![(x + w.sx, y, e)] + t);
        assert forall|k: int| 0 <= k < r.len() implies #[trigger] r[k].1 == y && r[k].2 < w.limit by {
            if k > 0 {
                assert(r[k] == t[k - 1]);
            }
        }
        assert forall|k: int| 0 <= k < r.len() - 1 implies #[trigger] r[k + 1].2 == r[k].2 + w.dy
            && r[k + 1].0 == r[k].0 + w.sx by {
            assert(r[k + 1] == t[k]);
            if k > 0 {
                assert(r[k] == t[k - 1]);
                assert(t[(k - 1) + 1].2 == t[k - 1].2 + w.dy);
            } else {
                assert(t.len() > 0);
            }
        }
    }
}

/// The wide line starts at its start point, on the ideal line (error zero).
pub proof fn lemma_wide_start(x0: int, y0: int, x1: int, y1: int, limit: int)
    ensures
        wide_events(x0, y0, x1, y1, limit).len() > 0,
        wide_events(x0, y0, x1, y1, limit)[0] == (x0, y0, 0int),
{
    let w = wide_line(x0, y0, x1, y1, limit);
    let s = wide_events(x0, y0, x1, y1, limit);
    assert(before_end(x0, x1, w.sx) && before_end(y0, y1, w.sy));
    assert(s[0] == (x0, y0, 0int));
}

/// The signed deviation of pixel `p` from the ideal line through `(x0, y0)`
/// with the data `w`: the step counts from the start along x and y, weighted
/// by the opposite deltas.
pub open spec fn signed_deviation(x0: int, y0: int, w: WideLine, p: (int, int)) -> int {
    w.dx * (w.sy * (p.1 - y0)) - w.dy * (w.sx * (p.0 - x0))
}

/// Every event of `s` carries, up to sign, the deviation of its pixel.
pub open spec fn errors_are_deviations(x0: int, y0: int, w: WideLine, s: Seq<(int, int, int)>) -> bool {
    forall|k: int|
        0 <= k < s.len() ==> abs(#[trigger] s[k].2) == abs(
            signed_deviation(x0, y0, w, (s[k].0, s[k].1)),
        )
}

proof fn lemma_deviation_moves(x0: int, y0: int, w: WideLine, x: int, y: int)
    requires
        w.sx == 1 || w.sx == -1,
        w.sy == 1 || w.sy == -1,
    ensures
        signed_deviation(x0, y0, w, (x, y + w.sy)) == signed_deviation(x0, y0, w, (x, y)) + w.dx,
        signed_deviation(x0, y0, w, (x + w.sx, y)) == signed_deviation(x0, y0, w, (x, y)) - w.dy,
{
    assert(w.dx * (w.sy * (y + w.sy - y0)) == w.dx * (w.sy * (y - y0)) + w.dx) by (nonlinear_arith)
        requires
            w.sy == 1 || w.sy == -1,
    ;
    assert(w.dy * (w.sx * (x + w.sx - x0)) == w.dy * (w.sx * (x - x0)) + w.dy) by (nonlinear_arith)
        requires
            w.sx == 1 || w.sx == -1,
    ;
}

proof fn lemma_concat_deviations(
    x0: int,
    y0: int,
    w: WideLine,
    a: Seq<(int, int, int)>,
    b: Seq<(int, int, int)>,
)
    requires
        errors_are_deviations(x0, y0, w, a),
        errors_are_deviations(x0, y0, w, b),
    ensures
        errors_are_deviations(x0, y0, w, a + b),
{
    let c = a + b;
    assert forall|k: int| 0 <= k < c.len() implies abs(#[trigger] c[k].2) == abs(
        signed_deviation(x0, y0, w, (c[k].0, c[k].1)),
    ) by {
        if k < a.len() {
            assert(c[k] == a[k]);
        } else {
            assert(c[k] == b[k - a.len()]);
        }
    }
}

proof fn lemma_vertical_run_deviation(x0: int, y0: int, w: WideLine, x: int, y: int, e: int)
    requires
        w.sx == 1 || w.sx == -1,
        w.sy == 1 || w.sy == -1,
        e == signed_deviation(x0, y0, w, (x, y + w.sy)),
    ensures
        errors_are_deviations(x0, y0, w, vertical_run(w, x, y, e)),
    decreases if w.dx > 0 {
        w.limit - e + w.dx
    } else {
        abs(w.y1 - y)
    },
{
    let r = vertical_run(w, x, y, e);
    if r.len() > 0 {
        lemma_deviation_moves(x0, y0, w, x, y + w.sy);
        lemma_vertical_run_deviation(x0, y0, w, x, y + w.sy, e + w.dx);
        let head = seq![(x, y + w.sy, e)];
        assert(errors_are_deviations(x0, y0, w, head));
        lemma_concat_deviations(x0, y0, w, head, vertical_run(w, x, y + w.sy, e + w.dx));
    } else {
        assert(r =~= Seq::empty());
    }
}

proof fn lemma_horizontal_run_deviation(x0: int, y0: int, w: WideLine, x: int, y: int, e: int)
    requires
        w.sx == 1 || w.sx == -1,
        w.sy == 1 || w.sy == -1,
        e == -signed_deviation(x0, y0, w, (x + w.sx, y)),
    ensures
        errors_are_deviations(x0, y0, w, horizontal_run(w, x, y, e)),
    decreases if w.dy > 0 {
        w.limit - e + w.dy
    } else {
        abs(w.x1 - x)
    },
{
    let r = horizontal_run(w, x, y, e);
    if r.len() > 0 {
        lemma_deviation_moves(x0, y0, w, x + w.sx, y);
        lemma_horizontal_run_deviation(x0, y0, w, x + w.sx, y, e + w.dy);
        let head = seq![(x + w.sx, y, e)];
        assert(errors_are_deviations(x0, y0, w, head));
        lemma_concat_deviations(x0, y0, w, head, horizontal_run(w, x + w.sx, y, e + w.dy));
    } else {
        assert(r =~= Seq::empty());
    }
}

proof fn lemma_wide_from_deviation(x0: int, y0: int, w: WideLine, x: int, y: int, err: int)
    requires
        err - w.dx + w.dy == signed_deviation(x0, y0, w, (x, y)),
    ensures
        errors_are_deviations(x0, y0, w, wide_from(w, x, y, err)),
    decreases abs(w.x1 - x) + abs(w.y1 - y),
{
    let r = wide_from(w, x, y, err);
    if !(before_end(x, w.x1, w.sx) && before_end(y, w.y1, w.sy) && (w.sx == 1 || w.sx == -1) && (
    w.sy == 1 || w.sy == -1)) {
        assert(r =~= Seq::empty());
    } else {
        let head = seq![(x, y, err - w.dx + w.dy)];
        assert(errors_are_deviations(x0, y0, w, head));
        lemma_deviation_moves(x0, y0, w, x, y);
        let step_x = 2 * err >= -w.dx;
        let step_y = 2 * err <= w.dy;
        let v = if step_x {
            vertical_run(w, x, y, err + w.dy)
        } else {
            Seq::empty()
        };
        let h = if step_y {
            horizontal_run(w, x, y, w.dx - err)
        } else {
            Seq::empty()
        };
        if step_x {
            lemma_vertical_run_deviation(x0, y0, w, x, y, err + w.dy);
        } else {
            assert(errors_are_deviations(x0, y0, w, v));
        }
        if step_y {
            lemma_horizontal_run_deviation(x0, y0, w, x, y, w.dx - err);
        } else {
            assert(errors_are_deviations(x0, y0, w, h));
        }
        lemma_concat_deviations(x0, y0, w, head, v);
        lemma_concat_deviations(x0, y0, w, head + v, h);
        if !(step_x && x == w.x1) && !(step_y && y == w.y1) && (step_x || step_y) {
            let nx = if step_x {
                x + w.sx
            } else {
                x
            };
            let ny = if step_y {
                y + w.sy
            } else {
                y
            };
            let e1 = if step_x {
                err - w.dy
            } else {
                err
            };
            let e2 = if step_y {
                e1 + w.dx
            } else {
                e1
            };
            lemma_deviation_moves(x0, y0, w, nx, y);
            lemma_deviation_moves(x0, y0, w, x, ny);
            if step_x && step_y {
                lemma_deviation_moves(x0, y0, w, x + w.sx, y);
            }
            lemma_wide_from_deviation(x0, y0, w, nx, ny, e2);
            lemma_concat_deviations(x0, y0, w, head + v + h, wide_from(w, nx, ny, e2));
        }
    }
}

/// Each event of the wide line carries, up to sign, twice the signed area
/// `cross` of its pixel with the segment: the pixel's distance from the ideal
/// line times the line's length. Run pixels are therefore reported with their
/// own distance, and the coverage drawn from it falls off with that distance.
pub proof fn lemma_wide_errors(x0: int, y0: int, x1: int, y1: int, limit: int)
    ensures
        forall|k: int|
            0 <= k < wide_events(x0, y0, x1, y1, limit).len() ==> abs(
                #[trigger] wide_events(x0, y0, x1, y1, limit)[k].2,
            ) == abs(
                cross(
                    x0,
                    y0,
                    x1,
                    y1,
                    (wide_events(x0, y0, x1, y1, limit)[k].0, wide_events(x0, y0, x1, y1, limit)[k].1),
                ),
            ),
{
    let w = wide_line(x0, y0, x1, y1, limit);
    let s = wide_events(x0, y0, x1, y1, limit);
    assert(signed_deviation(x0, y0, w, (x0, y0)) == 0) by (nonlinear_arith)
        requires
            signed_deviation(x0, y0, w, (x0, y0)) == w.dx * (w.sy * 0) - w.dy * (w.sx * 0),
    ;
    lemma_wide_from_deviation(x0, y0, w, x0, y0, w.dx - w.dy);
    assert(x1 - x0 == w.sx * w.dx && y1 - y0 == w.sy * w.dy) by (nonlinear_arith)
        requires
            w.dx == abs(x1 - x0),
            w.dy == abs(y1 - y0),
            w.sx == dir(x0, x1),
            w.sy == dir(y0, y1),
    ;
    assert forall|k: int| 0 <= k < s.len() implies abs(#[trigger] s[k].2) == abs(
        cross(x0, y0, x1, y1, (s[k].0, s[k].1)),
    ) by {
        let p = (s[k].0, s[k].1);
        let d = signed_deviation(x0, y0, w, p);
        assert(abs(d) == abs(cross(x0, y0, x1, y1, p))) by (nonlinear_arith)
            requires
                d == w.dx * (w.sy * (p.1 - y0)) - w.dy * (w.sx * (p.0 - x0)),
                cross(x0, y0, x1, y1, p) == (p.0 - x0) * (y1 - y0) - (p.1 - y0) * (x1 - x0),
                x1 - x0 == w.sx * w.dx,
                y1 - y0 == w.sy * w.dy,
                w.sx == 1 || w.sx == -1,
                w.sy == 1 || w.sy == -1,
        ;
    }
}

} // verus!
