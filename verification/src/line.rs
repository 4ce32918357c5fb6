//! Line segments rasterized with Bresenham's algorithm: integer-only stepping
//! along the dominant axis, driven by a sign-tested error term.

use vstd::prelude::*;
use crate::{Color, Vector};
use crate::canvas::{cell_color, in_canvas, lemma_to_set_push, lemma_write_cell, red, write_cell, SCREEN_LEN};

verus! {

/// A line segment; `end` is rewritten while the figure is dragged.
pub struct Line {
    pub start: Vector,
    pub end: Vector,
}

/// Absolute value over the mathematical integers.
pub open spec fn abs_i(v: int) -> int {
    if v >= 0 {
        v
    } else {
        -v
    }
}

/// Maximum of two mathematical integers.
pub open spec fn max_i(a: int, b: int) -> int {
    if a >= b {
        a
    } else {
        b
    }
}

/// The unit step used along one axis: toward `b` from `a`, and +1 for the
/// never-exercised case `a == b`.
pub open spec fn step_of(a: int, b: int) -> int {
    if a < b {
        1
    } else {
        -1
    }
}

/// One Bresenham step from (cx, cy) with error term err: doubles the error,
/// then advances x and/or y. Returns (new x, new y, new err).
pub open spec fn line_step(
    cx: int,
    cy: int,
    dx: int,
    dy: int,
    sx: int,
    sy: int,
    err: int,
) -> (int, int, int) {
    let e2 = 2 * err;
    let nx = if e2 > -dy {
        cx + sx
    } else {
        cx
    };
    let err1 = if e2 > -dy {
        err - dy
    } else {
        err
    };
    let ny = if e2 < dx {
        cy + sy
    } else {
        cy
    };
    let err2 = if e2 < dx {
        err1 + dx
    } else {
        err1
    };
    (nx, ny, err2)
}

/// The pixels Bresenham's loop visits from (cx, cy) until it reaches
/// (ex, ey), current pixel first. The recursion stops early if a step fails
/// to make progress, which never happens from a well-formed state
/// (`line_inv`).
pub open spec fn line_trace_rec(
    cx: int,
    cy: int,
    ex: int,
    ey: int,
    dx: int,
    dy: int,
    sx: int,
    sy: int,
    err: int,
) -> Seq<(int, int)>
    decreases abs_i(ex - cx) + abs_i(ey - cy),
{
    if cx == ex && cy == ey {
        seq![(cx, cy)]
    } else {
        let s = line_step(cx, cy, dx, dy, sx, sy, err);
        if abs_i(ex - s.0) + abs_i(ey - s.1) < abs_i(ex - cx) + abs_i(ey - cy) {
            seq![(cx, cy)] + line_trace_rec(s.0, s.1, ex, ey, dx, dy, sx, sy, s.2)
        } else {
            seq![(cx, cy)]
        }
    }
}

/// The pixels of the line from (ax, ay) to (bx, by), in drawing order.
pub open spec fn line_trace(ax: int, ay: int, bx: int, by: int) -> Seq<(int, int)> {
    line_trace_rec(
        ax,
        ay,
        bx,
        by,
        abs_i(bx - ax),
        abs_i(by - ay),
        step_of(ax, bx),
        step_of(ay, by),
        abs_i(bx - ax) - abs_i(by - ay),
    )
}

/// The set of pixels the line from (ax, ay) to (bx, by) covers.
pub open spec fn line_set(ax: int, ay: int, bx: int, by: int) -> Set<(int, int)> {
    line_trace(ax, ay, bx, by).to_set()
}

/// The loop invariant of Bresenham's algorithm. With rx and ry the remaining
/// distances to the endpoint along each axis, the error term always equals
/// dx - dy + rx*dy - ry*dx, and the deviation rx*dy - ry*dx stays within half
/// a dominant-axis step of the true line.
pub open spec fn line_inv(
    cx: int,
    cy: int,
    ex: int,
    ey: int,
    dx: int,
    dy: int,
    sx: int,
    sy: int,
    err: int,
) -> bool {
    let rx = (ex - cx) * sx;
    let ry = (ey - cy) * sy;
    let dd = 2 * (rx * dy - ry * dx);
    &&& (sx == 1 || sx == -1)
    &&& (sy == 1 || sy == -1)
    &&& 0 <= rx <= dx
    &&& 0 <= ry <= dy
    &&& err == dx - dy + rx * dy - ry * dx
    &&& if dx > dy {
        -dx <= dd <= dx
    } else if dy > dx {
        -dy <= dd <= dy
    } else {
        dd == 0
    }
}

/// Two pixels that touch, including diagonally, but do not coincide.
pub open spec fn adjacent(p: (int, int), q: (int, int)) -> bool {
    &&& abs_i(q.0 - p.0) <= 1
    &&& abs_i(q.1 - p.1) <= 1
    &&& p != q
}

/// One step of Bresenham's loop from a well-formed state short of the
/// endpoint: it moves one pixel (8-connected) toward the endpoint, advances
/// the dominant axis, never overshoots, and preserves the invariant.
proof fn lemma_line_step(
    cx: int,
    cy: int,
    ex: int,
    ey: int,
    dx: int,
    dy: int,
    sx: int,
    sy: int,
    err: int,
)
    requires
        line_inv(cx, cy, ex, ey, dx, dy, sx, sy, err),
        !(cx == ex && cy == ey),
    ensures
        ({
            let s = line_step(cx, cy, dx, dy, sx, sy, err);
            let rx = (ex - cx) * sx;
            let ry = (ey - cy) * sy;
            let nrx = (ex - s.0) * sx;
            let nry = (ey - s.1) * sy;
            &&& line_inv(s.0, s.1, ex, ey, dx, dy, sx, sy, s.2)
            &&& abs_i(ex - s.0) + abs_i(ey - s.1) < abs_i(ex - cx) + abs_i(ey - cy)
            &&& adjacent((cx, cy), (s.0, s.1))
            &&& (dx >= dy ==> s.0 == cx + sx && nrx == rx - 1)
            &&& (dy >= dx ==> s.1 == cy + sy && nry == ry - 1)
            &&& (dx == 0 ==> s.0 == cx)
            &&& (dy == 0 ==> s.1 == cy)
            &&& max_i(nrx, nry) == max_i(rx, ry) - 1
            &&& abs_i(ex - cx) == rx && abs_i(ey - cy) == ry
            &&& abs_i(ex - s.0) == nrx && abs_i(ey - s.1) == nry
        }),
{
    let s = line_step(cx, cy, dx, dy, sx, sy, err);
    let rx = (ex - cx) * sx;
    let ry = (ey - cy) * sy;
    let dd = rx * dy - ry * dx;
    let e2 = 2 * err;
    assert(rx == 0 ==> cx == ex) by (nonlinear_arith)
        requires
            rx == (ex - cx) * sx,
            sx == 1 || sx == -1,
    ;
    assert(ry == 0 ==> cy == ey) by (nonlinear_arith)
        requires
            ry == (ey - cy) * sy,
            sy == 1 || sy == -1,
    ;
    // the two advance conditions, rewritten over the deviation dd
    assert(e2 == 2 * dx - 2 * dy + 2 * dd);
    if dx > dy {
        // x advances every step
        assert(rx >= 1) by (nonlinear_arith)
            requires
                rx >= 0,
                ry >= 0,
                !(rx == 0 && ry == 0),
                -dx <= 2 * dd <= dx,
                dx > dy >= 0,
                dd == rx * dy - ry * dx,
        ;
        assert(e2 > -dy);  // 2dd >= -dx > dy - 2dx
        if e2 < dx {
            // y advances too; it cannot overshoot
            assert(ry >= 1) by (nonlinear_arith)
                requires
                    2 * dd < dx - 2 * (dx - dy),
                    dd == rx * dy - ry * dx,
                    rx >= 1,
                    dx > dy >= 0,
                    ry >= 0,
            ;
        }
    } else if dy > dx {
        assert(ry >= 1) by (nonlinear_arith)
            requires
                rx >= 0,
                ry >= 0,
                !(rx == 0 && ry == 0),
                -dy <= 2 * dd <= dy,
                dy > dx >= 0,
                dd == rx * dy - ry * dx,
        ;
        assert(e2 < dx);  // 2dd <= dy < 2dy - dx
        if e2 > -dy {
            assert(rx >= 1) by (nonlinear_arith)
                requires
                    2 * dd > -dy - 2 * (dx - dy),
                    dd == rx * dy - ry * dx,
                    ry >= 1,
                    dy > dx >= 0,
                    rx >= 0,
            ;
        }
    } else {
        // dx == dy: the deviation is pinned to zero and both axes advance
        assert(rx == ry) by (nonlinear_arith)
            requires
                rx * dy - ry * dx == 0,
                dx == dy,
                0 <= rx <= dx,
                0 <= ry <= dy,
        ;
        assert(rx >= 1);
        assert(dx >= 1);
        assert(e2 > -dy);
        assert(e2 < dx);
    }
    let nrx = (ex - s.0) * sx;
    let nry = (ey - s.1) * sy;
    assert(s.0 == cx + sx ==> nrx == rx - 1) by (nonlinear_arith)
        requires
            rx == (ex - cx) * sx,
            nrx == (ex - s.0) * sx,
            sx == 1 || sx == -1,
    ;
    assert(s.0 == cx ==> nrx == rx);
    assert(s.1 == cy + sy ==> nry == ry - 1) by (nonlinear_arith)
        requires
            ry == (ey - cy) * sy,
            nry == (ey - s.1) * sy,
            sy == 1 || sy == -1,
    ;
    assert(s.1 == cy ==> nry == ry);
    let ndd = nrx * dy - nry * dx;
    // the error update matches the closed form over the new remainders
    assert(s.2 == dx - dy + ndd) by (nonlinear_arith)
        requires
            err == dx - dy + rx * dy - ry * dx,
            ndd == nrx * dy - nry * dx,
            s.2 == err - (if 2 * err > -dy {
                dy as int
            } else {
                0
            }) + (if 2 * err < dx {
                dx as int
            } else {
                0
            }),
            (2 * err > -dy ==> nrx == rx - 1) && (!(2 * err > -dy) ==> nrx == rx),
            (2 * err < dx ==> nry == ry - 1) && (!(2 * err < dx) ==> nry == ry),
    ;
    // the deviation bound is preserved
    if dx > dy {
        assert(-dx <= 2 * ndd <= dx) by (nonlinear_arith)
            requires
                dd == rx * dy - ry * dx,
                ndd == nrx * dy - nry * dx,
                -dx <= 2 * dd <= dx,
                dx > dy >= 0,
                nrx == rx - 1,
                2 * dx - 2 * dy + 2 * dd < dx ==> nry == ry - 1,
                !(2 * dx - 2 * dy + 2 * dd < dx) ==> nry == ry,
        ;
    } else if dy > dx {
        assert(-dy <= 2 * ndd <= dy) by (nonlinear_arith)
            requires
                dd == rx * dy - ry * dx,
                ndd == nrx * dy - nry * dx,
                -dy <= 2 * dd <= dy,
                dy > dx >= 0,
                nry == ry - 1,
                2 * dx - 2 * dy + 2 * dd > -dy ==> nrx == rx - 1,
                !(2 * dx - 2 * dy + 2 * dd > -dy) ==> nrx == rx,
        ;
    } else {
        assert(ndd == 0) by (nonlinear_arith)
            requires
                ndd == nrx * dy - nry * dx,
                nrx == nry,
                dx == dy,
        ;
    }
    // remaining distances, expressed as absolute values
    assert(abs_i(ex - cx) == rx && abs_i(ex - s.0) == nrx) by (nonlinear_arith)
        requires
            rx == (ex - cx) * sx,
            nrx == (ex - s.0) * sx,
            sx == 1 || sx == -1,
            rx >= 0,
            nrx >= 0,
    ;
    assert(abs_i(ey - cy) == ry && abs_i(ey - s.1) == nry) by (nonlinear_arith)
        requires
            ry == (ey - cy) * sy,
            nry == (ey - s.1) * sy,
            sy == 1 || sy == -1,
            ry >= 0,
            nry >= 0,
    ;
    // the dominant remaining distance never falls below the other
    if dx >= dy {
        assert(ry <= rx && nry <= nrx) by (nonlinear_arith)
            requires
                dx >= dy >= 0,
                dx >= 1,
                -dx <= 2 * (rx * dy - ry * dx) <= dx || rx * dy - ry * dx == 0,
                -dx <= 2 * (nrx * dy - nry * dx) <= dx || nrx * dy - nry * dx == 0,
                rx >= 0,
                ry >= 0,
                nrx >= 0,
                nry >= 0,
        ;
    }
    if dy >= dx {
        assert(rx <= ry && nrx <= nry) by (nonlinear_arith)
            requires
                dy >= dx >= 0,
                dy >= 1,
                -dy <= 2 * (rx * dy - ry * dx) <= dy || rx * dy - ry * dx == 0,
                -dy <= 2 * (nrx * dy - nry * dx) <= dy || nrx * dy - nry * dx == 0,
                rx >= 0,
                ry >= 0,
                nrx >= 0,
                nry >= 0,
        ;
    }
}

impl Line {
    pub fn new(start: Vector, end: Vector) -> (l: Self)
        ensures
            l.start == start,
            l.end == end,
    {
        Line { start, end }
    }

    /// Rasterize the segment with Bresenham's algorithm: exactly the pixels
    /// of `line_set(start, end)` are painted red (clipped to the canvas),
    /// and every other cell keeps its color.
    pub fn draw(&self, screen: &mut Vec<u8>)
        requires
            old(screen).len() == SCREEN_LEN,
        ensures
            final(screen).len() == SCREEN_LEN,
            forall|x: int, y: int|
                in_canvas(x, y) ==> cell_color(final(screen)@, x, y) == (if line_set(
                    self.start.x as int,
                    self.start.y as int,
                    self.end.x as int,
                    self.end.y as int,
                ).contains((x, y)) {
                    red()
                } else {
                    cell_color(old(screen)@, x, y)
                }),
    {
        let ghost ax = self.start.x as int;
        let ghost ay = self.start.y as int;
        let ghost bx = self.end.x as int;
        let ghost by = self.end.y as int;
        let ghost screen0 = screen@;
        let ghost full = line_trace(ax, ay, bx, by);
        let ex: i64 = self.end.x as i64;
        let ey: i64 = self.end.y as i64;
        let mut cx: i64 = self.start.x as i64;
        let mut cy: i64 = self.start.y as i64;
        let dx: i64 = if ex >= cx {
            ex - cx
        } else {
            cx - ex
        };
        let dy: i64 = if ey >= cy {
            ey - cy
        } else {
            cy - ey
        };
        let sx: i64 = if self.start.x < self.end.x {
            1
        } else {
            -1
        };
        let sy: i64 = if self.start.y < self.end.y {
            1
        } else {
            -1
        };
        let mut err: i64 = dx - dy;
        let ghost mut prefix: Seq<(int, int)> = Seq::empty();
        proof {
            assert((bx - ax) * (sx as int) == dx as int) by {
                if ax < bx {
                    assert((bx - ax) * 1 == bx - ax);
                } else {
                    assert((bx - ax) * -1 == ax - bx);
                }
            }
            assert((by - ay) * (sy as int) == dy as int) by {
                if ay < by {
                    assert((by - ay) * 1 == by - ay);
                } else {
                    assert((by - ay) * -1 == ay - by);
                }
            }
            assert((dx as int) * (dy as int) - (dy as int) * (dx as int) == 0) by (nonlinear_arith);
            assert(line_inv(ax, ay, bx, by, dx as int, dy as int, sx as int, sy as int, err as int));
            assert(full == Seq::empty() + line_trace_rec(
                cx as int,
                cy as int,
                ex as int,
                ey as int,
                dx as int,
                dy as int,
                sx as int,
                sy as int,
                err as int,
            )) by {
                assert(Seq::empty() + full =~= full);
            }
        }
        loop
            invariant_except_break
                screen.len() == SCREEN_LEN,
                0 <= dx <= 0x1_0000_0000 && 0 <= dy <= 0x1_0000_0000,
                ex == bx && ey == by,
                -0x8000_0000 <= cx < 0x8000_0000 && -0x8000_0000 <= cy < 0x8000_0000,
                -0x8000_0000 <= ex < 0x8000_0000 && -0x8000_0000 <= ey < 0x8000_0000,
                -0x8000_0000 <= ax < 0x8000_0000 && -0x8000_0000 <= ay < 0x8000_0000,
                (bx - ax) * (sx as int) == dx as int && (by - ay) * (sy as int) == dy as int,
                line_inv(cx as int, cy as int, ex as int, ey as int, dx as int, dy as int, sx as int, sy as int, err as int),
                full == prefix + line_trace_rec(
                    cx as int,
                    cy as int,
                    ex as int,
                    ey as int,
                    dx as int,
                    dy as int,
                    sx as int,
                    sy as int,
                    err as int,
                ),
                forall|x: int, y: int|
                    in_canvas(x, y) ==> cell_color(screen@, x, y) == (if prefix.to_set().contains(
                        (x, y),
                    ) {
                        red()
                    } else {
                        cell_color(screen0, x, y)
                    }),
            ensures
                screen.len() == SCREEN_LEN,
                forall|x: int, y: int|
                    in_canvas(x, y) ==> cell_color(screen@, x, y) == (if full.to_set().contains(
                        (x, y),
                    ) {
                        red()
                    } else {
                        cell_color(screen0, x, y)
                    }),
            decreases abs_i(ex as int - cx as int) + abs_i(ey as int - cy as int),
        {
            let ghost pre = screen@;
            let ghost q = (cx as int, cy as int);
            write_cell(screen, cx, cy, Color::new(255, 0, 0, 255));
            proof {
                lemma_to_set_push(prefix, q);
                assert forall|x: int, y: int| in_canvas(x, y) implies cell_color(screen@, x, y)
                    == (if prefix.to_set().insert(q).contains((x, y)) {
                    red()
                } else {
                    cell_color(screen0, x, y)
                }) by {
                    lemma_write_cell(pre, q.0, q.1, red(), x, y);
                }
            }
            if cx == ex && cy == ey {
                proof {
                    assert(line_trace_rec(
                        cx as int,
                        cy as int,
                        ex as int,
                        ey as int,
                        dx as int,
                        dy as int,
                        sx as int,
                        sy as int,
                        err as int,
                    ) == seq![q]);
                    assert(full.to_set() == prefix.to_set().insert(q));
                }
                break;
            }
            proof {
                lemma_line_step(
                    cx as int,
                    cy as int,
                    ex as int,
                    ey as int,
                    dx as int,
                    dy as int,
                    sx as int,
                    sy as int,
                    err as int,
                );
                let s = line_step(
                    cx as int,
                    cy as int,
                    dx as int,
                    dy as int,
                    sx as int,
                    sy as int,
                    err as int,
                );
                let t2 = line_trace_rec(
                    s.0,
                    s.1,
                    ex as int,
                    ey as int,
                    dx as int,
                    dy as int,
                    sx as int,
                    sy as int,
                    s.2,
                );
                assert(line_trace_rec(
                    cx as int,
                    cy as int,
                    ex as int,
                    ey as int,
                    dx as int,
                    dy as int,
                    sx as int,
                    sy as int,
                    err as int,
                ) == seq![q] + t2);
                assert(full =~= (prefix + seq![q]) + t2) by {
                    assert(prefix + (seq![q] + t2) =~= (prefix + seq![q]) + t2);
                }
                assert(-0x8000_0000 <= s.0 < 0x8000_0000) by (nonlinear_arith)
                    requires
                        (ex as int - s.0) * (sx as int) >= 0,
                        (ex as int - s.0) * (sx as int) <= dx as int,
                        (bx - ax) * (sx as int) == dx as int,
                        ex as int == bx,
                        sx as int == 1 || sx as int == -1,
                        (ex as int) + 0x8000_0000 >= 0 && (ex as int) < 0x8000_0000,
                        ax + 0x8000_0000 >= 0 && ax < 0x8000_0000,
                ;
                assert(-0x8000_0000 <= s.1 < 0x8000_0000) by (nonlinear_arith)
                    requires
                        (ey as int - s.1) * (sy as int) >= 0,
                        (ey as int - s.1) * (sy as int) <= dy as int,
                        (by - ay) * (sy as int) == dy as int,
                        ey as int == by,
                        sy as int == 1 || sy as int == -1,
                        (ey as int) + 0x8000_0000 >= 0 && (ey as int) < 0x8000_0000,
                        ay + 0x8000_0000 >= 0 && ay < 0x8000_0000,
                ;
                prefix = prefix + seq![q];
            }
            let e2: i64 = 2 * err;
            if e2 > -dy {
                err = err - dy;
                cx = cx + sx;
            }
            if e2 < dx {
                err = err + dx;
                cy = cy + sy;
            }
        }
    }

    /// Rubber-band the segment: the end is rewritten to the pointer.
    pub fn endpoint(&mut self, mouse: Vector)
        ensures
            final(self).start == old(self).start,
            final(self).end == mouse,
    {
        self.end = mouse;
    }
}

/// What Bresenham's loop visits from any well-formed state: it starts at the
/// current pixel, ends exactly at the endpoint, steps to an adjacent pixel
/// each time, advances the dominant axis by one unit step per pixel, and its
/// length is the dominant remaining distance plus one.
proof fn lemma_line_trace_rec(
    cx: int,
    cy: int,
    ex: int,
    ey: int,
    dx: int,
    dy: int,
    sx: int,
    sy: int,
    err: int,
)
    requires
        line_inv(cx, cy, ex, ey, dx, dy, sx, sy, err),
    ensures
        ({
            let t = line_trace_rec(cx, cy, ex, ey, dx, dy, sx, sy, err);
            &&& t.len() == max_i(abs_i(ex - cx), abs_i(ey - cy)) + 1
            &&& t[0] == (cx, cy)
            &&& t.last() == (ex, ey)
            &&& forall|i: int| #![trigger t[i]]
                0 <= i < t.len() - 1 ==> adjacent(t[i], t[i + 1])
            &&& forall|i: int| #![trigger t[i]]
                0 <= i < t.len() ==> {
                    &&& (dx >= dy ==> t[i].0 == cx + i * sx)
                    &&& (dy >= dx ==> t[i].1 == cy + i * sy)
                    &&& (dx == 0 ==> t[i].0 == cx)
                    &&& (dy == 0 ==> t[i].1 == cy)
                }
        }),
    decreases abs_i(ex - cx) + abs_i(ey - cy),
{
    let t = line_trace_rec(cx, cy, ex, ey, dx, dy, sx, sy, err);
    let rx = (ex - cx) * sx;
    let ry = (ey - cy) * sy;
    assert(abs_i(ex - cx) == rx && abs_i(ey - cy) == ry) by (nonlinear_arith)
        requires
            rx == (ex - cx) * sx,
            ry == (ey - cy) * sy,
            sx == 1 || sx == -1,
            sy == 1 || sy == -1,
            rx >= 0,
            ry >= 0,
            abs_i(ex - cx) == if ex - cx >= 0 { ex - cx } else { cx - ex },
            abs_i(ey - cy) == if ey - cy >= 0 { ey - cy } else { cy - ey },
    ;
    if cx == ex && cy == ey {
        assert(t =~= seq![(cx, cy)]);
    } else {
        lemma_line_step(cx, cy, ex, ey, dx, dy, sx, sy, err);
        let s = line_step(cx, cy, dx, dy, sx, sy, err);
        let t2 = line_trace_rec(s.0, s.1, ex, ey, dx, dy, sx, sy, s.2);
        lemma_line_trace_rec(s.0, s.1, ex, ey, dx, dy, sx, sy, s.2);
        assert(t == seq![(cx, cy)] + t2);
        assert(t.len() == 1 + t2.len());
        assert(max_i(abs_i(ex - s.0), abs_i(ey - s.1)) == max_i(abs_i(ex - cx), abs_i(ey - cy))
            - 1);
        assert(t.last() == t2.last());
        assert forall|i: int| #![trigger t[i]] 0 <= i < t.len() implies {
            &&& (dx >= dy ==> t[i].0 == cx + i * sx)
            &&& (dy >= dx ==> t[i].1 == cy + i * sy)
            &&& (dx == 0 ==> t[i].0 == cx)
            &&& (dy == 0 ==> t[i].1 == cy)
        } by {
            if i == 0 {
                assert(t[0] == (cx, cy));
            } else {
                assert(t[i] == t2[i - 1]);
                if dx >= dy {
                    assert(t2[i - 1].0 == s.0 + (i - 1) * sx);
                    assert(s.0 + (i - 1) * sx == cx + i * sx) by (nonlinear_arith)
                        requires
                            s.0 == cx + sx,
                            sx == 1 || sx == -1,
                    ;
                }
                if dy >= dx {
                    assert(t2[i - 1].1 == s.1 + (i - 1) * sy);
                    assert(s.1 + (i - 1) * sy == cy + i * sy) by (nonlinear_arith)
                        requires
                            s.1 == cy + sy,
                            sy == 1 || sy == -1,
                    ;
                }
            }
        }
        assert forall|i: int| #![trigger t[i]] 0 <= i < t.len() - 1 implies adjacent(
            t[i],
            t[i + 1],
        ) by {
            if i == 0 {
                assert(t[0] == (cx, cy) && t[1] == t2[0] && t2[0] == (s.0, s.1));
            } else {
                assert(t[i] == t2[i - 1] && t[i + 1] == t2[i]);
                assert(adjacent(t2[i - 1], t2[i - 1 + 1]));
            }
        }
    }
}

/// The drawing order of a line: its first and last pixels are the endpoints,
/// its length is the dominant distance plus one, and along each axis it
/// either steps uniformly toward the endpoint or stays put.
proof fn lemma_line_trace_props(ax: int, ay: int, bx: int, by: int)
    ensures
        ({
            let t = line_trace(ax, ay, bx, by);
            &&& t.len() == max_i(abs_i(bx - ax), abs_i(by - ay)) + 1
            &&& t[0] == (ax, ay)
            &&& t.last() == (bx, by)
            &&& forall|i: int| #![trigger t[i]]
                0 <= i < t.len() - 1 ==> adjacent(t[i], t[i + 1])
            &&& forall|i: int| #![trigger t[i]]
                0 <= i < t.len() ==> {
                    &&& (abs_i(bx - ax) >= abs_i(by - ay) ==> t[i].0 == ax + i * step_of(ax, bx))
                    &&& (abs_i(by - ay) >= abs_i(bx - ax) ==> t[i].1 == ay + i * step_of(ay, by))
                    &&& (ax == bx ==> t[i].0 == ax)
                    &&& (ay == by ==> t[i].1 == ay)
                }
        }),
{
    let dx = abs_i(bx - ax);
    let dy = abs_i(by - ay);
    let sx = step_of(ax, bx);
    let sy = step_of(ay, by);
    let err = dx - dy;
    assert((bx - ax) * sx == dx) by {
        if ax < bx {
            assert((bx - ax) * 1 == bx - ax);
        } else {
            assert((bx - ax) * -1 == ax - bx);
        }
    }
    assert((by - ay) * sy == dy) by {
        if ay < by {
            assert((by - ay) * 1 == by - ay);
        } else {
            assert((by - ay) * -1 == ay - by);
        }
    }
    assert(dx * dy - dy * dx == 0);
    assert(line_inv(ax, ay, bx, by, dx, dy, sx, sy, err));
    lemma_line_trace_rec(ax, ay, bx, by, dx, dy, sx, sy, err);
}

/// The pixel set of a rasterized line contains both endpoints, is
/// 8-connected (consecutive pixels in drawing order are adjacent, and the
/// drawing order starts and ends at the endpoints), and holds exactly
/// max(|bx - ax|, |by - ay|) + 1 pixels.
pub proof fn lemma_line_points(ax: int, ay: int, bx: int, by: int)
    ensures
        ({
            let t = line_trace(ax, ay, bx, by);
            &&& line_set(ax, ay, bx, by).contains((ax, ay))
            &&& line_set(ax, ay, bx, by).contains((bx, by))
            &&& line_set(ax, ay, bx, by).finite()
            &&& line_set(ax, ay, bx, by).len() == max_i(abs_i(bx - ax), abs_i(by - ay)) + 1
            &&& t.len() == max_i(abs_i(bx - ax), abs_i(by - ay)) + 1
            &&& t[0] == (ax, ay)
            &&& t.last() == (bx, by)
            &&& t.to_set() == line_set(ax, ay, bx, by)
            &&& forall|i: int| #![trigger t[i]]
                0 <= i < t.len() - 1 ==> adjacent(t[i], t[i + 1])
        }),
{
    let dx = abs_i(bx - ax);
    let dy = abs_i(by - ay);
    let sx = step_of(ax, bx);
    let sy = step_of(ay, by);
    lemma_line_trace_props(ax, ay, bx, by);
    let t = line_trace(ax, ay, bx, by);
    assert forall|i: int, j: int|
        0 <= i < t.len() && 0 <= j < t.len() && i != j implies t[i] != t[j] by {
        if dx >= dy {
            assert(t[i].0 == ax + i * sx && t[j].0 == ax + j * sx);
            assert(i * sx != j * sx) by (nonlinear_arith)
                requires
                    i != j,
                    sx == 1 || sx == -1,
            ;
        } else {
            assert(t[i].1 == ay + i * sy && t[j].1 == ay + j * sy);
            assert(i * sy != j * sy) by (nonlinear_arith)
                requires
                    i != j,
                    sy == 1 || sy == -1,
            ;
        }
    }
    assert(t.no_duplicates());
    t.unique_seq_to_set();
    assert(t[0] == (ax, ay));
    assert(line_set(ax, ay, bx, by).contains((ax, ay)));
    assert(t.last() == (bx, by));
    assert(line_set(ax, ay, bx, by).contains((bx, by)));
}

/// For the straight classes, the pixel at position i of the segment drawn
/// one way is the pixel at the mirrored position of the segment drawn the
/// other way.
#[verifier::rlimit(100)]
proof fn lemma_line_rev_elem(ax: int, ay: int, bx: int, by: int, i: int)
    requires
        ax == bx || ay == by || abs_i(bx - ax) == abs_i(by - ay),
        0 <= i <= max_i(abs_i(bx - ax), abs_i(by - ay)),
    ensures
        ({
            let t = line_trace(ax, ay, bx, by);
            let r = line_trace(bx, by, ax, ay);
            let m = max_i(abs_i(bx - ax), abs_i(by - ay));
            r[m - i] == t[i]
        }),
{
    lemma_line_trace_props(ax, ay, bx, by);
    lemma_line_trace_props(bx, by, ax, ay);
    let t = line_trace(ax, ay, bx, by);
    let r = line_trace(bx, by, ax, ay);
    let m = max_i(abs_i(bx - ax), abs_i(by - ay));
    let dx = abs_i(bx - ax);
    let dy = abs_i(by - ay);
    assert(max_i(abs_i(ax - bx), abs_i(ay - by)) == m);
    let sxf = step_of(ax, bx);
    let syf = step_of(ay, by);
    let sxb = step_of(bx, ax);
    let syb = step_of(by, ay);
    if dx >= dy {
        assert(t[i].0 == ax + i * sxf);
        assert(t[m].0 == ax + m * sxf && t[m] == (bx, by));
        assert(r[m - i].0 == bx + (m - i) * sxb);
        if ax == bx {
            // dx >= dy and dx == 0: both endpoints coincide
            assert(m == 0 && i == 0);
        } else {
            assert(sxb == -sxf);
            assert(bx + (m - i) * sxb == ax + i * sxf) by (nonlinear_arith)
                requires
                    bx == ax + m * sxf,
                    sxb == -sxf,
                    sxf == 1 || sxf == -1,
            ;
        }
    }
    if dy >= dx {
        assert(t[i].1 == ay + i * syf);
        assert(t[m].1 == ay + m * syf && t[m] == (bx, by));
        assert(r[m - i].1 == by + (m - i) * syb);
        if ay == by {
            // dy >= dx and dy == 0: both endpoints coincide
            assert(m == 0 && i == 0);
        } else {
            assert(syb == -syf);
            assert(by + (m - i) * syb == ay + i * syf) by (nonlinear_arith)
                requires
                    by == ay + m * syf,
                    syb == -syf,
                    syf == 1 || syf == -1,
            ;
        }
    }
}

/// One direction of endpoint symmetry for the straight classes: every pixel
/// of the segment drawn one way is covered by the segment drawn the other
/// way.
#[verifier::rlimit(100)]
proof fn lemma_line_reverse_subset(ax: int, ay: int, bx: int, by: int)
    requires
        ax == bx || ay == by || abs_i(bx - ax) == abs_i(by - ay),
    ensures
        forall|p: (int, int)|
            line_set(ax, ay, bx, by).contains(p) ==> #[trigger] line_set(
                bx,
                by,
                ax,
                ay,
            ).contains(p),
{
    lemma_line_points(ax, ay, bx, by);
    lemma_line_points(bx, by, ax, ay);
    let t = line_trace(ax, ay, bx, by);
    let r = line_trace(bx, by, ax, ay);
    let m = max_i(abs_i(bx - ax), abs_i(by - ay));
    assert(max_i(abs_i(ax - bx), abs_i(ay - by)) == m);
    assert forall|p: (int, int)| line_set(ax, ay, bx, by).contains(p) implies #[trigger] line_set(
        bx,
        by,
        ax,
        ay,
    ).contains(p) by {
        assert(t.to_set().contains(p));
        assert(t.contains(p));
        let i = choose|i: int| 0 <= i < t.len() && t[i] == p;
        lemma_line_rev_elem(ax, ay, bx, by, i);
        assert(r[m - i] == p);
        assert(r.contains(p));
        assert(r.to_set().contains(p));
    }
}

/// Endpoint symmetry: drawing the segment from either end covers the same
/// pixel set, for horizontal, vertical and exactly diagonal segments. (For
/// other slopes the error term breaks ties differently in the two
/// directions, so the sets can differ.)
pub proof fn lemma_line_reverse(ax: int, ay: int, bx: int, by: int)
    requires
        ax == bx || ay == by || abs_i(bx - ax) == abs_i(by - ay),
    ensures
        line_set(ax, ay, bx, by) == line_set(bx, by, ax, ay),
{
    lemma_line_reverse_subset(ax, ay, bx, by);
    lemma_line_reverse_subset(bx, by, ax, ay);
    assert(line_set(ax, ay, bx, by) =~= line_set(bx, by, ax, ay));
}

} // verus!
