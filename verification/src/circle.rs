//! Circles rasterized with the midpoint algorithm: one octant is traced with
//! an integer decision variable and every pixel is mirrored to the other
//! seven octants.

use vstd::prelude::*;
use crate::{Color, Vector, HEIGHT, WIDTH};
use crate::canvas::{cell_color, in_canvas, lemma_write_cell, red, write_cell, SCREEN_LEN};

verus! {

/// A circle; `radius` is rewritten while the figure is dragged.
pub struct Circle {
    pub position: Vector,
    pub radius: i32,
}

/// The square of a mathematical integer.
pub open spec fn sq(v: int) -> int {
    v * v
}

/// The octant offsets the midpoint loop visits, current offset first: x runs
/// outward while x <= y, and y steps inward whenever the decision variable d
/// is nonnegative.
pub open spec fn circ_trace(x: int, y: int, d: int) -> Seq<(int, int)>
    decreases (if x <= y {
        y - x + 1
    } else {
        0
    }),
{
    if x <= y {
        seq![(x, y)] + (if d < 0 {
            circ_trace(x + 1, y, d + 4 * x + 6)
        } else {
            circ_trace(x + 1, y - 1, d + 4 * (x - y) + 10)
        })
    } else {
        Seq::empty()
    }
}

/// Whether p is one of the eight reflections of the octant offset q around
/// the center (cx, cy): all four sign choices, with and without swapping the
/// two coordinates.
pub open spec fn reflects8(cx: int, cy: int, q: (int, int), p: (int, int)) -> bool {
    ||| p == (cx + q.0, cy + q.1)
    ||| p == (cx - q.0, cy + q.1)
    ||| p == (cx + q.0, cy - q.1)
    ||| p == (cx - q.0, cy - q.1)
    ||| p == (cx + q.1, cy + q.0)
    ||| p == (cx - q.1, cy + q.0)
    ||| p == (cx + q.1, cy - q.0)
    ||| p == (cx - q.1, cy - q.0)
}

/// The pixels covered when every offset in qs is written in all eight
/// reflections around (cx, cy).
pub open spec fn refl_set(cx: int, cy: int, qs: Seq<(int, int)>) -> Set<(int, int)> {
    Set::new(|p: (int, int)| exists|q: (int, int)| #[trigger] qs.contains(q) && reflects8(cx, cy, q, p))
}

/// The pixel set of the circle of radius r centered at (cx, cy).
pub open spec fn circle_set(cx: int, cy: int, r: int) -> Set<(int, int)> {
    refl_set(cx, cy, circ_trace(0, r, 3 - 2 * r))
}

/// The loop invariant of the midpoint circle: the decision variable d equals
/// its closed form over (x, y), and while the octant is being traced the
/// squared distance of (x, y) from the center stays within a one-pixel band
/// of the squared radius.
pub open spec fn circ_inv(x: int, y: int, d: int, r: int) -> bool {
    &&& 0 <= x
    &&& y <= r
    &&& 0 <= r
    &&& d == 2 * x * x + 2 * y * y + 4 * x - 2 * y + 3 - 2 * r * r
    &&& (x <= y ==> -2 * y <= x * x + y * y - r * r <= y + 1)
}

/// One iteration of the midpoint loop preserves the invariant, keeps the
/// decision variable small, and peels one offset off the trace.
proof fn lemma_circ_step(x: int, y: int, d: int, r: int)
    requires
        circ_inv(x, y, d, r),
        x <= y,
    ensures
        d < 0 ==> circ_inv(x + 1, y, d + 4 * x + 6, r),
        d >= 0 ==> circ_inv(x + 1, y - 1, d + 4 * (x - y) + 10, r),
        d < 0 ==> -12 * r - 20 <= d + 4 * x + 6 <= 12 * r + 20,
        d >= 0 ==> -12 * r - 20 <= d + 4 * (x - y) + 10 <= 12 * r + 20,
        circ_trace(x, y, d) == seq![(x, y)] + (if d < 0 {
            circ_trace(x + 1, y, d + 4 * x + 6)
        } else {
            circ_trace(x + 1, y - 1, d + 4 * (x - y) + 10)
        }),
        0 <= x && x <= y && y <= r,
        -2 * y <= x * x + y * y - r * r <= y + 1,
{
    let f = x * x + y * y - r * r;
    assert(d == 2 * f + 4 * x - 2 * y + 3) by (nonlinear_arith)
        requires
            d == 2 * x * x + 2 * y * y + 4 * x - 2 * y + 3 - 2 * r * r,
            f == x * x + y * y - r * r,
    ;
    if d < 0 {
        let f1 = (x + 1) * (x + 1) + y * y - r * r;
        assert(f1 == f + 2 * x + 1) by (nonlinear_arith)
            requires
                f == x * x + y * y - r * r,
                f1 == (x + 1) * (x + 1) + y * y - r * r,
        ;
        assert(d + 4 * x + 6 == 2 * (x + 1) * (x + 1) + 2 * y * y + 4 * (x + 1) - 2 * y + 3 - 2
            * r * r) by (nonlinear_arith)
            requires
                d == 2 * x * x + 2 * y * y + 4 * x - 2 * y + 3 - 2 * r * r,
        ;
        // d < 0 gives 2f <= 2y - 4x - 4, so f1 stays below the band's top
        assert(x + 1 <= y ==> -2 * y <= f1 <= y + 1);
    } else {
        let f2 = (x + 1) * (x + 1) + (y - 1) * (y - 1) - r * r;
        assert(f2 == f + 2 * x + 1 - 2 * y + 1) by (nonlinear_arith)
            requires
                f == x * x + y * y - r * r,
                f2 == (x + 1) * (x + 1) + (y - 1) * (y - 1) - r * r,
        ;
        assert(d + 4 * (x - y) + 10 == 2 * (x + 1) * (x + 1) + 2 * (y - 1) * (y - 1) + 4 * (x + 1)
            - 2 * (y - 1) + 3 - 2 * r * r) by (nonlinear_arith)
            requires
                d == 2 * x * x + 2 * y * y + 4 * x - 2 * y + 3 - 2 * r * r,
        ;
        // d >= 0 gives 2f >= 2y - 4x - 2, so f2 stays above the band's bottom
        assert(x + 1 <= y - 1 ==> -2 * (y - 1) <= f2 <= (y - 1) + 1);
    }
}

/// Every offset in the octant trace lies in the first octant within the
/// radius, and its squared distance from the center is within the one-pixel
/// band around the squared radius.
proof fn lemma_circ_trace(x: int, y: int, d: int, r: int)
    requires
        circ_inv(x, y, d, r),
    ensures
        forall|q: (int, int)| #[trigger]
            circ_trace(x, y, d).contains(q) ==> {
                &&& 0 <= q.0 <= q.1 <= r
                &&& -2 * q.1 <= sq(q.0) + sq(q.1) - sq(r) <= q.1 + 1
            },
    decreases (if x <= y {
        y - x + 1
    } else {
        0
    }),
{
    if x <= y {
        lemma_circ_step(x, y, d, r);
        let rest = if d < 0 {
            circ_trace(x + 1, y, d + 4 * x + 6)
        } else {
            circ_trace(x + 1, y - 1, d + 4 * (x - y) + 10)
        };
        if d < 0 {
            lemma_circ_trace(x + 1, y, d + 4 * x + 6, r);
        } else {
            lemma_circ_trace(x + 1, y - 1, d + 4 * (x - y) + 10, r);
        }
        assert forall|q: (int, int)| #[trigger]
            circ_trace(x, y, d).contains(q) implies {
            &&& 0 <= q.0 <= q.1 <= r
            &&& -2 * q.1 <= sq(q.0) + sq(q.1) - sq(r) <= q.1 + 1
        } by {
            let t = circ_trace(x, y, d);
            let i = choose|i: int| 0 <= i < t.len() && t[i] == q;
            if i == 0 {
                assert(q == (x, y));
                assert(sq(x) + sq(y) - sq(r) == x * x + y * y - r * r);
            } else {
                assert(rest[i - 1] == q);
                assert(rest.contains(q));
            }
        }
    }
}

/// Appending one offset to the drawing order extends the covered pixels by
/// exactly that offset's eight reflections.
proof fn lemma_refl_set_push(cx: int, cy: int, qs: Seq<(int, int)>, q: (int, int))
    ensures
        forall|p: (int, int)|
            #[trigger] refl_set(cx, cy, qs + seq![q]).contains(p) <==> (refl_set(
                cx,
                cy,
                qs,
            ).contains(p) || reflects8(cx, cy, q, p)),
{
    assert forall|p: (int, int)| #[trigger]
        refl_set(cx, cy, qs + seq![q]).contains(p) implies (refl_set(cx, cy, qs).contains(p)
        || reflects8(cx, cy, q, p)) by {
        let w = choose|w: (int, int)| #[trigger] (qs + seq![q]).contains(w) && reflects8(cx, cy, w, p);
        let i = choose|i: int| 0 <= i < (qs + seq![q]).len() && (qs + seq![q])[i] == w;
        if i < qs.len() {
            assert(qs[i] == w);
            assert(qs.contains(w));
        } else {
            assert(w == q);
        }
    }
    assert forall|p: (int, int)| (refl_set(cx, cy, qs).contains(p) || reflects8(
        cx,
        cy,
        q,
        p,
    )) implies #[trigger] refl_set(cx, cy, qs + seq![q]).contains(p) by {
        if refl_set(cx, cy, qs).contains(p) {
            let w = choose|w: (int, int)| #[trigger] qs.contains(w) && reflects8(cx, cy, w, p);
            let i = choose|i: int| 0 <= i < qs.len() && qs[i] == w;
            assert((qs + seq![q])[i] == w);
            assert((qs + seq![q]).contains(w));
        } else {
            assert((qs + seq![q])[qs.len() as int] == q);
            assert((qs + seq![q]).contains(q));
        }
    }
}

/// Every pixel of a circle lies at a distance from the center that rounds to
/// the radius give or take one: in integer form, 4 times its squared
/// distance lies below (2r + 3)^2, and at or above (2r - 3)^2 once r >= 2.
pub proof fn lemma_circle_ring(cx: int, cy: int, r: int, p: (int, int))
    requires
        r >= 0,
        circle_set(cx, cy, r).contains(p),
    ensures
        4 * (sq(p.0 - cx) + sq(p.1 - cy)) < sq(2 * r + 3),
        r >= 2 ==> 4 * (sq(p.0 - cx) + sq(p.1 - cy)) >= sq(2 * r - 3),
{
    let t = circ_trace(0, r, 3 - 2 * r);
    let q = choose|q: (int, int)| #[trigger] t.contains(q) && reflects8(cx, cy, q, p);
    assert(circ_inv(0, r, 3 - 2 * r, r)) by (nonlinear_arith)
        requires
            r >= 0,
    ;
    lemma_circ_trace(0, r, 3 - 2 * r, r);
    let n = sq(q.0) + sq(q.1);
    assert(sq(p.0 - cx) + sq(p.1 - cy) == n) by (nonlinear_arith)
        requires
            reflects8(cx, cy, q, p),
            n == q.0 * q.0 + q.1 * q.1,
            sq(p.0 - cx) == (p.0 - cx) * (p.0 - cx),
            sq(p.1 - cy) == (p.1 - cy) * (p.1 - cy),
    ;
    assert(sq(2 * r + 3) == 4 * sq(r) + 12 * r + 9) by (nonlinear_arith)
        requires
            sq(2 * r + 3) == (2 * r + 3) * (2 * r + 3),
            sq(r) == r * r,
    ;
    assert(sq(2 * r - 3) == 4 * sq(r) - 12 * r + 9) by (nonlinear_arith)
        requires
            sq(2 * r - 3) == (2 * r - 3) * (2 * r - 3),
            sq(r) == r * r,
    ;
    // the band gives the upper bound for every radius
    assert(4 * n <= 4 * sq(r) + 4 * r + 4);
    assert(4 * n < sq(2 * r + 3));
    // and the lower bound once r >= 3
    if r >= 3 {
        assert(4 * n >= 4 * sq(r) - 8 * r);
        assert(4 * n >= sq(2 * r - 3));
    } else if r == 2 {
        // trace is [(0, 2), (1, 2)]: check both offsets directly
        assert(circ_trace(0, 2, -1) == seq![(0int, 2int)] + circ_trace(1, 2, 5));
        assert(circ_trace(1, 2, 5) == seq![(1int, 2int)] + circ_trace(2, 1, 11));
        assert(circ_trace(2, 1, 11) =~= Seq::<(int, int)>::empty());
        let i = choose|i: int| 0 <= i < t.len() && t[i] == q;
        assert(q == (0int, 2int) || q == (1int, 2int));
        assert(4 * n >= sq(2 * r - 3));
    }
}

/// The pixel set of a circle is symmetric under the eight sign-and-swap
/// transforms of the offset from the center: reflecting a covered pixel in
/// either axis, or swapping its offsets, lands on a covered pixel.
pub proof fn lemma_circle_symmetry(cx: int, cy: int, r: int, p: (int, int))
    requires
        circle_set(cx, cy, r).contains(p),
    ensures
        circle_set(cx, cy, r).contains((2 * cx - p.0, p.1)),
        circle_set(cx, cy, r).contains((p.0, 2 * cy - p.1)),
        circle_set(cx, cy, r).contains((cx + (p.1 - cy), cy + (p.0 - cx))),
{
    let t = circ_trace(0, r, 3 - 2 * r);
    let q = choose|q: (int, int)| #[trigger] t.contains(q) && reflects8(cx, cy, q, p);
    assert(reflects8(cx, cy, q, (2 * cx - p.0, p.1)));
    assert(reflects8(cx, cy, q, (p.0, 2 * cy - p.1)));
    assert(reflects8(cx, cy, q, (cx + (p.1 - cy), cy + (p.0 - cx))));
}

/// Writes the eight reflections of octant offset (qx, qy) around (px, py) in
/// red: exactly the cells among them that lie on the canvas change.
fn write8(screen: &mut Vec<u8>, px: i64, py: i64, qx: i64, qy: i64)
    requires
        old(screen).len() == SCREEN_LEN,
        -0x8000_0000 <= px < 0x8000_0000,
        -0x8000_0000 <= py < 0x8000_0000,
        0 <= qx <= 0x1_0000_0000,
        -0x1_0000_0000 <= qy <= 0x1_0000_0000,
    ensures
        final(screen).len() == SCREEN_LEN,
        forall|x: int, y: int|
            in_canvas(x, y) ==> cell_color(final(screen)@, x, y) == (if reflects8(
                px as int,
                py as int,
                (qx as int, qy as int),
                (x, y),
            ) {
                red()
            } else {
                cell_color(old(screen)@, x, y)
            }),
{
    let ghost s0 = screen@;
    let c = Color::new(255, 0, 0, 255);
    write_cell(screen, px + qx, py + qy, c);
    let ghost s1 = screen@;
    write_cell(screen, px - qx, py + qy, c);
    let ghost s2 = screen@;
    write_cell(screen, px + qx, py - qy, c);
    let ghost s3 = screen@;
    write_cell(screen, px - qx, py - qy, c);
    let ghost s4 = screen@;
    write_cell(screen, px + qy, py + qx, c);
    let ghost s5 = screen@;
    write_cell(screen, px - qy, py + qx, c);
    let ghost s6 = screen@;
    write_cell(screen, px + qy, py - qx, c);
    let ghost s7 = screen@;
    write_cell(screen, px - qy, py - qx, c);
    proof {
        assert forall|x: int, y: int| in_canvas(x, y) implies cell_color(screen@, x, y) == (
        if reflects8(px as int, py as int, (qx as int, qy as int), (x, y)) {
            red()
        } else {
            cell_color(s0, x, y)
        }) by {
            lemma_write_cell(s0, px + qx, py + qy, red(), x, y);
            lemma_write_cell(s1, px - qx, py + qy, red(), x, y);
            lemma_write_cell(s2, px + qx, py - qy, red(), x, y);
            lemma_write_cell(s3, px - qx, py - qy, red(), x, y);
            lemma_write_cell(s4, px + qy, py + qx, red(), x, y);
            lemma_write_cell(s5, px - qy, py + qx, red(), x, y);
            lemma_write_cell(s6, px + qy, py - qx, red(), x, y);
            lemma_write_cell(s7, px - qy, py - qx, red(), x, y);
        }
    }
}

impl Circle {
    pub fn new(position: Vector, radius: i32) -> (c: Self)
        ensures
            c.position == position,
            c.radius == radius,
    {
        Circle { position, radius }
    }

    /// Rasterize the circle boundary with the midpoint algorithm: exactly
    /// the pixels of `circle_set(position, radius)` are painted red (clipped
    /// to the canvas), and every other cell keeps its color.
    pub fn draw(&self, screen: &mut Vec<u8>)
        requires
            old(screen).len() == SCREEN_LEN,
            self.radius >= 0,
        ensures
            final(screen).len() == SCREEN_LEN,
            forall|x: int, y: int|
                in_canvas(x, y) ==> cell_color(final(screen)@, x, y) == (if circle_set(
                    self.position.x as int,
                    self.position.y as int,
                    self.radius as int,
                ).contains((x, y)) {
                    red()
                } else {
                    cell_color(old(screen)@, x, y)
                }),
    {
        let ghost screen0 = screen@;
        let px: i64 = self.position.x as i64;
        let py: i64 = self.position.y as i64;
        let r: i64 = self.radius as i64;
        let ghost full = circ_trace(0, r as int, 3 - 2 * r as int);
        let mut x: i64 = 0;
        let mut y: i64 = r;
        let mut d: i64 = 3 - 2 * r;
        let ghost mut prefix: Seq<(int, int)> = Seq::empty();
        proof {
            assert(circ_inv(0, r as int, 3 - 2 * r as int, r as int)) by (nonlinear_arith)
                requires
                    r as int >= 0,
            ;
            assert(full == Seq::empty() + circ_trace(x as int, y as int, d as int)) by {
                assert(Seq::empty() + full =~= full);
            }
        }
        while x <= y
            invariant
                screen.len() == SCREEN_LEN,
                -0x8000_0000 <= px < 0x8000_0000,
                -0x8000_0000 <= py < 0x8000_0000,
                0 <= r < 0x8000_0000,
                circ_inv(x as int, y as int, d as int, r as int),
                0 <= x as int <= r as int + 1,
                -1 <= y as int <= r as int,
                -12 * r - 20 <= d <= 12 * r + 20,
                full == prefix + circ_trace(x as int, y as int, d as int),
                forall|qx: int, qy: int|
                    in_canvas(qx, qy) ==> cell_color(screen@, qx, qy) == (if refl_set(
                        px as int,
                        py as int,
                        prefix,
                    ).contains((qx, qy)) {
                        red()
                    } else {
                        cell_color(screen0, qx, qy)
                    }),
            decreases (if x <= y {
                y - x + 1
            } else {
                0int
            }),
        {
            let ghost pre = screen@;
            let ghost q = (x as int, y as int);
            proof {
                lemma_circ_step(x as int, y as int, d as int, r as int);
            }
            write8(screen, px, py, x, y);
            proof {
                lemma_refl_set_push(px as int, py as int, prefix, q);
                assert forall|gx: int, gy: int| in_canvas(gx, gy) implies cell_color(
                    screen@,
                    gx,
                    gy,
                ) == (if refl_set(px as int, py as int, prefix + seq![q]).contains((gx, gy)) {
                    red()
                } else {
                    cell_color(screen0, gx, gy)
                }) by {
                    assert(cell_color(screen@, gx, gy) == (if reflects8(
                        px as int,
                        py as int,
                        q,
                        (gx, gy),
                    ) {
                        red()
                    } else {
                        cell_color(pre, gx, gy)
                    }));
                }
                let rest = if (d as int) < 0 {
                    circ_trace(x as int + 1, y as int, d as int + 4 * x as int + 6)
                } else {
                    circ_trace(x as int + 1, y as int - 1, d as int + 4 * (x as int - y as int) + 10)
                };
                assert(full =~= (prefix + seq![q]) + rest) by {
                    assert(prefix + (seq![q] + rest) =~= (prefix + seq![q]) + rest);
                }
                prefix = prefix + seq![q];
            }
            if d < 0 {
                d = d + 4 * x + 6;
            } else {
                d = d + 4 * (x - y) + 10;
                y = y - 1;
            }
            x = x + 1;
        }
        proof {
            assert(circ_trace(x as int, y as int, d as int) =~= Seq::<(int, int)>::empty());
            assert(full =~= prefix);
        }
    }

    /// Resize the circle from a drag: the radius becomes the euclidean
    /// distance from the center to the pointer, rounded to the nearest
    /// integer. Both points are expressed in canvas coordinates.
    pub fn endpoint(&mut self, mouse: Vector)
        requires
            0 <= old(self).position.x < WIDTH as i32,
            0 <= old(self).position.y < HEIGHT as i32,
            0 <= mouse.x < WIDTH as i32,
            0 <= mouse.y < HEIGHT as i32,
        ensures
            final(self).position == old(self).position,
            final(self).radius >= 0,
            is_round_sqrt(
                sq(old(self).position.x - mouse.x) + sq(old(self).position.y - mouse.y),
                final(self).radius as int,
            ),
    {
        let dx: i64 = self.position.x as i64 - mouse.x as i64;
        let dy: i64 = self.position.y as i64 - mouse.y as i64;
        proof {
            assert(0 <= dx * dx <= 640000 && 0 <= dy * dy <= 360000) by (nonlinear_arith)
                requires
                    -800 <= dx <= 800,
                    -600 <= dy <= 600,
            ;
        }
        let n: i64 = dx * dx + dy * dy;
        let mut s: i64 = 0;
        loop
            invariant_except_break
                0 <= s <= 1001,
                s * s <= n,
                0 <= n <= 1000000,
            ensures
                0 <= s <= 1001,
                s * s <= n,
                0 <= n <= 1000000,
                n < (s + 1) * (s + 1),
            decreases n - s,
        {
            proof {
                assert(0 <= (s + 1) * (s + 1) <= 1004004) by (nonlinear_arith)
                    requires
                        0 <= s <= 1001,
                ;
            }
            let t: i64 = (s + 1) * (s + 1);
            if !(t <= n) {
                break;
            }
            proof {
                assert(s + 1 <= 1000) by (nonlinear_arith)
                    requires
                        (s + 1) * (s + 1) <= 1000000,
                        s >= 0,
                ;
                assert(s + 1 <= (s + 1) * (s + 1)) by (nonlinear_arith)
                    requires
                        s >= 0,
                ;
            }
            s = s + 1;
        }
        let r: i64 = if n - s * s > s {
            s + 1
        } else {
            s
        };
        proof {
            assert(s <= 1000) by (nonlinear_arith)
                requires
                    s * s <= 1000000,
                    s >= 0,
            ;
            assert(is_round_sqrt(n as int, r as int)) by (nonlinear_arith)
                requires
                    0 <= s,
                    s * s <= n,
                    n < (s + 1) * (s + 1),
                    r == (if n - s * s > s {
                        s + 1
                    } else {
                        s as int
                    }),
            ;
            assert(n as int == sq(self.position.x - mouse.x) + sq(self.position.y - mouse.y));
        }
        self.radius = r as i32;
    }
}

/// Whether r is the euclidean length sqrt(n) rounded to the nearest integer
/// (ties, which cannot arise for integer n, would round up).
pub open spec fn is_round_sqrt(n: int, r: int) -> bool {
    &&& 0 <= r
    &&& n <= r * r + r
    &&& (r >= 1 ==> r * r - r + 1 <= n)
}

} // verus!
