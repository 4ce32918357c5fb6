//! Ellipses rasterized with the two-region midpoint algorithm: one quadrant
//! is traced in two passes (slope below one, then slope at least one) and
//! every pixel is mirrored across both axes.

use vstd::prelude::*;
use crate::{Color, Vector, HEIGHT, WIDTH};
use crate::canvas::{cell_color, in_canvas, lemma_write_cell, red, write_cell, SCREEN_LEN};
use crate::line::abs_i;

verus! {

/// An ellipse; `size` holds the two semi-axis lengths and is rewritten while
/// the figure is dragged.
pub struct Ellipse {
    pub position: Vector,
    pub size: Vector,
}

/// Largest semi-axis length the integer arithmetic of the rasterizer
/// admits without overflow.
pub const MAX_SEMI_AXIS: i32 = 8192;

/// Region-one trace and final state. The loop runs while the x-direction
/// decision variable dx stays below a*a*(2*y - 1), stepping x outward and y
/// inward when the y-direction decision variable dy turns positive. The
/// result pairs the offsets visited with the state handed to region two.
/// The recursion stops early if a step fails to shrink the loop measure,
/// which never happens for b >= 1, the only way region one can be entered.
pub open spec fn ell_r1(x: int, y: int, dx: int, dy: int, a: int, b: int) -> (
    Seq<(int, int)>,
    (int, int, int, int),
)
    decreases (if a * a * (2 * y - 1) - dx > 0 {
        a * a * (2 * y - 1) - dx
    } else {
        0
    }),
{
    if dx < a * a * (2 * y - 1) {
        let nx = x + 1;
        let ndx = dx + 2 * (b * b);
        let ny = if dy <= 0 {
            y
        } else {
            y - 1
        };
        let ndy = if dy <= 0 {
            dy + (2 * (b * b)) * (nx + 1)
        } else {
            dy + (2 * (b * b)) * (nx + 1) - (2 * (a * a)) * (ny - 1)
        };
        if a * a * (2 * ny - 1) - ndx < a * a * (2 * y - 1) - dx {
            let rest = ell_r1(nx, ny, ndx, ndy, a, b);
            (seq![(x, y)] + rest.0, rest.1)
        } else {
            (seq![(x, y)], (nx, ny, ndx, ndy))
        }
    } else {
        (Seq::empty(), (x, y, dx, dy))
    }
}

/// Region-two trace: y runs down to zero, x stepping outward whenever the
/// decision variable dy is not positive.
pub open spec fn ell_r2(x: int, y: int, dy: int, a: int, b: int) -> Seq<(int, int)>
    decreases (if y >= 0 {
        y + 1
    } else {
        0
    }),
{
    if y >= 0 {
        let ny = y - 1;
        let nx = if dy > 0 {
            x
        } else {
            x + 1
        };
        let ndy = if dy > 0 {
            dy - (2 * (a * a)) * ny
        } else {
            dy + (2 * (b * b)) * nx - (2 * (a * a)) * ny
        };
        seq![(x, y)] + ell_r2(nx, ny, ndy, a, b)
    } else {
        Seq::empty()
    }
}

/// The quadrant offsets of the ellipse with semi-axes a and b, in drawing
/// order. A zero semi-axis degenerates the ellipse to a straight segment of
/// pixels along the other axis (a point when both are zero). Otherwise the
/// two-region midpoint recurrence runs: region one from the apex (0, b),
/// then region two from where region one stopped, with its decision
/// variable recomputed there. (The recomputation truncates (x + 0.5)^2 to
/// x^2, as x is never negative.)
pub open spec fn ellipse_trace(a: int, b: int) -> Seq<(int, int)> {
    if a == 0 {
        Seq::new((b + 1) as nat, |j: int| (0int, j))
    } else if b == 0 {
        Seq::new((a + 1) as nat, |i: int| (i, 0int))
    } else {
        let r1 = ell_r1(
            0,
            b,
            b * b,
            b * b + (a * a) * (b - 1) * (b - 1) - (a * a) * (b * b),
            a,
            b,
        );
        let st = r1.1;
        r1.0 + ell_r2(
            st.0,
            st.1,
            (b * b) * st.0 * st.0 + (a * a) * (st.1 - 1) * (st.1 - 1) - (a * a) * (b * b),
            a,
            b,
        )
    }
}

/// Whether p is one of the four axis reflections of the quadrant offset q
/// around the center (cx, cy).
pub open spec fn reflects4(cx: int, cy: int, q: (int, int), p: (int, int)) -> bool {
    ||| p == (cx + q.0, cy + q.1)
    ||| p == (cx - q.0, cy + q.1)
    ||| p == (cx + q.0, cy - q.1)
    ||| p == (cx - q.0, cy - q.1)
}

/// The pixels covered when every offset in qs is written in all four
/// reflections around (cx, cy).
pub open spec fn refl4_set(cx: int, cy: int, qs: Seq<(int, int)>) -> Set<(int, int)> {
    Set::new(
        |p: (int, int)| exists|q: (int, int)| #[trigger] qs.contains(q) && reflects4(cx, cy, q, p),
    )
}

/// The pixel set of the ellipse with semi-axes a and b centered at (cx, cy).
pub open spec fn ellipse_set(cx: int, cy: int, a: int, b: int) -> Set<(int, int)> {
    refl4_set(cx, cy, ellipse_trace(a, b))
}

/// Region one advances whenever its loop condition holds and b >= 1: the
/// measure shrinks, so the trace peels off its head pixel.
proof fn lemma_ell_r1_unfold(x: int, y: int, dx: int, dy: int, a: int, b: int)
    requires
        b >= 1,
        dx < a * a * (2 * y - 1),
    ensures
        ({
            let nx = x + 1;
            let ndx = dx + 2 * (b * b);
            let ny = if dy <= 0 {
                y
            } else {
                y - 1
            };
            let ndy = if dy <= 0 {
                dy + (2 * (b * b)) * (nx + 1)
            } else {
                dy + (2 * (b * b)) * (nx + 1) - (2 * (a * a)) * (ny - 1)
            };
            &&& ell_r1(x, y, dx, dy, a, b).0 == seq![(x, y)] + ell_r1(nx, ny, ndx, ndy, a, b).0
            &&& ell_r1(x, y, dx, dy, a, b).1 == ell_r1(nx, ny, ndx, ndy, a, b).1
            &&& a * a * (2 * ny - 1) - ndx < a * a * (2 * y - 1) - dx
        }),
{
    let ny = if dy <= 0 {
        y
    } else {
        y - 1
    };
    assert(b * b >= 1) by (nonlinear_arith)
        requires
            b >= 1,
    ;
    assert(a * a * (2 * (y - 1) - 1) == a * a * (2 * y - 1) - 2 * (a * a)) by (nonlinear_arith);
    assert(a * a >= 0) by (nonlinear_arith);
    assert(a * a * (2 * ny - 1) - (dx + 2 * (b * b)) < a * a * (2 * y - 1) - dx);
}

/// Appending one offset to the drawing order extends the covered pixels by
/// exactly that offset's four reflections.
proof fn lemma_refl4_set_push(cx: int, cy: int, qs: Seq<(int, int)>, q: (int, int))
    ensures
        forall|p: (int, int)|
            #[trigger] refl4_set(cx, cy, qs + seq![q]).contains(p) <==> (refl4_set(
                cx,
                cy,
                qs,
            ).contains(p) || reflects4(cx, cy, q, p)),
{
    assert forall|p: (int, int)| #[trigger]
        refl4_set(cx, cy, qs + seq![q]).contains(p) implies (refl4_set(cx, cy, qs).contains(p)
        || reflects4(cx, cy, q, p)) by {
        let w = choose|w: (int, int)|
            #[trigger] (qs + seq![q]).contains(w) && reflects4(cx, cy, w, p);
        let i = choose|i: int| 0 <= i < (qs + seq![q]).len() && (qs + seq![q])[i] == w;
        if i < qs.len() {
            assert(qs[i] == w);
            assert(qs.contains(w));
        } else {
            assert(w == q);
        }
    }
    assert forall|p: (int, int)| (refl4_set(cx, cy, qs).contains(p) || reflects4(
        cx,
        cy,
        q,
        p,
    )) implies #[trigger] refl4_set(cx, cy, qs + seq![q]).contains(p) by {
        if refl4_set(cx, cy, qs).contains(p) {
            let w = choose|w: (int, int)| #[trigger] qs.contains(w) && reflects4(cx, cy, w, p);
            let i = choose|i: int| 0 <= i < qs.len() && qs[i] == w;
            assert((qs + seq![q])[i] == w);
            assert((qs + seq![q]).contains(w));
        } else {
            assert((qs + seq![q])[qs.len() as int] == q);
            assert((qs + seq![q]).contains(q));
        }
    }
}

/// The pixel set of an ellipse is symmetric under both axis reflections
/// through its center.
pub proof fn lemma_ellipse_symmetry(cx: int, cy: int, a: int, b: int, p: (int, int))
    requires
        ellipse_set(cx, cy, a, b).contains(p),
    ensures
        ellipse_set(cx, cy, a, b).contains((2 * cx - p.0, p.1)),
        ellipse_set(cx, cy, a, b).contains((p.0, 2 * cy - p.1)),
{
    let t = ellipse_trace(a, b);
    let q = choose|q: (int, int)| #[trigger] t.contains(q) && reflects4(cx, cy, q, p);
    assert(reflects4(cx, cy, q, (2 * cx - p.0, p.1)));
    assert(reflects4(cx, cy, q, (p.0, 2 * cy - p.1)));
}

/// A degenerate ellipse covers exactly a straight segment of pixels: with a
/// zero x semi-axis, the vertical run from (cx, cy - n) to (cx, cy + n);
/// with a zero y semi-axis, the horizontal run from (cx - n, cy) to
/// (cx + n, cy).
pub proof fn lemma_ellipse_degenerate(cx: int, cy: int, n: int, p: (int, int))
    requires
        n >= 0,
    ensures
        ellipse_set(cx, cy, 0, n).contains(p) <==> (p.0 == cx && abs_i(p.1 - cy) <= n),
        ellipse_set(cx, cy, n, 0).contains(p) <==> (p.1 == cy && abs_i(p.0 - cx) <= n),
{
    let tv = ellipse_trace(0, n);
    let th = ellipse_trace(n, 0);
    if ellipse_set(cx, cy, 0, n).contains(p) {
        let q = choose|q: (int, int)| #[trigger] tv.contains(q) && reflects4(cx, cy, q, p);
        let i = choose|i: int| 0 <= i < tv.len() && tv[i] == q;
        assert(q == (0int, i));
        assert(p.0 == cx && abs_i(p.1 - cy) <= n);
    }
    if p.0 == cx && abs_i(p.1 - cy) <= n {
        let j = abs_i(p.1 - cy);
        assert(tv[j] == (0int, j));
        assert(tv.contains((0int, j)));
        assert(reflects4(cx, cy, (0int, j), p));
        assert(ellipse_set(cx, cy, 0, n).contains(p));
    }
    if ellipse_set(cx, cy, n, 0).contains(p) {
        let q = choose|q: (int, int)| #[trigger] th.contains(q) && reflects4(cx, cy, q, p);
        let i = choose|i: int| 0 <= i < th.len() && th[i] == q;
        if n == 0 {
            assert(q == (0int, 0int));
        } else {
            assert(q == (i, 0int));
        }
        assert(p.1 == cy && abs_i(p.0 - cx) <= n);
    }
    if p.1 == cy && abs_i(p.0 - cx) <= n {
        let j = abs_i(p.0 - cx);
        if n == 0 {
            assert(th[0] == (0int, 0int));
        } else {
            assert(th[j] == (j, 0int));
        }
        assert(th.contains((j, 0int)));
        assert(reflects4(cx, cy, (j, 0int), p));
        assert(ellipse_set(cx, cy, n, 0).contains(p));
    }
}

/// Multiplies two moderately sized values; the bound on the factors keeps
/// the product far inside the i128 range.
fn mul_small(u: i128, v: i128) -> (r: i128)
    requires
        -0x1_0000_0000_0000 <= u <= 0x1_0000_0000_0000,
        -0x1_0000_0000_0000 <= v <= 0x1_0000_0000_0000,
    ensures
        r == u * v,
        -0x1_0000_0000_0000_0000_0000_0000 <= r <= 0x1_0000_0000_0000_0000_0000_0000,
{
    proof {
        assert((u as int) * (v as int) <= 0x1_0000_0000_0000_0000_0000_0000 && (u as int) * (
        v as int) >= -0x1_0000_0000_0000_0000_0000_0000) by (nonlinear_arith)
            requires
                -0x1_0000_0000_0000 <= u as int <= 0x1_0000_0000_0000,
                -0x1_0000_0000_0000 <= v as int <= 0x1_0000_0000_0000,
        ;
    }
    u * v
}

/// Multiplies two larger values; used once per draw, at the region boundary.
fn mul_mid(u: i128, v: i128) -> (r: i128)
    requires
        -0x1000_0000_0000_0000 <= u <= 0x1000_0000_0000_0000,
        -0x1000_0000_0000_0000 <= v <= 0x1000_0000_0000_0000,
    ensures
        r == u * v,
{
    proof {
        assert((u as int) * (v as int) <= 0x100_0000_0000_0000_0000_0000_0000_0000 && (u as int) * (
        v as int) >= -0x100_0000_0000_0000_0000_0000_0000_0000) by (nonlinear_arith)
            requires
                -0x1000_0000_0000_0000 <= u as int <= 0x1000_0000_0000_0000,
                -0x1000_0000_0000_0000 <= v as int <= 0x1000_0000_0000_0000,
        ;
    }
    u * v
}

/// Writes the four axis reflections of quadrant offset (qx, qy) around
/// (px, py) in red: exactly the cells among them that lie on the canvas
/// change.
fn write4(screen: &mut Vec<u8>, px: i64, py: i64, qx: i64, qy: i64)
    requires
        old(screen).len() == SCREEN_LEN,
        -0x8000_0000 <= px < 0x8000_0000,
        -0x8000_0000 <= py < 0x8000_0000,
        0 <= qx <= 0x1_0000_0000,
        0 <= qy <= 0x1_0000_0000,
    ensures
        final(screen).len() == SCREEN_LEN,
        forall|x: int, y: int|
            in_canvas(x, y) ==> cell_color(final(screen)@, x, y) == (if reflects4(
                px as int,
                py as int,
                (qx as int, qy as int),
                (x, y),
            ) {
                red()
            } else {
                cell_color(old(screen)@, x, y)
            }),
{
    let ghost s0 = screen@;
    let c = Color::new(255, 0, 0, 255);
    write_cell(screen, px + qx, py + qy, c);
    let ghost s1 = screen@;
    write_cell(screen, px - qx, py + qy, c);
    let ghost s2 = screen@;
    write_cell(screen, px + qx, py - qy, c);
    let ghost s3 = screen@;
    write_cell(screen, px - qx, py - qy, c);
    proof {
        assert forall|x: int, y: int| in_canvas(x, y) implies cell_color(screen@, x, y) == (
        if reflects4(px as int, py as int, (qx as int, qy as int), (x, y)) {
            red()
        } else {
            cell_color(s0, x, y)
        }) by {
            lemma_write_cell(s0, px + qx, py + qy, red(), x, y);
            lemma_write_cell(s1, px - qx, py + qy, red(), x, y);
            lemma_write_cell(s2, px + qx, py - qy, red(), x, y);
            lemma_write_cell(s3, px - qx, py - qy, red(), x, y);
        }
    }
}

impl Ellipse {
    pub fn new(position: Vector, size: Vector) -> (e: Self)
        ensures
            e.position == position,
            e.size == size,
    {
        Ellipse { position, size }
    }

    /// Rasterize the ellipse boundary with the two-region midpoint
    /// algorithm: exactly the pixels of `ellipse_set(position, size)` are
    /// painted red (clipped to the canvas), and every other cell keeps its
    /// color.
    pub fn draw(&self, screen: &mut Vec<u8>)
        requires
            old(screen).len() == SCREEN_LEN,
            0 <= self.size.x <= MAX_SEMI_AXIS,
            0 <= self.size.y <= MAX_SEMI_AXIS,
        ensures
            final(screen).len() == SCREEN_LEN,
            forall|x: int, y: int|
                in_canvas(x, y) ==> cell_color(final(screen)@, x, y) == (if ellipse_set(
                    self.position.x as int,
                    self.position.y as int,
                    self.size.x as int,
                    self.size.y as int,
                ).contains((x, y)) {
                    red()
                } else {
                    cell_color(old(screen)@, x, y)
                }),
    {
        let ghost screen0 = screen@;
        let px: i64 = self.position.x as i64;
        let py: i64 = self.position.y as i64;
        let a: i64 = self.size.x as i64;
        let b: i64 = self.size.y as i64;
        if a == 0 || b == 0 {
            // a zero semi-axis: the ellipse degenerates to a straight
            // segment of pixels along the other axis
            let vertical: bool = a == 0;
            let n: i64 = if vertical {
                b
            } else {
                a
            };
            let ghost full = ellipse_trace(a as int, b as int);
            let ghost mut prefix: Seq<(int, int)> = Seq::empty();
            proof {
                assert(prefix =~= full.take(0));
            }
            let mut j: i64 = 0;
            while j <= n
                invariant
                    screen.len() == SCREEN_LEN,
                    -0x8000_0000 <= px < 0x8000_0000,
                    -0x8000_0000 <= py < 0x8000_0000,
                    0 <= n <= 8192,
                    0 <= j <= n + 1,
                    full == (if vertical {
                        Seq::new((n as int + 1) as nat, |k: int| (0int, k))
                    } else {
                        Seq::new((n as int + 1) as nat, |k: int| (k, 0int))
                    }),
                    prefix == full.take(j as int),
                    forall|gx: int, gy: int|
                        in_canvas(gx, gy) ==> cell_color(screen@, gx, gy) == (if refl4_set(
                            px as int,
                            py as int,
                            prefix,
                        ).contains((gx, gy)) {
                            red()
                        } else {
                            cell_color(screen0, gx, gy)
                        }),
                decreases n + 1 - j,
            {
                let ghost q = if vertical {
                    (0int, j as int)
                } else {
                    (j as int, 0int)
                };
                if vertical {
                    write4(screen, px, py, 0, j);
                } else {
                    write4(screen, px, py, j, 0);
                }
                proof {
                    lemma_refl4_set_push(px as int, py as int, prefix, q);
                    assert(full[j as int] == q);
                    assert(prefix + seq![q] =~= full.take(j as int + 1));
                    prefix = prefix + seq![q];
                }
                j = j + 1;
            }
            proof {
                assert(full.take(n as int + 1) =~= full);
                assert(prefix =~= full);
            }
            return;
        }
        let ai: i128 = a as i128;
        let bi: i128 = b as i128;
        proof {
            assert(0 <= (a as int) * (a as int) <= 0x400_0000) by (nonlinear_arith)
                requires
                    0 <= a as int <= 8192,
            ;
            assert(0 <= (b as int) * (b as int) <= 0x400_0000) by (nonlinear_arith)
                requires
                    0 <= b as int <= 8192,
            ;
        }
        let a2: i128 = ai * ai;
        let b2: i128 = bi * bi;
        let ghost az = a as int;
        let ghost bz = b as int;
        let ghost full = ellipse_trace(az, bz);
        let ghost r1full = ell_r1(
            0,
            bz,
            bz * bz,
            bz * bz + (az * az) * (bz - 1) * (bz - 1) - (az * az) * (bz * bz),
            az,
            bz,
        );
        let mut x: i64 = 0;
        let mut y: i64 = b;
        let mut dx: i128 = b2;
        let t1: i128 = mul_small(a2, bi - 1);
        proof {
            assert(-0x400_0000 <= (a2 as int) * ((b as int) - 1) <= 0x8000_0000_0000)
                by (nonlinear_arith)
                requires
                    0 <= a2 as int <= 0x400_0000,
                    -1 <= (b as int) - 1 <= 8192,
            ;
        }
        let mut dy: i128 = b2 + mul_small(t1, bi - 1) - mul_small(a2, b2);
        let ghost mut prefix: Seq<(int, int)> = Seq::empty();
        proof {
            assert(r1full == ell_r1(x as int, y as int, dx as int, dy as int, az, bz));
            assert(r1full.0 == Seq::empty() + ell_r1(
                x as int,
                y as int,
                dx as int,
                dy as int,
                az,
                bz,
            ).0) by {
                assert(Seq::empty() + r1full.0 =~= r1full.0);
            }
        }
        while dx < mul_small(a2, 2 * (y as i128) - 1)
            invariant
                screen.len() == SCREEN_LEN,
                -0x8000_0000 <= px < 0x8000_0000,
                -0x8000_0000 <= py < 0x8000_0000,
                0 <= a <= 8192,
                0 <= b <= 8192,
                az == a as int && bz == b as int,
                a2 as int == az * az && b2 as int == bz * bz,
                0 <= a2 <= 0x400_0000 && 0 <= b2 <= 0x400_0000,
                0 <= x <= 0x401_0000,
                0 <= y <= b,
                dx as int == (2 * (bz * bz)) * (x as int) + bz * bz,
                0 <= dx as int <= 0x800_0000 * (x as int) + 0x400_0000,
                -0x10_0000_0000_0000_0000_0000_0000 - (x as int) * 0x4_0000_0000_0000_0000_0000_0000
                    <= dy as int <= 0x10_0000_0000_0000_0000_0000_0000 + (x as int)
                    * 0x4_0000_0000_0000_0000_0000_0000,
                r1full.0 == prefix + ell_r1(x as int, y as int, dx as int, dy as int, az, bz).0,
                r1full.1 == ell_r1(x as int, y as int, dx as int, dy as int, az, bz).1,
                forall|gx: int, gy: int|
                    in_canvas(gx, gy) ==> cell_color(screen@, gx, gy) == (if refl4_set(
                        px as int,
                        py as int,
                        prefix,
                    ).contains((gx, gy)) {
                        red()
                    } else {
                        cell_color(screen0, gx, gy)
                    }),
            decreases (if az * az * (2 * (y as int) - 1) - dx as int > 0 {
                az * az * (2 * (y as int) - 1) - dx as int
            } else {
                0int
            }),
        {
            let ghost pre_pts = prefix;
            let ghost q = (x as int, y as int);
            proof {
                // the loop condition forces y >= 1, hence b >= 1
                assert(az * az * (2 * (y as int) - 1) > dx as int);
                assert(y as int >= 1) by (nonlinear_arith)
                    requires
                        az * az * (2 * (y as int) - 1) > 0,
                ;
                assert(b >= 1);
                lemma_ell_r1_unfold(x as int, y as int, dx as int, dy as int, az, bz);
                // x stays far below its overflow bound
                assert(bz * ((x as int) + 1) <= az * az + bz) by (nonlinear_arith)
                    requires
                        (2 * (bz * bz)) * (x as int) + bz * bz < az * az * (2 * (y as int) - 1),
                        1 <= bz,
                        (y as int) <= bz,
                        0 <= x as int,
                        0 <= az,
                ;
                assert(x as int + 1 <= 0x401_0000) by (nonlinear_arith)
                    requires
                        bz * ((x as int) + 1) <= az * az + bz,
                        1 <= bz <= 8192,
                        0 <= az <= 8192,
                        0 <= x as int,
                ;
                // the dx closed form is preserved by the update
                assert((2 * (bz * bz)) * ((x as int) + 1) + bz * bz == (2 * (bz * bz)) * (x as int)
                    + bz * bz + 2 * (bz * bz)) by (nonlinear_arith);
            }
            write4(screen, px, py, x, y);
            proof {
                lemma_refl4_set_push(px as int, py as int, prefix, q);
                prefix = prefix + seq![q];
                let st = ell_r1(x as int, y as int, dx as int, dy as int, az, bz);
                let nxz = (x as int) + 1;
                let nyz = if dy as int <= 0 {
                    y as int
                } else {
                    (y as int) - 1
                };
                let ndxz = dx as int + 2 * (bz * bz);
                let ndyz = if dy as int <= 0 {
                    dy as int + (2 * (bz * bz)) * (nxz + 1)
                } else {
                    dy as int + (2 * (bz * bz)) * (nxz + 1) - (2 * (az * az)) * (nyz - 1)
                };
                let rest = ell_r1(nxz, nyz, ndxz, ndyz, az, bz).0;
                assert(r1full.0 =~= (pre_pts + seq![q]) + rest) by {
                    assert(pre_pts + (seq![q] + rest) =~= (pre_pts + seq![q]) + rest);
                }
            }
            x = x + 1;
            dx = dx + 2 * b2;
            if dy <= 0 {
                dy = dy + mul_small(2 * b2, (x as i128) + 1);
            } else {
                y = y - 1;
                dy = dy + mul_small(2 * b2, (x as i128) + 1) - mul_small(2 * a2, (y as i128) - 1);
            }
        }
        proof {
            assert(ell_r1(x as int, y as int, dx as int, dy as int, az, bz).0 =~= Seq::<
                (int, int),
            >::empty());
            assert(r1full.0 =~= prefix);
            assert(r1full.1 == (x as int, y as int, dx as int, dy as int));
        }
        let u1: i128 = mul_small(b2, x as i128);
        proof {
            assert(0 <= (b2 as int) * (x as int) <= 0x20_0000_0000_0000) by (nonlinear_arith)
                requires
                    0 <= b2 as int <= 0x400_0000,
                    0 <= x as int <= 0x500_0000,
            ;
        }
        let u2: i128 = mul_mid(u1, x as i128);
        proof {
            assert(0 <= ((b2 as int) * (x as int)) * (x as int) <= 0x1_0000_0000_0000_0000_0000)
                by (nonlinear_arith)
                requires
                    0 <= (b2 as int) * (x as int) <= 0x20_0000_0000_0000,
                    0 <= x as int <= 0x500_0000,
            ;
        }
        let v1: i128 = mul_small(a2, (y as i128) - 1);
        proof {
            assert(-0x400_0000 <= (a2 as int) * ((y as int) - 1) <= 0x80_0000_0000)
                by (nonlinear_arith)
                requires
                    0 <= a2 as int <= 0x400_0000,
                    -1 <= (y as int) - 1 <= 8192,
            ;
        }
        let v2: i128 = mul_small(v1, (y as i128) - 1);
        proof {
            assert(-0x80_0000_0000 <= ((a2 as int) * ((y as int) - 1)) * ((y as int) - 1)
                <= 0x10_0000_0000_0000) by (nonlinear_arith)
                requires
                    -0x400_0000 <= (a2 as int) * ((y as int) - 1) <= 0x80_0000_0000,
                    -1 <= (y as int) - 1 <= 8192,
            ;
        }
        let w: i128 = mul_small(a2, b2);
        proof {
            assert(0 <= (a2 as int) * (b2 as int) <= 0x10_0000_0000_0000) by (nonlinear_arith)
                requires
                    0 <= a2 as int <= 0x400_0000,
                    0 <= b2 as int <= 0x400_0000,
            ;
        }
        dy = u2 + v2 - w;
        proof {
            assert(full == prefix + ell_r2(x as int, y as int, dy as int, az, bz));
        }
        while y >= 0
            invariant
                screen.len() == SCREEN_LEN,
                -0x8000_0000 <= px < 0x8000_0000,
                -0x8000_0000 <= py < 0x8000_0000,
                0 <= a <= 8192,
                0 <= b <= 8192,
                az == a as int && bz == b as int,
                a2 as int == az * az && b2 as int == bz * bz,
                0 <= a2 <= 0x400_0000 && 0 <= b2 <= 0x400_0000,
                -1 <= y <= b,
                0 <= x as int <= 0x402_0000 + (bz - (y as int)),
                -0x10_0000_0000_0000_0000_0000_0000 - (bz - (y as int))
                    * 0x4_0000_0000_0000_0000_0000_0000 <= dy as int
                    <= 0x10_0000_0000_0000_0000_0000_0000 + (bz - (y as int))
                    * 0x4_0000_0000_0000_0000_0000_0000,
                full == prefix + ell_r2(x as int, y as int, dy as int, az, bz),
                forall|gx: int, gy: int|
                    in_canvas(gx, gy) ==> cell_color(screen@, gx, gy) == (if refl4_set(
                        px as int,
                        py as int,
                        prefix,
                    ).contains((gx, gy)) {
                        red()
                    } else {
                        cell_color(screen0, gx, gy)
                    }),
            decreases y + 1,
        {
            let ghost pre_pts = prefix;
            let ghost q = (x as int, y as int);
            write4(screen, px, py, x, y);
            proof {
                lemma_refl4_set_push(px as int, py as int, prefix, q);
                prefix = prefix + seq![q];
                let nyz = (y as int) - 1;
                let nxz = if dy as int > 0 {
                    x as int
                } else {
                    (x as int) + 1
                };
                let ndyz = if dy as int > 0 {
                    dy as int - (2 * (az * az)) * nyz
                } else {
                    dy as int + (2 * (bz * bz)) * nxz - (2 * (az * az)) * nyz
                };
                let rest = ell_r2(nxz, nyz, ndyz, az, bz);
                assert(full =~= (pre_pts + seq![q]) + rest) by {
                    assert(pre_pts + (seq![q] + rest) =~= (pre_pts + seq![q]) + rest);
                }
            }
            if dy > 0 {
                y = y - 1;
                dy = dy - mul_small(2 * a2, y as i128);
            } else {
                y = y - 1;
                x = x + 1;
                dy = dy + mul_small(2 * b2, x as i128) - mul_small(2 * a2, y as i128);
            }
        }
        proof {
            assert(ell_r2(x as int, y as int, dy as int, az, bz) =~= Seq::<(int, int)>::empty());
            assert(full =~= prefix);
        }
    }

    /// Resize the ellipse from a drag: each semi-axis becomes the absolute
    /// offset of the pointer from the center along that axis. Both points
    /// are expressed in canvas coordinates.
    pub fn endpoint(&mut self, mouse: Vector)
        requires
            0 <= old(self).position.x < WIDTH as i32,
            0 <= old(self).position.y < HEIGHT as i32,
            0 <= mouse.x < WIDTH as i32,
            0 <= mouse.y < HEIGHT as i32,
        ensures
            final(self).position == old(self).position,
            final(self).size.x == abs_i(old(self).position.x - mouse.x),
            final(self).size.y == abs_i(old(self).position.y - mouse.y),
            0 <= final(self).size.x <= MAX_SEMI_AXIS,
            0 <= final(self).size.y <= MAX_SEMI_AXIS,
    {
        let sx: i32 = if self.position.x >= mouse.x {
            self.position.x - mouse.x
        } else {
            mouse.x - self.position.x
        };
        let sy: i32 = if self.position.y >= mouse.y {
            self.position.y - mouse.y
        } else {
            mouse.y - self.position.y
        };
        self.size = Vector { x: sx, y: sy };
    }
}

} // verus!
