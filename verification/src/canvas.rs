//! The canvas model: a WIDTH x HEIGHT grid of RGBA cells stored row-major in a
//! byte buffer, with a bounds-checked write that silently drops out-of-range
//! coordinates.

use vstd::prelude::*;
use crate::{Color, HEIGHT, WIDTH};

verus! {

/// Number of bytes in the canvas buffer: four per cell.
pub const SCREEN_LEN: usize = 4 * WIDTH * HEIGHT;

/// The color every figure is drawn with: opaque red.
pub open spec fn red() -> Color {
    Color { red: 255, green: 0, blue: 0, alpha: 255 }
}

/// The background the canvas is cleared to: opaque black.
pub open spec fn black() -> Color {
    Color { red: 0, green: 0, blue: 0, alpha: 255 }
}

/// Whether cell (x, y) lies on the canvas.
pub open spec fn in_canvas(x: int, y: int) -> bool {
    0 <= x < WIDTH && 0 <= y < HEIGHT
}

/// Byte offset of cell (x, y): row-major, four bytes per cell.
pub open spec fn cell_index(x: int, y: int) -> int {
    4 * (y * WIDTH + x)
}

/// The color stored at cell (x, y) of a canvas buffer.
pub open spec fn cell_color(s: Seq<u8>, x: int, y: int) -> Color {
    Color {
        red: s[cell_index(x, y)],
        green: s[cell_index(x, y) + 1],
        blue: s[cell_index(x, y) + 2],
        alpha: s[cell_index(x, y) + 3],
    }
}

/// The buffer after a clipped write of color c at (x, y): the four bytes of
/// that cell are replaced when (x, y) is on the canvas, and nothing changes
/// otherwise.
pub open spec fn write_cell_spec(s: Seq<u8>, x: int, y: int, c: Color) -> Seq<u8> {
    if in_canvas(x, y) {
        s.update(cell_index(x, y), c.red)
            .update(cell_index(x, y) + 1, c.green)
            .update(cell_index(x, y) + 2, c.blue)
            .update(cell_index(x, y) + 3, c.alpha)
    } else {
        s
    }
}

/// Distinct on-canvas cells occupy disjoint byte ranges.
proof fn lemma_cell_index_injective(x1: int, y1: int, x2: int, y2: int)
    requires
        in_canvas(x1, y1),
        in_canvas(x2, y2),
        (x1, y1) != (x2, y2),
    ensures
        cell_index(x1, y1) + 4 <= cell_index(x2, y2) || cell_index(x2, y2) + 4 <= cell_index(
            x1,
            y1,
        ),
{
    assert(y1 * WIDTH + x1 != y2 * WIDTH + x2 && (y1 * WIDTH + x1 < y2 * WIDTH + x2 ==> y1 * WIDTH
        + x1 + 1 <= y2 * WIDTH + x2) && (y2 * WIDTH + x2 < y1 * WIDTH + x1 ==> y2 * WIDTH + x2 + 1
        <= y1 * WIDTH + x1)) by (nonlinear_arith)
        requires
            0 <= x1 < WIDTH,
            0 <= x2 < WIDTH,
            0 <= y1 < HEIGHT,
            0 <= y2 < HEIGHT,
            (x1, y1) != (x2, y2),
    ;
}

/// How a clipped write reads back, cell by cell: the target cell (when on the
/// canvas) holds the new color and every other cell is untouched.
pub proof fn lemma_write_cell(s: Seq<u8>, x: int, y: int, c: Color, qx: int, qy: int)
    requires
        s.len() == SCREEN_LEN,
        in_canvas(qx, qy),
    ensures
        cell_color(write_cell_spec(s, x, y, c), qx, qy) == if qx == x && qy == y {
            c
        } else {
            cell_color(s, qx, qy)
        },
{
    if in_canvas(x, y) {
        assert(0 <= cell_index(x, y) && cell_index(x, y) + 4 <= SCREEN_LEN) by (nonlinear_arith)
            requires
                0 <= x < WIDTH,
                0 <= y < HEIGHT,
        ;
        assert(0 <= cell_index(qx, qy) && cell_index(qx, qy) + 4 <= SCREEN_LEN)
            by (nonlinear_arith)
            requires
                0 <= qx < WIDTH,
                0 <= qy < HEIGHT,
        ;
        if qx == x && qy == y {
        } else {
            lemma_cell_index_injective(x, y, qx, qy);
        }
    }
}

/// Appending one pixel to a drawing order adds exactly that pixel to the
/// covered set.
pub proof fn lemma_to_set_push(s: Seq<(int, int)>, q: (int, int))
    ensures
        (s + seq![q]).to_set() == s.to_set().insert(q),
{
    let t = s + seq![q];
    assert forall|p: (int, int)| t.to_set().contains(p) implies s.to_set().insert(q).contains(
        p,
    ) by {
        let i = choose|i: int| 0 <= i < t.len() && t[i] == p;
        if i < s.len() {
            assert(s[i] == p);
        } else {
            assert(p == q);
        }
    }
    assert forall|p: (int, int)| s.to_set().insert(q).contains(p) implies t.to_set().contains(
        p,
    ) by {
        if p == q {
            assert(t[s.len() as int] == q);
        } else {
            assert(s.contains(p));
            let i = choose|i: int| 0 <= i < s.len() && s[i] == p;
            assert(t[i] == p);
        }
    }
    assert(t.to_set() =~= s.to_set().insert(q));
}

/// The exec write: stores the four channel bytes of c at cell (x, y) when the
/// coordinates are on the canvas, and does nothing otherwise.
pub(crate) fn write_cell(screen: &mut Vec<u8>, x: i64, y: i64, c: Color)
    requires
        old(screen).len() == SCREEN_LEN,
    ensures
        final(screen).len() == SCREEN_LEN,
        final(screen)@ == write_cell_spec(old(screen)@, x as int, y as int, c),
{
    if 0 <= x && x < WIDTH as i64 && 0 <= y && y < HEIGHT as i64 {
        proof {
            assert(0 <= 4 * (y * WIDTH + x) && 4 * (y * WIDTH + x) + 4 <= SCREEN_LEN)
                by (nonlinear_arith)
                requires
                    0 <= x < WIDTH,
                    0 <= y < HEIGHT,
            ;
        }
        let idx: usize = 4 * (y as usize * WIDTH + x as usize);
        screen.set(idx, c.red);
        screen.set(idx + 1, c.green);
        screen.set(idx + 2, c.blue);
        screen.set(idx + 3, c.alpha);
    }
}

} // verus!
