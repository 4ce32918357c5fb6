//! The scene: an ordered collection of figures plus the owned canvas
//! buffer. Each render clears the canvas and repaints every figure in
//! insertion order, so later figures overwrite earlier ones pixel by pixel.

use vstd::prelude::*;
use crate::{Color, Vector, HEIGHT, WIDTH};
use crate::canvas::{black, cell_color, in_canvas, red, write_cell, write_cell_spec, SCREEN_LEN};
use crate::figure::Figure;

verus! {

/// A scene: the canvas byte buffer (row-major RGBA) and the figures drawn
/// onto it, in insertion order.
pub struct Scene {
    pub screen: Vec<u8>,
    pub scene: Vec<Figure>,
}

impl Scene {
    /// The canvas has its fixed size and every stored figure is drawable.
    pub open spec fn wf(self) -> bool {
        &&& self.screen.len() == SCREEN_LEN
        &&& forall|i: int| 0 <= i < self.scene.len() ==> (#[trigger] self.scene[i]).wf()
    }

    /// Whether any of the figures covers pixel p.
    pub open spec fn covered(figs: Seq<Figure>, p: (int, int)) -> bool {
        exists|i: int| 0 <= i < figs.len() && (#[trigger] figs[i]).pixel_set().contains(p)
    }

    /// An empty scene with a fresh canvas.
    pub fn new() -> (s: Scene)
        ensures
            s.wf(),
            s.scene@.len() == 0,
    {
        let mut screen: Vec<u8> = Vec::new();
        let mut i: usize = 0;
        while i < SCREEN_LEN
            invariant
                screen.len() == i,
                i <= SCREEN_LEN,
            decreases SCREEN_LEN - i,
        {
            screen.push(0);
            i = i + 1;
        }
        Scene { screen, scene: Vec::new() }
    }

    /// Append a figure; newest figures draw on top.
    pub fn push(&mut self, figure: Figure)
        requires
            figure.wf(),
        ensures
            final(self).scene@ == old(self).scene@ + seq![figure],
            final(self).screen == old(self).screen,
            old(self).wf() ==> final(self).wf(),
    {
        self.scene.push(figure);
        proof {
            assert forall|i: int|
                0 <= i < self.scene.len() && old(self).wf() implies (
            #[trigger] self.scene[i]).wf() by {
                if i < old(self).scene.len() {
                    assert(self.scene[i] == old(self).scene[i]);
                }
            }
        }
    }

    /// Empty the figure collection; the canvas is untouched until the next
    /// render.
    pub fn clear(&mut self)
        ensures
            final(self).scene@.len() == 0,
            final(self).screen == old(self).screen,
            old(self).wf() ==> final(self).wf(),
    {
        self.scene = Vec::new();
    }

    /// Write one cell if and only if it lies on the canvas; out-of-range
    /// coordinates are silently dropped.
    pub fn set_pixel(position: &Vector, color: Color, screen: &mut Vec<u8>)
        requires
            old(screen).len() == SCREEN_LEN,
        ensures
            final(screen).len() == SCREEN_LEN,
            final(screen)@ == write_cell_spec(
                old(screen)@,
                position.x as int,
                position.y as int,
                color,
            ),
    {
        write_cell(screen, position.x as i64, position.y as i64, color);
    }

    /// Full repaint: clear the canvas to opaque black, then draw every
    /// figure in insertion order. Afterwards a cell is red exactly when
    /// some figure covers it, and black otherwise, regardless of the
    /// canvas's earlier contents.
    pub fn render(&mut self)
        requires
            old(self).wf(),
        ensures
            final(self).wf(),
            final(self).scene == old(self).scene,
            forall|x: int, y: int|
                in_canvas(x, y) ==> cell_color(final(self).screen@, x, y) == (if Scene::covered(
                    old(self).scene@,
                    (x, y),
                ) {
                    red()
                } else {
                    black()
                }),
    {
        let mut y: usize = 0;
        while y < HEIGHT
            invariant
                self.screen.len() == SCREEN_LEN,
                self.scene == old(self).scene,
                y <= HEIGHT,
                forall|gx: int, gy: int|
                    in_canvas(gx, gy) && gy < y ==> cell_color(self.screen@, gx, gy) == black(),
            decreases HEIGHT - y,
        {
            let mut x: usize = 0;
            while x < WIDTH
                invariant
                    self.screen.len() == SCREEN_LEN,
                    self.scene == old(self).scene,
                    y < HEIGHT,
                    x <= WIDTH,
                    forall|gx: int, gy: int|
                        in_canvas(gx, gy) && (gy < y || (gy == y && gx < x)) ==> cell_color(
                            self.screen@,
                            gx,
                            gy,
                        ) == black(),
                decreases WIDTH - x,
            {
                let ghost pre = self.screen@;
                Scene::set_pixel(
                    &Vector::new(x as i32, y as i32),
                    Color::new(0, 0, 0, 255),
                    &mut self.screen,
                );
                proof {
                    assert forall|gx: int, gy: int|
                        in_canvas(gx, gy) && (gy < y || (gy == y && gx < x + 1)) implies cell_color(
                        self.screen@,
                        gx,
                        gy,
                    ) == black() by {
                        crate::canvas::lemma_write_cell(pre, x as int, y as int, black(), gx, gy);
                    }
                }
                x = x + 1;
            }
            y = y + 1;
        }
        let ghost cleared = self.screen@;
        let mut i: usize = 0;
        while i < self.scene.len()
            invariant
                self.screen.len() == SCREEN_LEN,
                self.scene == old(self).scene,
                old(self).wf(),
                i <= self.scene.len(),
                forall|gx: int, gy: int|
                    in_canvas(gx, gy) ==> cell_color(self.screen@, gx, gy) == (if Scene::covered(
                        self.scene@.take(i as int),
                        (gx, gy),
                    ) {
                        red()
                    } else {
                        black()
                    }),
            decreases self.scene.len() - i,
        {
            let ghost pre = self.screen@;
            let fig = &self.scene[i];
            fig.draw(&mut self.screen);
            proof {
                let taken = self.scene@.take(i as int);
                let taken1 = self.scene@.take(i as int + 1);
                assert forall|gx: int, gy: int| in_canvas(gx, gy) implies cell_color(
                    self.screen@,
                    gx,
                    gy,
                ) == (if Scene::covered(taken1, (gx, gy)) {
                    red()
                } else {
                    black()
                }) by {
                    let p = (gx, gy);
                    if Scene::covered(taken1, p) {
                        let k = choose|k: int|
                            0 <= k < taken1.len() && (#[trigger] taken1[k]).pixel_set().contains(p);
                        if k < i {
                            assert(taken[k] == taken1[k]);
                            assert(Scene::covered(taken, p));
                        } else {
                            assert(taken1[k] == self.scene@[i as int]);
                        }
                    } else {
                        assert(!self.scene@[i as int].pixel_set().contains(p)) by {
                            assert(taken1[i as int] == self.scene@[i as int]);
                        }
                        assert(!Scene::covered(taken, p)) by {
                            if Scene::covered(taken, p) {
                                let k = choose|k: int|
                                    0 <= k < taken.len() && (#[trigger] taken[k]).pixel_set(
                                    ).contains(p);
                                assert(taken1[k] == taken[k]);
                            }
                        }
                    }
                }
            }
            i = i + 1;
        }
        proof {
            assert(self.scene@.take(self.scene.len() as int) =~= self.scene@);
        }
    }
}

} // verus!
