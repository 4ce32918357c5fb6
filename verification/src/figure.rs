//! The figure abstraction: a tagged variant over the three primitives, so
//! that heterogeneous shapes share one draw / adjust-endpoint contract and
//! can be stored together in a scene.

use vstd::prelude::*;
use crate::{Vector, HEIGHT, WIDTH};
use crate::canvas::{cell_color, in_canvas, red, SCREEN_LEN};
use crate::circle::{circle_set, is_round_sqrt, sq, Circle};
use crate::ellipse::{ellipse_set, Ellipse, MAX_SEMI_AXIS};
use crate::line::{abs_i, line_set, Line};

verus! {

/// A drawable primitive: a line, a circle, or an ellipse.
pub enum Figure {
    Line(Line),
    Circle(Circle),
    Ellipse(Ellipse),
}

impl Figure {
    /// A figure is drawable when its shape parameters are in range: a
    /// nonnegative radius, and semi-axes between zero and the rasterizer's
    /// overflow bound.
    pub open spec fn wf(self) -> bool {
        match self {
            Figure::Line(_) => true,
            Figure::Circle(c) => 0 <= c.radius,
            Figure::Ellipse(e) => 0 <= e.size.x <= MAX_SEMI_AXIS && 0 <= e.size.y
                <= MAX_SEMI_AXIS,
        }
    }

    /// The set of pixels the figure's rasterizer covers, before clipping.
    pub open spec fn pixel_set(self) -> Set<(int, int)> {
        match self {
            Figure::Line(l) => line_set(
                l.start.x as int,
                l.start.y as int,
                l.end.x as int,
                l.end.y as int,
            ),
            Figure::Circle(c) => circle_set(c.position.x as int, c.position.y as int, c.radius as int),
            Figure::Ellipse(e) => ellipse_set(
                e.position.x as int,
                e.position.y as int,
                e.size.x as int,
                e.size.y as int,
            ),
        }
    }

    /// What the matching rasterizer accepts; the pointer and, for resizable
    /// centers, the figure's position are in canvas coordinates.
    pub open spec fn endpoint_req(self, mouse: Vector) -> bool {
        match self {
            Figure::Line(_) => true,
            Figure::Circle(c) => 0 <= c.position.x < WIDTH as i32 && 0 <= c.position.y < HEIGHT as i32 && 0 <= mouse.x
                < WIDTH as i32 && 0 <= mouse.y < HEIGHT as i32,
            Figure::Ellipse(e) => 0 <= e.position.x < WIDTH as i32 && 0 <= e.position.y < HEIGHT as i32 && 0
                <= mouse.x < WIDTH as i32 && 0 <= mouse.y < HEIGHT as i32,
        }
    }

    /// How a drag adjusts a figure: a line rubber-bands its end to the
    /// pointer, a circle takes the rounded distance to the pointer as its
    /// radius, and an ellipse takes the absolute pointer offsets as its
    /// semi-axes.
    pub open spec fn endpoint_rel(before: Figure, mouse: Vector, after: Figure) -> bool {
        match (before, after) {
            (Figure::Line(l), Figure::Line(l2)) => l2.start == l.start && l2.end == mouse,
            (Figure::Circle(c), Figure::Circle(c2)) => c2.position == c.position && is_round_sqrt(
                sq(c.position.x - mouse.x) + sq(c.position.y - mouse.y),
                c2.radius as int,
            ),
            (Figure::Ellipse(e), Figure::Ellipse(e2)) => e2.position == e.position && e2.size.x
                == abs_i(e.position.x - mouse.x) && e2.size.y == abs_i(e.position.y - mouse.y),
            _ => false,
        }
    }

    /// Draw the figure through its matching rasterizer: exactly the pixels
    /// of `pixel_set` are painted red (clipped to the canvas) and every
    /// other cell keeps its color.
    pub fn draw(&self, screen: &mut Vec<u8>)
        requires
            old(screen).len() == SCREEN_LEN,
            self.wf(),
        ensures
            final(screen).len() == SCREEN_LEN,
            forall|x: int, y: int|
                in_canvas(x, y) ==> cell_color(final(screen)@, x, y) == (if self.pixel_set(
                ).contains((x, y)) {
                    red()
                } else {
                    cell_color(old(screen)@, x, y)
                }),
    {
        match self {
            Figure::Line(l) => l.draw(screen),
            Figure::Circle(c) => c.draw(screen),
            Figure::Ellipse(e) => e.draw(screen),
        }
    }

    /// Adjust the figure's mutable parameter from the pointer position.
    pub fn endpoint(&mut self, mouse: Vector)
        requires
            old(self).endpoint_req(mouse),
        ensures
            final(self).wf(),
            Figure::endpoint_rel(*old(self), mouse, *final(self)),
    {
        match self {
            Figure::Line(l) => l.endpoint(mouse),
            Figure::Circle(c) => c.endpoint(mouse),
            Figure::Ellipse(e) => e.endpoint(mouse),
        }
    }
}

} // verus!
