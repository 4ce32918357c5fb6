use vstd::prelude::*;

pub mod canvas;
pub mod circle;
pub mod ellipse;
pub mod figure;
pub mod line;
pub mod scene;

pub use circle::Circle;
pub use ellipse::Ellipse;
pub use figure::Figure;
pub use line::Line;
pub use scene::Scene;

verus! {

/// Width of the pixel canvas, in cells.
pub const WIDTH: usize = 800;

/// Height of the pixel canvas, in cells.
pub const HEIGHT: usize = 600;

/// An RGBA color: four 8-bit channels.
#[derive(Clone, Copy, Debug, PartialEq, Eq, Structural)]
pub struct Color {
    pub red: u8,
    pub green: u8,
    pub blue: u8,
    pub alpha: u8,
}

/// An integer pair used for positions, offsets and deltas; one unit is one pixel.
#[derive(Clone, Copy, Debug, PartialEq, Eq, Structural)]
pub struct Vector {
    pub x: i32,
    pub y: i32,
}

impl Vector {
    pub fn new(x: i32, y: i32) -> (v: Self)
        ensures
            v.x == x,
            v.y == y,
    {
        Vector { x, y }
    }
}

impl Color {
    pub fn new(red: u8, green: u8, blue: u8, alpha: u8) -> (c: Self)
        ensures
            c.red == red,
            c.green == green,
            c.blue == blue,
            c.alpha == alpha,
    {
        Color { red, green, blue, alpha }
    }
}

} // verus!
