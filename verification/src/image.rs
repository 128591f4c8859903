use vstd::prelude::*;
use crate::grid::{Cell, Grid};

verus! {

/// A colour as red, green and blue.
#[derive(Clone, Copy, Debug, PartialEq, Eq)]
pub struct Color {
    pub r: u8,
    pub g: u8,
    pub b: u8,
}

/// A picture of a grid: its width and height, and one colour per cell in row-major order.
#[derive(Debug, PartialEq, Eq)]
pub struct ColorImage {
    pub size: [usize; 2],
    pub pixels: Vec<Color>,
}

/// Solid cells are black, carved cells of the first cavern's region green, all other
/// carved cells white.
pub open spec fn color_of(c: Cell) -> Color {
    if !c.open {
        Color { r: 0, g: 0, b: 0 }
    } else if c.region == Some(0usize) {
        Color { r: 0, g: 255, b: 0 }
    } else {
        Color { r: 255, g: 255, b: 255 }
    }
}

/// The colour in which a cell is shown.
pub fn cell_color(c: Cell) -> (color: Color)
    ensures
        color == color_of(c),
{
    if !c.open {
        Color { r: 0, g: 0, b: 0 }
    } else {
        match c.region {
            Some(0) => Color { r: 0, g: 255, b: 0 },
            _ => Color { r: 255, g: 255, b: 255 },
        }
    }
}

impl Grid {
    /// Renders the grid, one pixel per cell, row by row.
    pub fn to_color_image(&self) -> (image: ColorImage)
        requires
            self@.wf(),
        ensures
            image.size@ == seq![self@.width as usize, self@.height as usize],
            image.pixels@.len() == self@.cells.len(),
            forall|i: int|
                0 <= i < self@.cells.len() ==> #[trigger] image.pixels@[i] == color_of(
                    self@.cells[i],
                ),
    {
        let width = self.width();
        let height = self.height();
        let mut pixels: Vec<Color> = Vec::new();
        let mut y: usize = 0;
        while y < height
            invariant
                self@.wf(),
                width == self@.width,
                height == self@.height,
                y <= height,
                pixels@.len() == y * width,
                forall|i: int|
                    0 <= i < pixels@.len() ==> #[trigger] pixels@[i] == color_of(self@.cells[i]),
            decreases height - y,
        {
            let mut x: usize = 0;
            while x < width
                invariant
                    self@.wf(),
                    width == self@.width,
                    height == self@.height,
                    y < height,
                    x <= width,
                    pixels@.len() == y * width + x,
                    forall|i: int|
                        0 <= i < pixels@.len() ==> #[trigger] pixels@[i] == color_of(
                            self@.cells[i],
                        ),
                decreases width - x,
            {
                let cell = match self.get(x, y) {
                    Some(cell) => cell,
                    None => Cell { open: false, region: None },
                };
                pixels.push(cell_color(cell));
                x = x + 1;
            }
            proof {
                assert(y * width + width == (y + 1) * width) by (nonlinear_arith);
            }
            y = y + 1;
        }
        proof {
            assert(height * width == width * height) by (nonlinear_arith);
        }
        ColorImage { size: [width, height], pixels }
    }
}

} // verus!
