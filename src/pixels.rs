//! The decoded image: a row-major buffer of colours with known dimensions.

use vstd::prelude::*;
use crate::coords::{index_of, lemma_index_in_range};

verus! {

/// One colour of the image, as red, green and blue intensities.
#[derive(Clone, Copy, Debug, PartialEq, Eq, Structural)]
pub struct Color {
    pub r: u8,
    pub g: u8,
    pub b: u8,
}

/// A rectangular, row-major buffer of pixel colours.
#[derive(Debug)]
pub struct PixelBuffer {
    pub width: u32,
    pub height: u32,
    pub pixels: Vec<Color>,
}

impl PixelBuffer {
    /// The buffer holds exactly one colour per pixel.
    pub open spec fn wf(&self) -> bool {
        self.pixels@.len() == self.width * self.height
    }

    /// The colour at `(row, col)`.
    pub open spec fn color(&self, row: int, col: int) -> Color {
        self.pixels@[index_of(row, col, self.width as int)]
    }

    /// Whether `(row, col)` lies inside the image and has colour `c`.
    pub open spec fn has_color(&self, row: int, col: int, c: Color) -> bool {
        0 <= row < self.height && 0 <= col < self.width && self.color(row, col) == c
    }

    /// The pixel count of a well-formed buffer fits in a `usize`.
    pub proof fn lemma_area_fits_usize(&self)
        requires
            self.wf(),
        ensures
            self.width * self.height <= usize::MAX,
    {
        assert(self.pixels.len() == self.pixels@.len());
    }

    /// Wraps `pixels` as a `width` by `height` image; `None` when the number
    /// of pixels does not match the dimensions.
    pub fn new(width: u32, height: u32, pixels: Vec<Color>) -> (r: Option<PixelBuffer>)
        ensures
            match r {
                Some(b) => b.wf() && b.width == width && b.height == height && b.pixels@
                    == pixels@,
                None => pixels@.len() != width * height,
            },
    {
        proof {
            crate::coords::lemma_area_fits(width, height);
        }
        if pixels.len() as u64 == width as u64 * height as u64 {
            Some(PixelBuffer { width, height, pixels })
        } else {
            None
        }
    }

    /// The colour at `(row, col)`.
    pub fn color_at(&self, row: u32, col: u32) -> (c: Color)
        requires
            self.wf(),
            row < self.height,
            col < self.width,
        ensures
            c == self.color(row as int, col as int),
    {
        proof {
            self.lemma_area_fits_usize();
            lemma_index_in_range(row as int, col as int, self.width as int, self.height as int);
            assert((row as int) * (self.width as int) + (col as int) < self.pixels@.len());
        }
        let index: usize = row as usize * self.width as usize + col as usize;
        self.pixels[index]
    }
}

/// Whether every pixel of `m` has colour `a` or colour `b`.
pub open spec fn two_colored(m: PixelBuffer, a: Color, b: Color) -> bool {
    forall|i: int| 0 <= i < m.pixels@.len() ==> #[trigger] m.pixels@[i] == a || m.pixels@[i] == b
}

/// Checks that every pixel of `maze` is either the path colour or the
/// background colour.
pub fn perform_image_check(maze: &PixelBuffer, path_color: &Color, back_color: &Color) -> (r: bool)
    ensures
        r == two_colored(*maze, *path_color, *back_color),
{
    let mut i: usize = 0;
    while i < maze.pixels.len()
        invariant
            i <= maze.pixels@.len(),
            forall|k: int| 0 <= k < i ==> #[trigger] maze.pixels@[k] == *path_color || maze.pixels@[k] == *back_color,
        decreases maze.pixels@.len() - i,
    {
        let pixel = maze.pixels[i];
        if pixel != *path_color && pixel != *back_color {
            return false;
        }
        i = i + 1;
    }
    true
}

} // verus!
