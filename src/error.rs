//! The ways in which a maze image can be refused.

use vstd::prelude::*;
use crate::pixels::Color;

verus! {

/// Why a maze image was refused.
#[derive(Clone, Copy, Debug, PartialEq, Eq, Structural)]
pub enum MazeError {
    /// The border does not hold exactly two distinct colours.
    TooManyColors,
    /// Neither border colour occurs exactly twice; carries the more frequent one.
    NoUniqueMarkerColor(Color),
    /// Some pixel is neither the path colour nor the background colour.
    InvalidColorOutsideBorder,
    /// An entrance or exit marker sits on one of the four corners.
    MarkerInCorner,
    /// A linear index or a position lies outside the image.
    OutOfBounds,
}

} // verus!
