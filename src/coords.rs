//! Conversion between linear pixel indices and (row, column) positions in a
//! row-major image.

use vstd::prelude::*;
use crate::error::MazeError;

verus! {

/// The linear index of position `(row, col)` in an image `width` pixels wide.
pub open spec fn index_of(row: int, col: int, width: int) -> int {
    row * width + col
}

/// The position `(row, col)` of linear index `index` in an image `width` pixels wide.
pub open spec fn position_of(index: int, width: int) -> (int, int) {
    (index / width, index % width)
}

pub proof fn lemma_index_in_range(row: int, col: int, width: int, height: int)
    requires
        0 <= row < height,
        0 <= col < width,
    ensures
        0 <= index_of(row, col, width) < width * height,
{
    assert(row * width + col < width * height) by (nonlinear_arith)
        requires 0 <= row < height, 0 <= col < width;
    assert(0 <= row * width) by (nonlinear_arith)
        requires 0 <= row, 0 <= width;
}

/// Converting a linear index to a position and back gives the index again,
/// and the position lies inside the image.
pub proof fn lemma_index_round_trip(index: int, width: int, height: int)
    requires
        0 <= index < width * height,
        0 <= width,
        0 <= height,
    ensures
        0 <= position_of(index, width).0 < height,
        0 <= position_of(index, width).1 < width,
        index_of(position_of(index, width).0, position_of(index, width).1, width) == index,
{
    assert(width > 0) by (nonlinear_arith)
        requires 0 <= index < width * height, 0 <= height;
    vstd::arithmetic::div_mod::lemma_fundamental_div_mod(index, width);
    vstd::arithmetic::div_mod::lemma_div_pos_is_pos(index, width);
    vstd::arithmetic::div_mod::lemma_mod_bound(index, width);
    assert(index / width < height) by (nonlinear_arith)
        requires
            index == width * (index / width) + index % width,
            0 <= index % width,
            index < width * height,
            width > 0;
    vstd::arithmetic::mul::lemma_mul_is_commutative(width, index / width);
}

/// The number of pixels of an image fits in 64 bits.
pub proof fn lemma_area_fits(width: u32, height: u32)
    ensures
        width as int * height as int <= 0xffff_fffe_0000_0001,
{
    assert(width as int * height as int <= 0xffff_ffff * 0xffff_ffff) by (nonlinear_arith)
        requires 0 <= width <= 0xffff_ffff, 0 <= height <= 0xffff_ffff;
}

/// A position inside the image is recovered from its linear index.
pub proof fn lemma_position_of_index(row: int, col: int, width: int, height: int)
    requires
        0 <= row < height,
        0 <= col < width,
    ensures
        position_of(index_of(row, col, width), width) == (row, col),
{
    lemma_index_in_range(row, col, width, height);
    let i = index_of(row, col, width);
    lemma_index_round_trip(i, width, height);
    lemma_index_injective(position_of(i, width).0, position_of(i, width).1, row, col, width);
}

/// Positions inside an image with equal linear indices are equal.
pub proof fn lemma_index_injective(r1: int, c1: int, r2: int, c2: int, width: int)
    requires
        0 <= c1 < width,
        0 <= c2 < width,
        0 <= r1,
        0 <= r2,
        index_of(r1, c1, width) == index_of(r2, c2, width),
    ensures
        r1 == r2,
        c1 == c2,
{
    if r1 < r2 {
        assert(r1 * width + c1 < r2 * width + c2) by (nonlinear_arith)
            requires r1 < r2, 0 <= c1 < width, 0 <= c2;
    } else if r2 < r1 {
        assert(r2 * width + c2 < r1 * width + c1) by (nonlinear_arith)
            requires r2 < r1, 0 <= c2 < width, 0 <= c1;
    }
}

/// The positions `v` stands for, as pairs of integers.
pub open spec fn int_positions(v: Seq<(u32, u32)>) -> Seq<(int, int)> {
    v.map_values(|p: (u32, u32)| (p.0 as int, p.1 as int))
}

pub proof fn lemma_int_positions_push(v: Seq<(u32, u32)>, p: (u32, u32))
    ensures
        int_positions(v.push(p)) == int_positions(v).push((p.0 as int, p.1 as int)),
{
    assert(int_positions(v.push(p)) =~= int_positions(v).push((p.0 as int, p.1 as int)));
}

/// Two distinct positions inside an image have distinct linear indices.
pub proof fn lemma_index_injective_contra(r1: int, c1: int, r2: int, c2: int, width: int)
    requires
        0 <= c1 < width,
        0 <= c2 < width,
        0 <= r1,
        0 <= r2,
        r1 != r2 || c1 != c2,
    ensures
        index_of(r1, c1, width) != index_of(r2, c2, width),
{
    if index_of(r1, c1, width) == index_of(r2, c2, width) {
        lemma_index_injective(r1, c1, r2, c2, width);
    }
}

/// Converts linear index `index` into a `(row, col)` position of a
/// `width` by `height` image; fails when the index lies past the last pixel.
#[allow(non_snake_case)]
pub fn one_to_two_D(index: usize, width: u32, height: u32) -> (r: Result<(u32, u32), MazeError>)
    ensures
        match r {
            Ok((row, col)) => index < width * height
                && (row as int, col as int) == position_of(index as int, width as int),
            Err(e) => e == MazeError::OutOfBounds && index >= width * height,
        },
{
    proof {
        lemma_area_fits(width, height);
    }
    let area: u64 = width as u64 * height as u64;
    if index as u64 >= area {
        return Err(MazeError::OutOfBounds);
    }
    proof {
        lemma_index_round_trip(index as int, width as int, height as int);
    }
    let row: u64 = index as u64 / width as u64;
    let col: u64 = index as u64 % width as u64;
    Ok((row as u32, col as u32))
}

/// Converts position `(row, col)` into the linear index of a `width` by
/// `height` image; fails when that index lies past the last pixel.
#[allow(non_snake_case)]
pub fn two_to_one_D(row: u32, col: u32, width: u32, height: u32) -> (r: Result<usize, MazeError>)
    requires
        width * height <= usize::MAX,
    ensures
        match r {
            Ok(index) => index as int == index_of(row as int, col as int, width as int)
                && index < width * height,
            Err(e) => e == MazeError::OutOfBounds
                && index_of(row as int, col as int, width as int) >= width * height,
        },
{
    proof {
        lemma_area_fits(row, width);
        lemma_area_fits(width, height);
    }
    let index: u64 = row as u64 * width as u64 + col as u64;
    let area: u64 = width as u64 * height as u64;
    if index >= area {
        return Err(MazeError::OutOfBounds);
    }
    Ok(index as usize)
}

/// Whether `(row, col)`, given as signed values, lies inside a `width` by
/// `height` image.
pub fn in_bounds(width: u32, height: u32, col: i64, row: i64) -> (r: bool)
    ensures
        r == (0 <= col < width && 0 <= row < height),
{
    col >= 0 && col < width as i64 && row >= 0 && row < height as i64
}

} // verus!
