//! Deciding which path pixels are graph nodes: dead ends, corners and
//! junctions, as opposed to straight corridor pixels.

use vstd::prelude::*;
use crate::coords::{in_bounds, int_positions, lemma_int_positions_push};
use crate::pixels::{Color, PixelBuffer};

verus! {

/// Whether `(row, col)` is a path pixel of `m`.
pub open spec fn is_path(m: PixelBuffer, path: Color, row: int, col: int) -> bool {
    m.has_color(row, col, path)
}

/// How many of the four cardinal neighbours of `(row, col)` are path pixels.
pub open spec fn path_neighbours(m: PixelBuffer, path: Color, row: int, col: int) -> int {
    (if is_path(m, path, row - 1, col) { 1int } else { 0 }) + (if is_path(m, path, row, col + 1) {
        1int
    } else {
        0
    }) + (if is_path(m, path, row + 1, col) { 1int } else { 0 }) + (if is_path(m, path, row, col - 1) {
        1int
    } else {
        0
    })
}

/// Whether `(row, col)` is a node of the maze graph: a path pixel with one,
/// three or four path neighbours, or with two that are not opposite.
pub open spec fn graph_relevant(m: PixelBuffer, path: Color, row: int, col: int) -> bool {
    let count = path_neighbours(m, path, row, col);
    let straight_ew = is_path(m, path, row, col + 1) && is_path(m, path, row, col - 1);
    let straight_ns = is_path(m, path, row - 1, col) && is_path(m, path, row + 1, col);
    &&& is_path(m, path, row, col)
    &&& (count == 1 || count == 3 || count == 4 || (count == 2 && !(straight_ew || straight_ns)))
}

/// Whether `a` comes before `b` in row-major order.
pub open spec fn row_major_before(a: (int, int), b: (int, int)) -> bool {
    a.0 < b.0 || (a.0 == b.0 && a.1 < b.1)
}

/// Whether `(row, col)`, given as signed values, is a path pixel.
fn path_at(maze: &PixelBuffer, path_color: Color, col: i64, row: i64) -> (r: bool)
    requires
        maze.wf(),
    ensures
        r == is_path(*maze, path_color, row as int, col as int),
{
    if in_bounds(maze.width, maze.height, col, row) {
        maze.color_at(row as u32, col as u32) == path_color
    } else {
        false
    }
}

/// Whether pixel `(row, col)` is a node of the maze graph.
pub fn is_node(maze: &PixelBuffer, path_color: Color, col: u32, row: u32) -> (r: bool)
    requires
        maze.wf(),
        col < maze.width,
        row < maze.height,
    ensures
        r == graph_relevant(*maze, path_color, row as int, col as int),
{
    if maze.color_at(row, col) != path_color {
        return false;
    }
    let east = path_at(maze, path_color, col as i64 + 1, row as i64);
    let west = path_at(maze, path_color, col as i64 - 1, row as i64);
    let south = path_at(maze, path_color, col as i64, row as i64 + 1);
    let north = path_at(maze, path_color, col as i64, row as i64 - 1);
    let count: u8 = (if east { 1u8 } else { 0 }) + (if west { 1u8 } else { 0 }) + (if south {
        1u8
    } else {
        0
    }) + (if north { 1u8 } else { 0 });
    let line_ew = east && west;
    let line_ns = north && south;
    count == 1 || (count == 2 && !(line_ns || line_ew)) || count == 3 || count == 4
}

/// Lists the node positions `(row, col)` of `maze` in row-major order.
pub fn find_nodes(maze: &PixelBuffer, path_color: Color) -> (r: Vec<(u32, u32)>)
    requires
        maze.wf(),
    ensures
        ({
            let v = int_positions(r@);
            &&& forall|k: int|
                0 <= k < v.len() ==> 0 <= #[trigger] v[k].0 < maze.height && 0 <= v[k].1 < maze.width
                    && graph_relevant(*maze, path_color, v[k].0, v[k].1)
            &&& forall|j: int, k: int|
                0 <= j < k < v.len() ==> row_major_before(#[trigger] v[j], #[trigger] v[k])
            &&& forall|row: int, col: int|
                0 <= row < maze.height && 0 <= col < maze.width && #[trigger] graph_relevant(
                    *maze,
                    path_color,
                    row,
                    col,
                ) ==> v.contains((row, col))
        }),
{
    let mut ret: Vec<(u32, u32)> = Vec::new();
    let width = maze.width;
    let height = maze.height;
    let mut row: u32 = 0;
    while row < height
        invariant
            maze.wf(),
            width == maze.width,
            height == maze.height,
            row <= height,
            forall|k: int|
                0 <= k < int_positions(ret@).len() ==> 0 <= #[trigger] int_positions(ret@)[k].0 < row
                    && 0 <= int_positions(ret@)[k].1 < width && graph_relevant(
                    *maze,
                    path_color,
                    int_positions(ret@)[k].0,
                    int_positions(ret@)[k].1,
                ),
            forall|j: int, k: int|
                0 <= j < k < int_positions(ret@).len() ==> row_major_before(
                    #[trigger] int_positions(ret@)[j],
                    #[trigger] int_positions(ret@)[k],
                ),
            forall|r: int, c: int|
                0 <= r < row && 0 <= c < width && #[trigger] graph_relevant(*maze, path_color, r, c)
                    ==> int_positions(ret@).contains((r, c)),
        decreases height - row,
    {
        let mut col: u32 = 0;
        while col < width
            invariant
                maze.wf(),
                width == maze.width,
                height == maze.height,
                row < height,
                col <= width,
                forall|k: int|
                    0 <= k < int_positions(ret@).len() ==> 0 <= #[trigger] int_positions(ret@)[k].0 < height
                        && 0 <= int_positions(ret@)[k].1 < width && row_major_before(
                        int_positions(ret@)[k],
                        (row as int, col as int),
                    ) && graph_relevant(
                        *maze,
                        path_color,
                        int_positions(ret@)[k].0,
                        int_positions(ret@)[k].1,
                    ),
                forall|j: int, k: int|
                    0 <= j < k < int_positions(ret@).len() ==> row_major_before(
                        #[trigger] int_positions(ret@)[j],
                        #[trigger] int_positions(ret@)[k],
                    ),
                forall|r: int, c: int|
                    0 <= r < height && 0 <= c < width && row_major_before((r, c), (row as int, col as int))
                        && #[trigger] graph_relevant(*maze, path_color, r, c)
                        ==> int_positions(ret@).contains((r, c)),
            decreases width - col,
        {
            if is_node(maze, path_color, col, row) {
                let ghost old_v = int_positions(ret@);
                proof {
                    lemma_int_positions_push(ret@, (row, col));
                }
                ret.push((row, col));
                proof {
                    let v = int_positions(ret@);
                    assert(v[old_v.len() as int] == (row as int, col as int));
                    assert forall|r: int, c: int|
                        0 <= r < height && 0 <= c < width && row_major_before(
                            (r, c),
                            (row as int, col as int + 1),
                        ) && #[trigger] graph_relevant(*maze, path_color, r, c) implies v.contains(
                        (r, c),
                    ) by {
                        if r == row && c == col {
                            assert(v[old_v.len() as int] == (r, c));
                        } else {
                            let k = choose|k: int| 0 <= k < old_v.len() && old_v[k] == (r, c);
                            assert(v[k] == (r, c));
                        }
                    }
                }
            }
            col = col + 1;
        }
        row = row + 1;
    }
    ret
}

/// In an image whose only path pixel is `(row, col)`, no pixel is a node:
/// a path pixel without path neighbours is no dead end, corner or junction.
pub proof fn lemma_isolated_pixel_not_node(m: PixelBuffer, path: Color, row: int, col: int)
    requires
        0 <= row < m.height,
        0 <= col < m.width,
        forall|r: int, c: int|
            0 <= r < m.height && 0 <= c < m.width && (r != row || c != col) ==> #[trigger] m.color(r, c) != path,
    ensures
        path_neighbours(m, path, row, col) == 0,
        forall|r: int, c: int| !#[trigger] graph_relevant(m, path, r, c),
{
    assert(!is_path(m, path, row - 1, col));
    assert(!is_path(m, path, row + 1, col));
    assert(!is_path(m, path, row, col - 1));
    assert(!is_path(m, path, row, col + 1));
    assert forall|r: int, c: int| !#[trigger] graph_relevant(m, path, r, c) by {
        if is_path(m, path, r, c) {
            assert(r == row && c == col);
        }
    }
}

} // verus!
