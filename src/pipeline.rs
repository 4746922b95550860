//! The whole conversion: from a pixel buffer to the finished maze graph.

use vstd::prelude::*;
use crate::border::{border_colors, border_positions, marker_colors, border_error, is_marker_pair,
    is_corner, order_endpoints, start_end_detect, lemma_marker_pair_unique};
use crate::coords::{index_of, position_of, lemma_index_round_trip, lemma_position_of_index,
    lemma_index_in_range, int_positions};
use crate::error::MazeError;
use crate::graph::{Grid, graph_cell, node_map, occupancy};
use crate::pixels::{PixelBuffer, two_colored, perform_image_check};
use crate::topology::{find_nodes, graph_relevant};

verus! {

/// Converts `maze` into its graph: reads the palette and the entrance and
/// exit from the border, checks that every pixel has one of the two
/// colours, places a node at every graph-relevant pixel and links the nodes
/// along the corridors.
pub fn maze_to_graph(maze: &PixelBuffer) -> (r: Result<Grid, MazeError>)
    requires
        maze.wf(),
    ensures
        ({
            let bc = border_colors(*maze);
            let bp = border_positions(maze.width as int, maze.height as int);
            let w = maze.width as int;
            let h = maze.height as int;
            match r {
                Ok(g) => marker_colors(bc) matches Some((path, back)) && two_colored(*maze, path, back)
                    && exists|k1: int, k2: int|
                        is_marker_pair(bc, path, k1, k2) && !is_corner(bp[k1], w, h) && !is_corner(bp[k2], w, h)
                        && ((g@.start.0 as int, g@.start.1 as int), (g@.end.0 as int, g@.end.1 as int))
                            == order_endpoints(bp[k1], bp[k2])
                        && g.wf() && g@.width == maze.width && g@.height == maze.height
                        && forall|row: int, col: int|
                            0 <= row < h && 0 <= col < w ==> #[trigger] g@.cells[index_of(row, col, w)]
                                == graph_cell(*maze, path, g@.start, g@.end, row, col),
                Err(err) => if marker_colors(bc) is None {
                    err == border_error(bc)
                } else if exists|k1: int, k2: int|
                    is_marker_pair(bc, (marker_colors(bc)->Some_0).0, k1, k2) && (is_corner(bp[k1], w, h)
                        || is_corner(bp[k2], w, h)) {
                    err == MazeError::MarkerInCorner
                } else {
                    err == MazeError::InvalidColorOutsideBorder && !two_colored(
                        *maze,
                        (marker_colors(bc)->Some_0).0,
                        (marker_colors(bc)->Some_0).1,
                    )
                },
            }
        }),
{
    let (start, end, path_color, back_color) = match start_end_detect(maze) {
        Ok(t) => t,
        Err(e) => {
            return Err(e);
        },
    };
    let ghost bc = border_colors(*maze);
    let ghost bp = border_positions(maze.width as int, maze.height as int);
    let ghost (k1, k2) = choose|k1: int, k2: int|
        is_marker_pair(bc, path_color, k1, k2) && !is_corner(bp[k1], maze.width as int, maze.height as int)
            && !is_corner(bp[k2], maze.width as int, maze.height as int)
            && ((start.0 as int, start.1 as int), (end.0 as int, end.1 as int))
            == order_endpoints(bp[k1], bp[k2]);
    if !perform_image_check(maze, &path_color, &back_color) {
        proof {
            assert forall|x: int, y: int| is_marker_pair(bc, path_color, x, y) implies !(is_corner(
                bp[x],
                maze.width as int,
                maze.height as int,
            ) || is_corner(bp[y], maze.width as int, maze.height as int)) by {
                lemma_marker_pair_unique(bc, path_color, k1, k2, x, y);
            }
        }
        return Err(MazeError::InvalidColorOutsideBorder);
    }
    proof {
        maze.lemma_area_fits_usize();
    }
    let mut grid = Grid::new(maze.width, maze.height, start, end);
    let node_positions = find_nodes(maze, path_color);
    let ghost positions = int_positions(node_positions@);
    assert forall|k: int| 0 <= k < node_positions@.len() implies #[trigger] node_positions@[k].0
        < maze.height && node_positions@[k].1 < maze.width by {
        assert(positions[k] == (node_positions@[k].0 as int, node_positions@[k].1 as int));
    }
    grid.init(node_positions);
    let ghost placed = grid@.cells;
    let ghost w = maze.width as int;
    let ghost h = maze.height as int;
    proof {
        assert forall|j: int| 0 <= j < placed.len() implies #[trigger] occupancy(placed)[j] == node_map(
            *maze,
            path_color,
        )[j] by {
            lemma_index_round_trip(j, w, h);
            let (row, col) = position_of(j, w);
            if graph_relevant(*maze, path_color, row, col) {
                assert(positions.contains((row, col)));
            }
            if positions.contains((row, col)) {
                let k = choose|k: int| 0 <= k < positions.len() && positions[k] == (row, col);
                assert(graph_relevant(*maze, path_color, positions[k].0, positions[k].1));
            }
        }
        assert(occupancy(placed) =~= node_map(*maze, path_color));
    }
    grid.connect_horiz(maze, path_color);
    let ghost across = grid@.cells;
    proof {
        assert(occupancy(across) =~= occupancy(placed));
    }
    grid.connect_vertical(maze, path_color);
    proof {
        assert forall|row: int, col: int| 0 <= row < h && 0 <= col < w implies #[trigger] grid@.cells[index_of(
            row,
            col,
            w,
        )] == graph_cell(*maze, path_color, grid@.start, grid@.end, row, col) by {
            lemma_index_in_range(row, col, w, h);
            lemma_position_of_index(row, col, w, h);
            let j = index_of(row, col, w);
            if graph_relevant(*maze, path_color, row, col) {
                assert(positions.contains((row, col)));
            }
            if positions.contains((row, col)) {
                let k = choose|k: int| 0 <= k < positions.len() && positions[k] == (row, col);
                assert(graph_relevant(*maze, path_color, positions[k].0, positions[k].1));
            }
        }
        assert(is_marker_pair(bc, path_color, k1, k2));
    }
    Ok(grid)
}

} // verus!
