use maze_graph::coords::{in_bounds, one_to_two_D, two_to_one_D};
use maze_graph::error::MazeError;
use maze_graph::border::{classify_border, collect_border, resolve_endpoints, start_end_detect};
use maze_graph::graph::{Direction, Grid, Node};
use maze_graph::pipeline::maze_to_graph;
use maze_graph::pixels::{perform_image_check, Color, PixelBuffer};
use maze_graph::topology::{find_nodes, is_node};

const BACK: Color = Color { r: 0, g: 0, b: 0 };
const PATH: Color = Color { r: 255, g: 255, b: 255 };
const RED: Color = Color { r: 255, g: 0, b: 0 };
const BLUE: Color = Color { r: 0, g: 0, b: 255 };

/// Builds an image from rows of characters: `#` background, `.` path,
/// `r` red, `b` blue.
fn image(rows: &[&str]) -> PixelBuffer {
    let height = rows.len() as u32;
    let width = rows[0].len() as u32;
    let mut pixels = Vec::new();
    for row in rows {
        for ch in row.chars() {
            pixels.push(match ch {
                '#' => BACK,
                '.' => PATH,
                'r' => RED,
                'b' => BLUE,
                _ => panic!("unknown pixel {}", ch),
            });
        }
    }
    PixelBuffer::new(width, height, pixels).unwrap()
}

fn l_turn_maze() -> PixelBuffer {
    image(&[
        "##.##",
        "##.##",
        "##...",
        "#####",
        "#####",
    ])
}

#[test]
fn index_round_trip_concrete() {
    for i in 0..12usize {
        let (row, col) = one_to_two_D(i, 3, 4).unwrap();
        assert_eq!(two_to_one_D(row, col, 3, 4), Ok(i));
    }
    assert_eq!(one_to_two_D(7, 3, 4), Ok((2, 1)));
    assert_eq!(two_to_one_D(2, 1, 3, 4), Ok(7));
}

#[test]
fn index_out_of_bounds() {
    assert_eq!(one_to_two_D(12, 3, 4), Err(MazeError::OutOfBounds));
    assert_eq!(one_to_two_D(0, 0, 4), Err(MazeError::OutOfBounds));
    assert_eq!(two_to_one_D(4, 0, 3, 4), Err(MazeError::OutOfBounds));
    assert_eq!(two_to_one_D(3, 2, 3, 4), Ok(11));
}

#[test]
fn bounds_of_signed_positions() {
    assert!(in_bounds(3, 4, 0, 0));
    assert!(in_bounds(3, 4, 2, 3));
    assert!(!in_bounds(3, 4, -1, 0));
    assert!(!in_bounds(3, 4, 3, 0));
    assert!(!in_bounds(3, 4, 0, 4));
}

#[test]
fn pixel_buffer_size_must_match() {
    assert!(PixelBuffer::new(2, 2, vec![BACK; 3]).is_none());
    assert!(PixelBuffer::new(2, 2, vec![BACK; 4]).is_some());
}

#[test]
fn border_scan_order() {
    let border = collect_border(3, 3);
    assert_eq!(
        border,
        vec![(0, 0), (0, 1), (0, 2), (1, 2), (2, 0), (2, 1), (2, 2), (1, 0)]
    );
    assert_eq!(collect_border(3, 1), vec![(0, 0), (0, 1), (0, 2)]);
    assert_eq!(collect_border(1, 3), vec![(0, 0), (1, 0), (2, 0)]);
    assert_eq!(collect_border(0, 0), Vec::<(u32, u32)>::new());
}

#[test]
fn l_turn_scenario() {
    let maze = l_turn_maze();
    let (start, end, path, back) = start_end_detect(&maze).unwrap();
    assert_eq!(start, (0, 2));
    assert_eq!(end, (2, 4));
    assert_eq!(path, PATH);
    assert_eq!(back, BACK);

    let nodes = find_nodes(&maze, PATH);
    assert_eq!(nodes, vec![(0, 2), (2, 2), (2, 4)]);

    let grid = maze_to_graph(&maze).unwrap();
    assert_eq!(grid.dimensions(), (5, 5));
    let top = grid.get(0, 2).unwrap();
    assert!(top.is_start_node);
    assert!(!top.is_end_node);
    assert_eq!(top.s_node, Some((2, 2)));
    assert_eq!(top.n_node, None);
    assert_eq!(top.e_node, None);
    assert_eq!(top.w_node, None);
    let corner = grid.get(2, 2).unwrap();
    assert_eq!(corner.n_node, Some((0, 2)));
    assert_eq!(corner.e_node, Some((2, 4)));
    assert_eq!(corner.s_node, None);
    assert_eq!(corner.w_node, None);
    let exit = grid.get(2, 4).unwrap();
    assert!(exit.is_end_node);
    assert_eq!(exit.w_node, Some((2, 2)));
    assert!(grid.get(1, 2).is_none());
    assert!(grid.get(2, 3).is_none());
    let mut count = 0;
    for row in 0..5 {
        for col in 0..5 {
            if grid.get(row, col).is_some() {
                count += 1;
            }
        }
    }
    assert_eq!(count, 3);
}

#[test]
fn marker_in_corner_refused() {
    let maze = image(&[
        ".####",
        "#...#",
        "#...#",
        "#...#",
        "##.##",
    ]);
    assert_eq!(start_end_detect(&maze), Err(MazeError::MarkerInCorner));
    assert!(matches!(maze_to_graph(&maze), Err(MazeError::MarkerInCorner)));
}

#[test]
fn stray_interior_color_refused() {
    let maze = image(&[
        "##.##",
        "##.##",
        "##r..",
        "#####",
        "#####",
    ]);
    assert!(start_end_detect(&maze).is_ok());
    assert!(!perform_image_check(&maze, &PATH, &BACK));
    assert!(matches!(maze_to_graph(&maze), Err(MazeError::InvalidColorOutsideBorder)));
}

#[test]
fn three_border_colors_refused() {
    let maze = image(&[
        "##.##",
        "#...#",
        "r...#",
        "#...#",
        "##.b#",
    ]);
    assert_eq!(classify_border(&maze), Err(MazeError::TooManyColors));
    assert_eq!(start_end_detect(&maze), Err(MazeError::TooManyColors));
}

#[test]
fn one_border_color_refused() {
    let maze = image(&["###", "#.#", "###"]);
    assert_eq!(start_end_detect(&maze), Err(MazeError::TooManyColors));
}

#[test]
fn no_unique_marker_reports_more_frequent_color() {
    let maze = image(&["#.#", "...", "#.#"]);
    assert_eq!(
        start_end_detect(&maze),
        Err(MazeError::NoUniqueMarkerColor(BACK))
    );
    let maze = image(&["...", "...", "..#"]);
    assert_eq!(
        start_end_detect(&maze),
        Err(MazeError::NoUniqueMarkerColor(PATH))
    );
}

#[test]
fn markers_in_scan_order() {
    let maze = l_turn_maze();
    let info = classify_border(&maze).unwrap();
    assert_eq!(info.first_marker, 2);
    assert_eq!(info.second_marker, 14);
    assert_eq!(info.path_color, PATH);
    assert_eq!(info.back_color, BACK);
}

#[test]
fn endpoints_nearer_marker_starts() {
    assert_eq!(resolve_endpoints(14, 2, 5, 5), Ok(((0, 2), (2, 4))));
    assert_eq!(resolve_endpoints(2, 14, 5, 5), Ok(((0, 2), (2, 4))));
    assert_eq!(resolve_endpoints(4, 14, 5, 5), Err(MazeError::MarkerInCorner));
    assert_eq!(resolve_endpoints(2, 25, 5, 5), Err(MazeError::OutOfBounds));
}

#[test]
fn equidistant_markers_first_found_starts() {
    // (0, 3) and (3, 0) are both at squared distance 9.
    assert_eq!(resolve_endpoints(3, 15, 5, 5), Ok(((0, 3), (3, 0))));
    assert_eq!(resolve_endpoints(15, 3, 5, 5), Ok(((3, 0), (0, 3))));
}

#[test]
fn endpoints_distinct_on_border_and_ordered() {
    let maze = image(&[
        "#####",
        "#...#",
        "#.#..",
        "..#.#",
        "#####",
    ]);
    let (start, end, _, _) = start_end_detect(&maze).unwrap();
    assert_ne!(start, end);
    for (row, col) in [start, end] {
        assert!(row == 0 || row == 4 || col == 0 || col == 4);
    }
    let d = |p: (u32, u32)| p.0 * p.0 + p.1 * p.1;
    assert!(d(start) <= d(end));
    assert_eq!(start, (3, 0));
    assert_eq!(end, (2, 4));
}

#[test]
fn isolated_pixel_is_not_a_node() {
    let maze = image(&["#####", "#.###", "#####"]);
    assert!(!is_node(&maze, PATH, 1, 1));
    assert!(find_nodes(&maze, PATH).is_empty());
}

#[test]
fn node_kinds() {
    let maze = image(&[
        "#.#.#",
        "...##",
        "#.###",
    ]);
    // Arguments are (col, row). Row 1, column 1 has four path neighbours.
    assert!(is_node(&maze, PATH, 1, 1));
    // Dead ends at (1, 0), (0, 1), (2, 1) and (1, 2).
    assert!(is_node(&maze, PATH, 0, 1));
    assert!(is_node(&maze, PATH, 1, 0));
    assert!(is_node(&maze, PATH, 1, 2));
    assert!(is_node(&maze, PATH, 2, 1));
    // (0, 3) has no path neighbour.
    assert!(!is_node(&maze, PATH, 3, 0));
    // A background pixel.
    assert!(!is_node(&maze, PATH, 0, 0));
}

#[test]
fn corner_and_straight_pixels() {
    let maze = image(&[
        "#####",
        "#...#",
        "#.#.#",
        "#####",
    ]);
    // Corners at (1, 1) and (1, 3); (1, 2) lies on a straight run.
    assert!(is_node(&maze, PATH, 1, 1));
    assert!(is_node(&maze, PATH, 3, 1));
    assert!(!is_node(&maze, PATH, 2, 1));
    // Dead ends at (2, 1) and (2, 3).
    assert!(is_node(&maze, PATH, 1, 2));
    assert!(is_node(&maze, PATH, 3, 2));
}

#[test]
fn straight_corridor_links_its_ends() {
    let maze = image(&[
        "#####",
        "#####",
        ".....",
        "#####",
    ]);
    let nodes = find_nodes(&maze, PATH);
    assert_eq!(nodes, vec![(2, 0), (2, 4)]);
    let mut grid = Grid::new(5, 4, (2, 0), (2, 4));
    grid.init(nodes);
    grid.connect_horiz(&maze, PATH);
    grid.connect_vertical(&maze, PATH);
    let west = grid.get(2, 0).unwrap();
    assert_eq!(west.e_node, Some((2, 4)));
    assert_eq!(west.w_node, None);
    assert!(west.is_start_node);
    let east = grid.get(2, 4).unwrap();
    assert_eq!(east.w_node, Some((2, 0)));
    assert!(east.is_end_node);
    for col in 1..4 {
        assert!(grid.get(2, col).is_none());
    }
}

#[test]
fn find_link_stops_at_background() {
    let maze = image(&["..#..", "#####"]);
    let mut grid = Grid::new(5, 2, (0, 0), (0, 4));
    grid.init(vec![(0, 0), (0, 1), (0, 3), (0, 4)]);
    assert_eq!(grid.find_link(&maze, PATH, 0, 1, Direction::East), None);
    assert_eq!(grid.find_link(&maze, PATH, 0, 0, Direction::East), Some((0, 1)));
    assert_eq!(grid.find_link(&maze, PATH, 0, 3, Direction::West), None);
    assert_eq!(grid.find_link(&maze, PATH, 0, 4, Direction::North), None);
}

#[test]
fn grid_put_get() {
    let mut grid = Grid::new(3, 2, (0, 1), (1, 2));
    assert!(grid.get(1, 1).is_none());
    let previous = grid.put(Some(Node::new(1, 1)), 1, 1);
    assert!(previous.is_none());
    assert_eq!(grid.get(1, 1).unwrap().location, (1, 1));
    assert_eq!(grid.get_mut(1, 1).unwrap().location, (1, 1));
    let previous = grid.put(None, 1, 1);
    assert_eq!(previous.unwrap().location, (1, 1));
    assert!(grid.get(1, 1).is_none());
}

#[test]
fn node_new_is_unlinked() {
    let node = Node::new(4, 7);
    assert_eq!(node.location, (4, 7));
    assert_eq!(node.n_node, None);
    assert_eq!(node.e_node, None);
    assert_eq!(node.s_node, None);
    assert_eq!(node.w_node, None);
    assert!(!node.is_start_node);
    assert!(!node.is_end_node);
}
