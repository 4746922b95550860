//! The maze graph: a dense table indexed by pixel position whose occupied
//! slots hold nodes, each linked to the nearest node in every cardinal
//! direction along a corridor of path pixels.

use vstd::prelude::*;
use crate::coords::{index_of, position_of, lemma_index_in_range, lemma_index_round_trip,
    int_positions, one_to_two_D};
use crate::pixels::{Color, PixelBuffer};
use crate::topology::{is_path, graph_relevant};

verus! {

/// A graph node: its position, its four direction links and whether it is
/// the maze's entrance or exit. Positions are `(row, col)`.
#[derive(Clone, Copy, Debug, PartialEq, Eq)]
pub struct Node {
    pub n_node: Option<(u32, u32)>,
    pub e_node: Option<(u32, u32)>,
    pub s_node: Option<(u32, u32)>,
    pub w_node: Option<(u32, u32)>,
    pub is_start_node: bool,
    pub is_end_node: bool,
    pub location: (u32, u32),
}

impl Node {
    /// A node at `(row, col)` with no links and no start or end mark.
    pub fn new(row: u32, col: u32) -> (n: Node)
        ensures
            n == (Node {
                n_node: None,
                e_node: None,
                s_node: None,
                w_node: None,
                is_start_node: false,
                is_end_node: false,
                location: (row, col),
            }),
    {
        Node {
            n_node: None,
            e_node: None,
            s_node: None,
            w_node: None,
            is_start_node: false,
            is_end_node: false,
            location: (row, col),
        }
    }
}

/// A cardinal direction; north is towards row 0, west towards column 0.
#[derive(Clone, Copy, Debug, PartialEq, Eq, Structural)]
pub enum Direction {
    North,
    East,
    South,
    West,
}

/// The position one step from `(row, col)` towards `d`.
pub open spec fn step(d: Direction, row: int, col: int) -> (int, int) {
    match d {
        Direction::North => (row - 1, col),
        Direction::East => (row, col + 1),
        Direction::South => (row + 1, col),
        Direction::West => (row, col - 1),
    }
}

/// How many steps towards `d` stay inside a `w` by `h` image.
pub open spec fn steps_left(d: Direction, row: int, col: int, w: int, h: int) -> int {
    match d {
        Direction::North => row,
        Direction::East => w - 1 - col,
        Direction::South => h - 1 - row,
        Direction::West => col,
    }
}

/// Which slots of `cells` hold a node.
pub open spec fn occupancy(cells: Seq<Option<Node>>) -> Seq<bool> {
    cells.map_values(|c: Option<Node>| c is Some)
}

/// The node reached from `(row, col)` by stepping towards `d` over path
/// pixels until a slot that holds a node; `None` when the walk leaves the
/// image or meets a pixel that is not path.
pub open spec fn walk(m: PixelBuffer, path: Color, occ: Seq<bool>, row: int, col: int, d: Direction) -> Option<(u32, u32)>
    decreases steps_left(d, row, col, m.width as int, m.height as int),
{
    let next = step(d, row, col);
    if !is_path(m, path, next.0, next.1) {
        None
    } else if occ[index_of(next.0, next.1, m.width as int)] {
        Some((next.0 as u32, next.1 as u32))
    } else {
        walk(m, path, occ, next.0, next.1, d)
    }
}

/// Slot `j` of `cells` after its node, if any, has been given its links
/// along one axis: east and west when `horizontal`, north and south if not.
pub open spec fn with_links(m: PixelBuffer, path: Color, cells: Seq<Option<Node>>, j: int, horizontal: bool) -> Option<Node> {
    let (row, col) = position_of(j, m.width as int);
    let occ = occupancy(cells);
    match cells[j] {
        None => None,
        Some(n) => Some(
            if horizontal {
                Node {
                    e_node: walk(m, path, occ, row, col, Direction::East),
                    w_node: walk(m, path, occ, row, col, Direction::West),
                    ..n
                }
            } else {
                Node {
                    n_node: walk(m, path, occ, row, col, Direction::North),
                    s_node: walk(m, path, occ, row, col, Direction::South),
                    ..n
                }
            },
        ),
    }
}

/// The node that the graph builder places at position `p`.
pub open spec fn fresh_node(p: (u32, u32), start: (u32, u32), end: (u32, u32)) -> Node {
    Node {
        n_node: None,
        e_node: None,
        s_node: None,
        w_node: None,
        is_start_node: p == start,
        is_end_node: p == end,
        location: p,
    }
}

/// Which slots of a `m.width` by `m.height` table hold a node: those whose
/// pixel is graph-relevant.
pub open spec fn node_map(m: PixelBuffer, path: Color) -> Seq<bool> {
    Seq::new(
        (m.width * m.height) as nat,
        |j: int| graph_relevant(m, path, position_of(j, m.width as int).0, position_of(j, m.width as int).1),
    )
}

/// The slot at `(row, col)` of the finished maze graph: a node exactly at
/// graph-relevant pixels, linked in each direction to the node that the
/// corridor in that direction leads to.
pub open spec fn graph_cell(m: PixelBuffer, path: Color, start: (u32, u32), end: (u32, u32), row: int, col: int) -> Option<Node> {
    let occ = node_map(m, path);
    if graph_relevant(m, path, row, col) {
        Some(
            Node {
                n_node: walk(m, path, occ, row, col, Direction::North),
                e_node: walk(m, path, occ, row, col, Direction::East),
                s_node: walk(m, path, occ, row, col, Direction::South),
                w_node: walk(m, path, occ, row, col, Direction::West),
                is_start_node: (row as u32, col as u32) == start,
                is_end_node: (row as u32, col as u32) == end,
                location: (row as u32, col as u32),
            },
        )
    } else {
        None
    }
}

/// Slot `index_of(row, col)` of the node map tells whether `(row, col)` is
/// graph-relevant.
pub proof fn lemma_node_map_at(m: PixelBuffer, path: Color, row: int, col: int)
    requires
        0 <= row < m.height,
        0 <= col < m.width,
    ensures
        0 <= index_of(row, col, m.width as int) < node_map(m, path).len(),
        node_map(m, path)[index_of(row, col, m.width as int)] == graph_relevant(m, path, row, col),
{
    lemma_index_in_range(row, col, m.width as int, m.height as int);
    crate::coords::lemma_position_of_index(row, col, m.width as int, m.height as int);
}

proof fn lemma_corridor_walk_east(m: PixelBuffer, path: Color, row: int, c1: int, c: int, c2: int)
    requires
        0 <= row < m.height,
        0 <= c1 <= c < c2 < m.width,
        forall|k: int| c1 <= k <= c2 ==> #[trigger] is_path(m, path, row, k),
        forall|k: int| c1 < k < c2 ==> !#[trigger] graph_relevant(m, path, row, k),
        graph_relevant(m, path, row, c2),
    ensures
        walk(m, path, node_map(m, path), row, c, Direction::East) == Some((row as u32, c2 as u32)),
    decreases c2 - c,
{
    assert(is_path(m, path, row, c + 1));
    lemma_node_map_at(m, path, row, c + 1);
    if c + 1 < c2 {
        lemma_corridor_walk_east(m, path, row, c1, c + 1, c2);
    }
}

proof fn lemma_corridor_walk_west(m: PixelBuffer, path: Color, row: int, c1: int, c: int, c2: int)
    requires
        0 <= row < m.height,
        0 <= c1 < c <= c2 < m.width,
        forall|k: int| c1 <= k <= c2 ==> #[trigger] is_path(m, path, row, k),
        forall|k: int| c1 < k < c2 ==> !#[trigger] graph_relevant(m, path, row, k),
        graph_relevant(m, path, row, c1),
    ensures
        walk(m, path, node_map(m, path), row, c, Direction::West) == Some((row as u32, c1 as u32)),
    decreases c - c1,
{
    assert(is_path(m, path, row, c - 1));
    lemma_node_map_at(m, path, row, c - 1);
    if c - 1 > c1 {
        lemma_corridor_walk_west(m, path, row, c1, c - 1, c2);
    }
}

/// A straight horizontal corridor of path pixels from `(row, c1)` to
/// `(row, c2)`, with no path pixel just above or below its inner pixels and
/// nodes at both ends: none of its inner pixels is a node, and the walks
/// that give the graph's links (see `graph_cell`) lead east from the first
/// end straight to the second, and west from the second to the first.
pub proof fn lemma_corridor_links_ends(m: PixelBuffer, path: Color, row: int, c1: int, c2: int)
    requires
        0 <= row < m.height,
        0 <= c1 < c2 < m.width,
        forall|k: int| c1 <= k <= c2 ==> #[trigger] is_path(m, path, row, k),
        forall|k: int|
            c1 < k < c2 ==> !#[trigger] is_path(m, path, row - 1, k) && !is_path(m, path, row + 1, k),
        graph_relevant(m, path, row, c1),
        graph_relevant(m, path, row, c2),
    ensures
        forall|k: int| c1 < k < c2 ==> !#[trigger] graph_relevant(m, path, row, k),
        walk(m, path, node_map(m, path), row, c1, Direction::East) == Some((row as u32, c2 as u32)),
        walk(m, path, node_map(m, path), row, c2, Direction::West) == Some((row as u32, c1 as u32)),
{
    assert forall|k: int| c1 < k < c2 implies !#[trigger] graph_relevant(m, path, row, k) by {
        assert(is_path(m, path, row, k - 1));
        assert(is_path(m, path, row, k + 1));
        assert(!is_path(m, path, row - 1, k));
    }
    lemma_corridor_walk_east(m, path, row, c1, c1, c2);
    lemma_corridor_walk_west(m, path, row, c1, c2, c2);
}

/// What a grid holds, as mathematical values.
pub struct GridView {
    pub width: u32,
    pub height: u32,
    pub cells: Seq<Option<Node>>,
    pub start: (u32, u32),
    pub end: (u32, u32),
}

/// The maze graph as a dense table with one slot per pixel, row-major.
pub struct Grid {
    width: u32,
    height: u32,
    grid: Vec<Option<Node>>,
    start: (u32, u32),
    end: (u32, u32),
}

impl View for Grid {
    type V = GridView;

    closed spec fn view(&self) -> GridView {
        GridView {
            width: self.width,
            height: self.height,
            cells: self.grid@,
            start: self.start,
            end: self.end,
        }
    }
}

impl Grid {
    /// One slot per pixel.
    pub open spec fn wf(&self) -> bool {
        self@.cells.len() == self@.width * self@.height
    }

    /// An empty `width` by `height` grid whose entrance is `start` and exit
    /// is `end`.
    pub fn new(width: u32, height: u32, start: (u32, u32), end: (u32, u32)) -> (g: Self)
        requires
            width * height <= usize::MAX,
        ensures
            g.wf(),
            g@.width == width,
            g@.height == height,
            g@.start == start,
            g@.end == end,
            forall|j: int| 0 <= j < g@.cells.len() ==> #[trigger] g@.cells[j] is None,
    {
        proof {
            crate::coords::lemma_area_fits(width, height);
        }
        let area: usize = (width as u64 * height as u64) as usize;
        let mut grid = Vec::<Option<Node>>::new();
        let mut i: usize = 0;
        while i < area
            invariant
                i <= area,
                area == width * height,
                grid@.len() == i,
                forall|j: int| 0 <= j < i ==> #[trigger] grid@[j] is None,
            decreases area - i,
        {
            grid.push(None);
            i = i + 1;
        }
        Grid { width, height, grid, start, end }
    }

    /// The slot index of `(row, col)`.
    fn slot(&self, row: u32, col: u32) -> (i: usize)
        requires
            self.wf(),
            row < self@.height,
            col < self@.width,
        ensures
            i as int == index_of(row as int, col as int, self@.width as int),
            i < self@.cells.len(),
    {
        proof {
            lemma_index_in_range(row as int, col as int, self.width as int, self.height as int);
            assert(self.grid.len() == self.grid@.len());
        }
        row as usize * self.width as usize + col as usize
    }

    /// The slot at `(row, col)`.
    pub fn get(&self, row: u32, col: u32) -> (r: &Option<Node>)
        requires
            self.wf(),
            row < self@.height,
            col < self@.width,
        ensures
            *r == self@.cells[index_of(row as int, col as int, self@.width as int)],
    {
        let index = self.slot(row, col);
        &self.grid[index]
    }

    /// The slot at `(row, col)`, read through a unique borrow.
    pub fn get_mut(&mut self, row: u32, col: u32) -> (r: &Option<Node>)
        requires
            old(self).wf(),
            row < old(self)@.height,
            col < old(self)@.width,
        ensures
            *r == old(self)@.cells[index_of(row as int, col as int, old(self)@.width as int)],
            *final(self) == *old(self),
    {
        let index = self.slot(row, col);
        &self.grid[index]
    }

    /// Stores `node` at `(row, col)` and returns what the slot held before.
    pub fn put(&mut self, node: Option<Node>, row: u32, col: u32) -> (r: Option<Node>)
        requires
            old(self).wf(),
            row < old(self)@.height,
            col < old(self)@.width,
        ensures
            r == old(self)@.cells[index_of(row as int, col as int, old(self)@.width as int)],
            final(self)@ == (GridView {
                cells: old(self)@.cells.update(
                    index_of(row as int, col as int, old(self)@.width as int),
                    node,
                ),
                ..old(self)@
            }),
    {
        let index = self.slot(row, col);
        let previous = self.grid[index];
        self.grid.set(index, node);
        previous
    }

    /// Places a fresh node, marked as entrance or exit where it lies on one,
    /// at each of `node_positions`.
    pub fn init(&mut self, node_positions: Vec<(u32, u32)>)
        requires
            old(self).wf(),
            forall|k: int|
                0 <= k < node_positions@.len() ==> #[trigger] node_positions@[k].0 < old(self)@.height
                    && node_positions@[k].1 < old(self)@.width,
        ensures
            final(self)@ == (GridView { cells: final(self)@.cells, ..old(self)@ }),
            final(self).wf(),
            forall|row: int, col: int|
                0 <= row < old(self)@.height && 0 <= col < old(self)@.width
                    ==> #[trigger] final(self)@.cells[index_of(row, col, old(self)@.width as int)] == if int_positions(
                    node_positions@,
                ).contains((row, col)) {
                    Some(fresh_node((row as u32, col as u32), old(self)@.start, old(self)@.end))
                } else {
                    old(self)@.cells[index_of(row, col, old(self)@.width as int)]
                },
    {
        let ghost before = self@;
        let ghost positions = int_positions(node_positions@);
        let mut k: usize = 0;
        while k < node_positions.len()
            invariant
                k <= node_positions@.len(),
                positions == int_positions(node_positions@),
                self.wf(),
                self@ == (GridView { cells: self@.cells, ..before }),
                forall|k: int|
                    0 <= k < node_positions@.len() ==> #[trigger] node_positions@[k].0 < before.height
                        && node_positions@[k].1 < before.width,
                forall|row: int, col: int|
                    0 <= row < before.height && 0 <= col < before.width
                        ==> #[trigger] self@.cells[index_of(row, col, before.width as int)] == if positions.take(
                        k as int,
                    ).contains((row, col)) {
                        Some(fresh_node((row as u32, col as u32), before.start, before.end))
                    } else {
                        before.cells[index_of(row, col, before.width as int)]
                    },
            decreases node_positions@.len() - k,
        {
            let (row, col) = node_positions[k];
            assert(node_positions@[k as int].0 < before.height);
            let mut node = Node::new(row, col);
            node.is_start_node = row == self.start.0 && col == self.start.1;
            node.is_end_node = row == self.end.0 && col == self.end.1;
            let ghost prev = self@.cells;
            self.put(Some(node), row, col);
            proof {
                let w = before.width as int;
                lemma_index_in_range(row as int, col as int, w, before.height as int);
                assert(self@.cells == prev.update(index_of(row as int, col as int, w), Some(node)));
                assert(positions[k as int] == (row as int, col as int));
                assert(positions.take(k as int + 1) =~= positions.take(k as int).push((row as int, col as int)));
                assert forall|r: int, c: int|
                    0 <= r < before.height && 0 <= c < before.width implies #[trigger] self@.cells[index_of(r, c, w)]
                        == if positions.take(k as int + 1).contains((r, c)) {
                        Some(fresh_node((r as u32, c as u32), before.start, before.end))
                    } else {
                        before.cells[index_of(r, c, w)]
                    } by {
                    lemma_index_in_range(r, c, w, before.height as int);
                    if r == row && c == col {
                        assert(positions.take(k as int + 1).last() == (r, c));
                    } else {
                        crate::coords::lemma_index_injective_contra(r, c, row as int, col as int, w);
                        if positions.take(k as int + 1).contains((r, c)) {
                            let i = choose|i: int| 0 <= i < k + 1 && #[trigger] positions.take(k as int + 1)[i] == (r, c);
                            assert(positions.take(k as int)[i] == (r, c));
                        }
                        if positions.take(k as int).contains((r, c)) {
                            let i = choose|i: int| 0 <= i < k && #[trigger] positions.take(k as int)[i] == (r, c);
                            assert(positions.take(k as int + 1)[i] == (r, c));
                        }
                    }
                }
            }
            k = k + 1;
        }
        assert(positions.take(node_positions@.len() as int) =~= positions);
    }

    /// The node reached from `(row, col)` by walking towards `d` over path
    /// pixels of `maze`; `None` when the walk leaves the image or meets a
    /// background pixel first.
    pub fn find_link(&self, maze: &PixelBuffer, path_color: Color, row: u32, col: u32, d: Direction) -> (r: Option<(u32, u32)>)
        requires
            self.wf(),
            maze.wf(),
            maze.width == self@.width,
            maze.height == self@.height,
            row < self@.height,
            col < self@.width,
        ensures
            r == walk(*maze, path_color, occupancy(self@.cells), row as int, col as int, d),
    {
        let ghost occ = occupancy(self@.cells);
        let mut r: u32 = row;
        let mut c: u32 = col;
        loop
            invariant
                self.wf(),
                maze.wf(),
                maze.width == self@.width,
                maze.height == self@.height,
                occ == occupancy(self@.cells),
                r < self@.height,
                c < self@.width,
                walk(*maze, path_color, occ, row as int, col as int, d) == walk(*maze, path_color, occ, r as int, c as int, d),
            decreases steps_left(d, r as int, c as int, maze.width as int, maze.height as int),
        {
            let (nr, nc): (u32, u32) = match d {
                Direction::North => {
                    if r == 0 {
                        return None;
                    }
                    (r - 1, c)
                },
                Direction::East => {
                    if c as u64 + 1 >= self.width as u64 {
                        return None;
                    }
                    (r, c + 1)
                },
                Direction::South => {
                    if r as u64 + 1 >= self.height as u64 {
                        return None;
                    }
                    (r + 1, c)
                },
                Direction::West => {
                    if c == 0 {
                        return None;
                    }
                    (r, c - 1)
                },
            };
            if maze.color_at(nr, nc) != path_color {
                return None;
            }
            let index = self.slot(nr, nc);
            if self.grid[index].is_some() {
                return Some((nr, nc));
            }
            r = nr;
            c = nc;
        }
    }

    /// Gives every node its links along one axis: east and west when
    /// `horizontal`, north and south if not.
    fn connect_axis(&mut self, maze: &PixelBuffer, path_color: Color, horizontal: bool)
        requires
            old(self).wf(),
            maze.wf(),
            maze.width == old(self)@.width,
            maze.height == old(self)@.height,
        ensures
            final(self)@ == (GridView { cells: final(self)@.cells, ..old(self)@ }),
            final(self)@.cells.len() == old(self)@.cells.len(),
            forall|j: int|
                0 <= j < old(self)@.cells.len() ==> #[trigger] final(self)@.cells[j] == with_links(
                    *maze,
                    path_color,
                    old(self)@.cells,
                    j,
                    horizontal,
                ),
    {
        let ghost before = self@;
        let n: usize = self.grid.len();
        let mut j: usize = 0;
        while j < n
            invariant
                j <= n,
                n == before.cells.len(),
                self.wf(),
                maze.wf(),
                maze.width == before.width,
                maze.height == before.height,
                self@ == (GridView { cells: self@.cells, ..before }),
                self@.cells.len() == n,
                occupancy(self@.cells) == occupancy(before.cells),
                forall|i: int| 0 <= i < j ==> #[trigger] self@.cells[i] == with_links(
                    *maze,
                    path_color,
                    before.cells,
                    i,
                    horizontal,
                ),
                forall|i: int| j <= i < n ==> #[trigger] self@.cells[i] == before.cells[i],
            decreases n - j,
        {
            if let Ok((row, col)) = one_to_two_D(j, self.width, self.height) {
                proof {
                    lemma_index_round_trip(j as int, self.width as int, self.height as int);
                }
                if let Some(node) = self.grid[j] {
                    let updated = if horizontal {
                        let e = self.find_link(maze, path_color, row, col, Direction::East);
                        let w = self.find_link(maze, path_color, row, col, Direction::West);
                        Node { e_node: e, w_node: w, ..node }
                    } else {
                        let no = self.find_link(maze, path_color, row, col, Direction::North);
                        let so = self.find_link(maze, path_color, row, col, Direction::South);
                        Node { n_node: no, s_node: so, ..node }
                    };
                    let ghost prev = self@.cells;
                    self.grid.set(j, Some(updated));
                    assert(occupancy(self@.cells) =~= occupancy(prev));
                }
            }
            j = j + 1;
        }
    }

    /// Links every node to the nearest node east and west of it along the
    /// path pixels of `maze`.
    pub fn connect_horiz(&mut self, maze: &PixelBuffer, path_color: Color)
        requires
            old(self).wf(),
            maze.wf(),
            maze.width == old(self)@.width,
            maze.height == old(self)@.height,
        ensures
            final(self)@ == (GridView { cells: final(self)@.cells, ..old(self)@ }),
            final(self)@.cells.len() == old(self)@.cells.len(),
            forall|j: int|
                0 <= j < old(self)@.cells.len() ==> #[trigger] final(self)@.cells[j] == with_links(
                    *maze,
                    path_color,
                    old(self)@.cells,
                    j,
                    true,
                ),
    {
        self.connect_axis(maze, path_color, true);
    }

    /// Links every node to the nearest node north and south of it along the
    /// path pixels of `maze`.
    pub fn connect_vertical(&mut self, maze: &PixelBuffer, path_color: Color)
        requires
            old(self).wf(),
            maze.wf(),
            maze.width == old(self)@.width,
            maze.height == old(self)@.height,
        ensures
            final(self)@ == (GridView { cells: final(self)@.cells, ..old(self)@ }),
            final(self)@.cells.len() == old(self)@.cells.len(),
            forall|j: int|
                0 <= j < old(self)@.cells.len() ==> #[trigger] final(self)@.cells[j] == with_links(
                    *maze,
                    path_color,
                    old(self)@.cells,
                    j,
                    false,
                ),
    {
        self.connect_axis(maze, path_color, false);
    }

    /// `(width, height)` of the grid.
    pub fn dimensions(&self) -> (r: (u32, u32))
        ensures
            r == (self@.width, self@.height),
    {
        (self.width, self.height)
    }
}

} // verus!
