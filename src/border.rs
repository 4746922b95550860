//! Reading the maze's palette and its entrance and exit from the border ring.

use vstd::prelude::*;
use crate::coords::{index_of, position_of, lemma_index_in_range, lemma_position_of_index,
    int_positions, lemma_int_positions_push, one_to_two_D, two_to_one_D};
use crate::error::MazeError;
use crate::pixels::{Color, PixelBuffer};

verus! {

/// The top row, left to right.
pub open spec fn north_side(w: int, h: int) -> Seq<(int, int)> {
    if h >= 1 { Seq::new(w as nat, |c: int| (0, c)) } else { Seq::empty() }
}

/// The right column without its two corners, top to bottom.
pub open spec fn east_side(w: int, h: int) -> Seq<(int, int)> {
    if w >= 1 && h >= 3 { Seq::new((h - 2) as nat, |k: int| (k + 1, w - 1)) } else { Seq::empty() }
}

/// The bottom row, left to right; empty when it is also the top row.
pub open spec fn south_side(w: int, h: int) -> Seq<(int, int)> {
    if h >= 2 { Seq::new(w as nat, |c: int| (h - 1, c)) } else { Seq::empty() }
}

/// The left column without its two corners, top to bottom; empty when it is
/// also the right column.
pub open spec fn west_side(w: int, h: int) -> Seq<(int, int)> {
    if w >= 2 && h >= 3 { Seq::new((h - 2) as nat, |k: int| (k + 1, 0)) } else { Seq::empty() }
}

/// Every border position once, in scan order: north, east, south, west.
pub open spec fn border_positions(w: int, h: int) -> Seq<(int, int)> {
    north_side(w, h) + east_side(w, h) + south_side(w, h) + west_side(w, h)
}

/// Whether `p` lies inside a `w` by `h` image, on its outer ring.
pub open spec fn on_border(p: (int, int), w: int, h: int) -> bool {
    &&& 0 <= p.0 < h
    &&& 0 <= p.1 < w
    &&& (p.0 == 0 || p.0 == h - 1 || p.1 == 0 || p.1 == w - 1)
}

/// Whether `p` is one of the four corners of a `w` by `h` image.
pub open spec fn is_corner(p: (int, int), w: int, h: int) -> bool {
    (p.0 == 0 || p.0 == h - 1) && (p.1 == 0 || p.1 == w - 1)
}

/// The squared Euclidean distance of `p` from the origin.
pub open spec fn dist2(p: (int, int)) -> int {
    p.0 * p.0 + p.1 * p.1
}

/// The pair `(start, end)`: the marker nearer the origin comes first, and on
/// a tie the one found first in the border scan.
pub open spec fn order_endpoints(p1: (int, int), p2: (int, int)) -> ((int, int), (int, int)) {
    if dist2(p1) <= dist2(p2) { (p1, p2) } else { (p2, p1) }
}

/// The colours of the border, in scan order.
pub open spec fn border_colors(m: PixelBuffer) -> Seq<Color> {
    border_positions(m.width as int, m.height as int).map_values(|p: (int, int)| m.color(p.0, p.1))
}

/// How often `c` occurs in `s`.
pub open spec fn count_color(s: Seq<Color>, c: Color) -> nat
    decreases s.len(),
{
    if s.len() == 0 {
        0
    } else {
        count_color(s.drop_last(), c) + if s.last() == c { 1nat } else { 0nat }
    }
}

/// Whether exactly two distinct colours occur in `s`.
pub open spec fn has_two_colors(s: Seq<Color>) -> bool {
    &&& s.len() > 0
    &&& exists|j: int| 0 <= j < s.len() && #[trigger] s[j] != s[0]
    &&& forall|j: int, k: int|
        0 <= j < s.len() && 0 <= k < s.len() && #[trigger] s[j] != s[0] && #[trigger] s[k] != s[0]
            ==> s[j] == s[k]
}

/// The colour of `s` that differs from its first one.
pub open spec fn other_color(s: Seq<Color>) -> Color {
    s[choose|j: int| 0 <= j < s.len() && #[trigger] s[j] != s[0]]
}

/// `(path, background)`: of the two border colours, the one occurring
/// exactly twice marks the entrance and exit and is the path colour; the
/// first colour of the scan wins if both do.
pub open spec fn marker_colors(s: Seq<Color>) -> Option<(Color, Color)> {
    if !has_two_colors(s) {
        None
    } else if count_color(s, s[0]) == 2 {
        Some((s[0], other_color(s)))
    } else if count_color(s, other_color(s)) == 2 {
        Some((other_color(s), s[0]))
    } else {
        None
    }
}

/// The error for a border that yields no marker colour.
pub open spec fn border_error(s: Seq<Color>) -> MazeError {
    if !has_two_colors(s) {
        MazeError::TooManyColors
    } else if count_color(s, s[0]) >= count_color(s, other_color(s)) {
        MazeError::NoUniqueMarkerColor(s[0])
    } else {
        MazeError::NoUniqueMarkerColor(other_color(s))
    }
}

/// Whether scan slots `k1 < k2` both hold colour `c`.
pub open spec fn is_marker_pair(s: Seq<Color>, c: Color, k1: int, k2: int) -> bool {
    0 <= k1 < k2 < s.len() && s[k1] == c && s[k2] == c
}

/// Each border position lies on the outer ring of the image.
pub proof fn lemma_border_on_ring(w: int, h: int, k: int)
    requires
        0 <= w,
        0 <= h,
        0 <= k < border_positions(w, h).len(),
    ensures
        on_border(border_positions(w, h)[k], w, h),
{
    let n = north_side(w, h);
    let e = east_side(w, h);
    let s = south_side(w, h);
    let ws = west_side(w, h);
    assert(border_positions(w, h)[k] == if k < n.len() {
        n[k]
    } else if k < n.len() + e.len() {
        e[k - n.len()]
    } else if k < n.len() + e.len() + s.len() {
        s[k - n.len() - e.len()]
    } else {
        ws[k - n.len() - e.len() - s.len()]
    });
}

/// No position occurs twice in the border scan.
pub proof fn lemma_border_distinct(w: int, h: int, k1: int, k2: int)
    requires
        0 <= w,
        0 <= h,
        0 <= k1 < k2 < border_positions(w, h).len(),
    ensures
        border_positions(w, h)[k1] != border_positions(w, h)[k2],
{
    let n = north_side(w, h);
    let e = east_side(w, h);
    let s = south_side(w, h);
    let ws = west_side(w, h);
    let b = border_positions(w, h);
    assert forall|k: int| 0 <= k < b.len() implies b[k] == if k < n.len() {
        n[k]
    } else if k < n.len() + e.len() {
        e[k - n.len()]
    } else if k < n.len() + e.len() + s.len() {
        s[k - n.len() - e.len()]
    } else {
        ws[k - n.len() - e.len() - s.len()]
    } by {}
}

/// Lists every border position of a `width` by `height` image once, in scan
/// order: north, east, south, west.
pub fn collect_border(width: u32, height: u32) -> (v: Vec<(u32, u32)>)
    ensures
        int_positions(v@) == border_positions(width as int, height as int),
{
    let mut v: Vec<(u32, u32)> = Vec::new();
    if height >= 1 {
        let mut c: u32 = 0;
        while c < width
            invariant
                c <= width,
                int_positions(v@) == north_side(width as int, height as int).take(c as int),
                height >= 1,
            decreases width - c,
        {
            proof {
                lemma_int_positions_push(v@, (0, c));
            }
            v.push((0, c));
            c = c + 1;
            assert(int_positions(v@) =~= north_side(width as int, height as int).take(c as int));
        }
        assert(north_side(width as int, height as int).take(width as int) =~= north_side(width as int, height as int));
    }
    assert(int_positions(v@) =~= north_side(width as int, height as int));
    let ghost base = int_positions(v@);
    if width >= 1 && height >= 3 {
        let mut r: u32 = 1;
        while r < height - 1
            invariant
                1 <= r <= height - 1,
                width >= 1,
                height >= 3,
                int_positions(v@) == base + east_side(width as int, height as int).take(r - 1),
            decreases height - r,
        {
            proof {
                lemma_int_positions_push(v@, (r, (width - 1) as u32));
            }
            v.push((r, width - 1));
            r = r + 1;
            assert(int_positions(v@) =~= base + east_side(width as int, height as int).take(r - 1));
        }
        assert(east_side(width as int, height as int).take(height - 2) =~= east_side(width as int, height as int));
    }
    assert(int_positions(v@) =~= north_side(width as int, height as int) + east_side(width as int, height as int));
    let ghost base = int_positions(v@);
    if height >= 2 {
        let mut c: u32 = 0;
        while c < width
            invariant
                c <= width,
                height >= 2,
                int_positions(v@) == base + south_side(width as int, height as int).take(c as int),
            decreases width - c,
        {
            proof {
                lemma_int_positions_push(v@, ((height - 1) as u32, c));
            }
            v.push((height - 1, c));
            c = c + 1;
            assert(int_positions(v@) =~= base + south_side(width as int, height as int).take(c as int));
        }
        assert(south_side(width as int, height as int).take(width as int) =~= south_side(width as int, height as int));
    }
    assert(int_positions(v@) =~= north_side(width as int, height as int) + east_side(width as int, height as int) + south_side(width as int, height as int));
    let ghost base = int_positions(v@);
    if width >= 2 && height >= 3 {
        let mut r: u32 = 1;
        while r < height - 1
            invariant
                1 <= r <= height - 1,
                width >= 2,
                height >= 3,
                int_positions(v@) == base + west_side(width as int, height as int).take(r - 1),
            decreases height - r,
        {
            proof {
                lemma_int_positions_push(v@, (r, 0));
            }
            v.push((r, 0));
            r = r + 1;
            assert(int_positions(v@) =~= base + west_side(width as int, height as int).take(r - 1));
        }
        assert(west_side(width as int, height as int).take(height - 2) =~= west_side(width as int, height as int));
    }
    assert(int_positions(v@) =~= border_positions(width as int, height as int));
    v
}

/// Adding one more element to a prefix adds one to the count of its colour.
proof fn lemma_count_step(s: Seq<Color>, i: int, c: Color)
    requires
        0 <= i < s.len(),
    ensures
        count_color(s.take(i + 1), c) == count_color(s.take(i), c) + if s[i] == c { 1nat } else { 0nat },
{
    assert(s.take(i + 1).drop_last() =~= s.take(i));
}

/// Counting over a longer prefix never gives less.
proof fn lemma_count_prefix_monotone(s: Seq<Color>, c: Color, a: int, b: int)
    requires
        0 <= a <= b <= s.len(),
    ensures
        count_color(s.take(a), c) <= count_color(s.take(b), c),
    decreases b - a,
{
    if a < b {
        lemma_count_step(s, b - 1, c);
        lemma_count_prefix_monotone(s, c, a, b - 1);
    }
}

/// When `c` occurs exactly twice in `s`, only one pair of slots holds it.
pub proof fn lemma_marker_pair_unique(s: Seq<Color>, c: Color, a: int, b: int, x: int, y: int)
    requires
        count_color(s, c) == 2,
        is_marker_pair(s, c, a, b),
        is_marker_pair(s, c, x, y),
    ensures
        a == x,
        b == y,
{
    if a != x || b != y {
        let (i, j, k) = if a < x {
            (a, x, y)
        } else if x < a {
            (x, a, b)
        } else if b < y {
            (a, b, y)
        } else {
            (a, y, b)
        };
        assert(i < j < k && s[i] == c && s[j] == c && s[k] == c);
        lemma_count_step(s, i, c);
        lemma_count_step(s, j, c);
        lemma_count_step(s, k, c);
        lemma_count_prefix_monotone(s, c, i + 1, j);
        lemma_count_prefix_monotone(s, c, j + 1, k);
        lemma_count_prefix_monotone(s, c, k + 1, s.len() as int);
        assert(s.take(s.len() as int) =~= s);
    }
}

/// The palette and the marker indices read from the border.
#[derive(Clone, Copy, Debug, PartialEq, Eq, Structural)]
pub struct BorderInfo {
    pub path_color: Color,
    pub back_color: Color,
    /// Linear index of the first marker found in the border scan.
    pub first_marker: usize,
    /// Linear index of the second marker found in the border scan.
    pub second_marker: usize,
}

/// The colour at border slot `k`.
fn border_color(maze: &PixelBuffer, border: &Vec<(u32, u32)>, k: usize) -> (c: Color)
    requires
        maze.wf(),
        int_positions(border@) == border_positions(maze.width as int, maze.height as int),
        k < border@.len(),
    ensures
        c == border_colors(*maze)[k as int],
{
    proof {
        lemma_border_on_ring(maze.width as int, maze.height as int, k as int);
        assert(int_positions(border@)[k as int] == (border@[k as int].0 as int, border@[k as int].1 as int));
    }
    let (row, col) = border[k];
    maze.color_at(row, col)
}

/// Determines from the border ring the path colour, the background colour
/// and the linear indices of the two marker pixels, in scan order.
pub fn classify_border(maze: &PixelBuffer) -> (r: Result<BorderInfo, MazeError>)
    requires
        maze.wf(),
    ensures
        ({
            let bc = border_colors(*maze);
            let bp = border_positions(maze.width as int, maze.height as int);
            match r {
                Ok(info) => marker_colors(bc) == Some((info.path_color, info.back_color))
                    && exists|k1: int, k2: int|
                        is_marker_pair(bc, info.path_color, k1, k2)
                        && info.first_marker as int == index_of(bp[k1].0, bp[k1].1, maze.width as int)
                        && info.second_marker as int == index_of(bp[k2].0, bp[k2].1, maze.width as int),
                Err(e) => marker_colors(bc) is None && e == border_error(bc),
            }
        }),
{
    let ghost bc = border_colors(*maze);
    let ghost bp = border_positions(maze.width as int, maze.height as int);
    let border = collect_border(maze.width, maze.height);
    assert(border@.len() == bc.len());
    if border.len() == 0 {
        return Err(MazeError::TooManyColors);
    }
    let first = border_color(maze, &border, 0);
    let mut second: Option<Color> = None;
    let ghost mut sj: int = 0;
    let mut i: usize = 1;
    while i < border.len()
        invariant
            maze.wf(),
            int_positions(border@) == bp,
            bp == border_positions(maze.width as int, maze.height as int),
            bc == border_colors(*maze),
            1 <= i <= border@.len(),
            bc.len() == border@.len(),
            first == bc[0],
            second is None ==> forall|k: int| 0 <= k < i ==> bc[k] == first,
            second matches Some(s) ==> s != first && 0 <= sj < i && bc[sj] == s
                && forall|k: int| 0 <= k < i ==> bc[k] == first || bc[k] == s,
        decreases border@.len() - i,
    {
        let c = border_color(maze, &border, i);
        if c != first {
            match second {
                None => {
                    second = Some(c);
                    proof {
                        sj = i as int;
                    }
                },
                Some(s) => {
                    if c != s {
                        assert(bc[sj] != bc[0] && bc[i as int] != bc[0] && bc[sj] != bc[i as int]);
                        return Err(MazeError::TooManyColors);
                    }
                },
            }
        }
        i = i + 1;
    }
    let other = match second {
        None => {
            return Err(MazeError::TooManyColors);
        },
        Some(s) => s,
    };
    assert(has_two_colors(bc)) by {
        assert(bc[sj] != bc[0]);
    }
    assert(other_color(bc) == other);

    let mut n_first: usize = 0;
    let mut n_other: usize = 0;
    let mut i: usize = 0;
    while i < border.len()
        invariant
            maze.wf(),
            int_positions(border@) == bp,
            bp == border_positions(maze.width as int, maze.height as int),
            bc == border_colors(*maze),
            i <= border@.len(),
            bc.len() == border@.len(),
            n_first == count_color(bc.take(i as int), first),
            n_other == count_color(bc.take(i as int), other),
            n_first <= i,
            n_other <= i,
        decreases border@.len() - i,
    {
        let c = border_color(maze, &border, i);
        proof {
            lemma_count_step(bc, i as int, first);
            lemma_count_step(bc, i as int, other);
        }
        if c == first {
            n_first = n_first + 1;
        }
        if c == other {
            n_other = n_other + 1;
        }
        i = i + 1;
    }
    assert(bc.take(bc.len() as int) =~= bc);
    let (path_color, back_color) = if n_first == 2 {
        (first, other)
    } else if n_other == 2 {
        (other, first)
    } else if n_first >= n_other {
        return Err(MazeError::NoUniqueMarkerColor(first));
    } else {
        return Err(MazeError::NoUniqueMarkerColor(other));
    };

    proof {
        maze.lemma_area_fits_usize();
    }
    let mut found: usize = 0;
    let mut first_marker: usize = 0;
    let mut second_marker: usize = 0;
    let ghost mut k1: int = 0;
    let ghost mut k2: int = 0;
    let mut i: usize = 0;
    while i < border.len() && found < 2
        invariant
            maze.wf(),
            maze.width * maze.height <= usize::MAX,
            int_positions(border@) == bp,
            bp == border_positions(maze.width as int, maze.height as int),
            bc == border_colors(*maze),
            i <= border@.len(),
            bc.len() == border@.len(),
            count_color(bc, path_color) == 2,
            found == count_color(bc.take(i as int), path_color),
            found <= 2,
            found >= 1 ==> 0 <= k1 < i && bc[k1] == path_color
                && first_marker as int == index_of(bp[k1].0, bp[k1].1, maze.width as int),
            found >= 2 ==> k1 < k2 < i && bc[k2] == path_color
                && second_marker as int == index_of(bp[k2].0, bp[k2].1, maze.width as int),
        decreases border@.len() - i,
    {
        let c = border_color(maze, &border, i);
        proof {
            lemma_count_step(bc, i as int, path_color);
        }
        if c == path_color {
            let (row, col) = border[i];
            proof {
                lemma_border_on_ring(maze.width as int, maze.height as int, i as int);
                assert(int_positions(border@)[i as int] == (row as int, col as int));
                lemma_index_in_range(row as int, col as int, maze.width as int, maze.height as int);
            }
            let index = match two_to_one_D(row, col, maze.width, maze.height) {
                Ok(index) => index,
                Err(e) => {
                    return Err(e);
                },
            };
            if found == 0 {
                first_marker = index;
                proof {
                    k1 = i as int;
                }
            } else {
                second_marker = index;
                proof {
                    k2 = i as int;
                }
            }
            found = found + 1;
        }
        i = i + 1;
    }
    if found < 2 {
        assert(bc.take(bc.len() as int) =~= bc);
    }
    assert(is_marker_pair(bc, path_color, k1, k2));
    Ok(BorderInfo { path_color, back_color, first_marker, second_marker })
}

/// The squared distance of `p` from the origin.
fn distance_squared(p: (u32, u32)) -> (d: u128)
    ensures
        d as int == dist2((p.0 as int, p.1 as int)),
{
    assert((p.0 as int) * (p.0 as int) <= 0xffff_ffff * 0xffff_ffff) by (nonlinear_arith)
        requires 0 <= p.0 <= 0xffff_ffff;
    assert((p.1 as int) * (p.1 as int) <= 0xffff_ffff * 0xffff_ffff) by (nonlinear_arith)
        requires 0 <= p.1 <= 0xffff_ffff;
    p.0 as u128 * p.0 as u128 + p.1 as u128 * p.1 as u128
}

/// Whether `p` is one of the four corners of a `width` by `height` image.
fn at_corner(p: (u32, u32), width: u32, height: u32) -> (r: bool)
    ensures
        r == is_corner((p.0 as int, p.1 as int), width as int, height as int),
{
    (p.0 == 0 || p.0 as u64 + 1 == height as u64) && (p.1 == 0 || p.1 as u64 + 1 == width as u64)
}

/// Turns the two marker indices into `(start, end)` positions: the marker
/// nearer the origin starts, the first one on a tie. Fails when an index
/// lies outside the image or a marker sits on a corner.
pub fn resolve_endpoints(first_marker: usize, second_marker: usize, width: u32, height: u32) -> (r:
    Result<((u32, u32), (u32, u32)), MazeError>)
    ensures
        ({
            let p1 = position_of(first_marker as int, width as int);
            let p2 = position_of(second_marker as int, width as int);
            let in_image = first_marker < width * height && second_marker < width * height;
            match r {
                Ok((s, e)) => in_image && !is_corner(p1, width as int, height as int) && !is_corner(
                    p2,
                    width as int,
                    height as int,
                ) && ((s.0 as int, s.1 as int), (e.0 as int, e.1 as int)) == order_endpoints(p1, p2),
                Err(err) => if !in_image {
                    err == MazeError::OutOfBounds
                } else {
                    err == MazeError::MarkerInCorner && (is_corner(p1, width as int, height as int)
                        || is_corner(p2, width as int, height as int))
                },
            }
        }),
{
    let p1 = match one_to_two_D(first_marker, width, height) {
        Ok(p) => p,
        Err(e) => {
            return Err(e);
        },
    };
    let p2 = match one_to_two_D(second_marker, width, height) {
        Ok(p) => p,
        Err(e) => {
            return Err(e);
        },
    };
    if at_corner(p1, width, height) || at_corner(p2, width, height) {
        return Err(MazeError::MarkerInCorner);
    }
    if distance_squared(p1) > distance_squared(p2) {
        Ok((p2, p1))
    } else {
        Ok((p1, p2))
    }
}

/// Reads the border of `maze`: returns `(start, end, path colour,
/// background colour)`, the start being the marker nearer the origin.
pub fn start_end_detect(maze: &PixelBuffer) -> (r: Result<((u32, u32), (u32, u32), Color, Color), MazeError>)
    requires
        maze.wf(),
    ensures
        ({
            let bc = border_colors(*maze);
            let bp = border_positions(maze.width as int, maze.height as int);
            let w = maze.width as int;
            let h = maze.height as int;
            match r {
                Ok((s, e, path, back)) => marker_colors(bc) == Some((path, back))
                    && exists|k1: int, k2: int|
                        is_marker_pair(bc, path, k1, k2)
                        && !is_corner(bp[k1], w, h)
                        && !is_corner(bp[k2], w, h)
                        && ((s.0 as int, s.1 as int), (e.0 as int, e.1 as int))
                            == order_endpoints(bp[k1], bp[k2]),
                Err(err) => if marker_colors(bc) is None {
                    err == border_error(bc)
                } else {
                    err == MazeError::MarkerInCorner && exists|k1: int, k2: int|
                        is_marker_pair(bc, (marker_colors(bc)->Some_0).0, k1, k2)
                        && (is_corner(bp[k1], w, h) || is_corner(bp[k2], w, h))
                },
            }
        }),
        ({
            let bc = border_colors(*maze);
            let bp = border_positions(maze.width as int, maze.height as int);
            marker_colors(bc) matches Some((path, _)) && (forall|k: int|
                0 <= k < bc.len() && bc[k] == path ==> !is_corner(#[trigger] bp[k], maze.width as int, maze.height as int))
        }) ==> r is Ok,
        r matches Ok((s, e, _, _)) ==> {
            let s = (s.0 as int, s.1 as int);
            let e = (e.0 as int, e.1 as int);
            &&& s != e
            &&& on_border(s, maze.width as int, maze.height as int)
            &&& on_border(e, maze.width as int, maze.height as int)
            &&& dist2(s) <= dist2(e)
        },
{
    let info = match classify_border(maze) {
        Ok(info) => info,
        Err(e) => {
            return Err(e);
        },
    };
    let ghost bc = border_colors(*maze);
    let ghost bp = border_positions(maze.width as int, maze.height as int);
    let ghost w = maze.width as int;
    let ghost h = maze.height as int;
    let ghost (k1, k2) = choose|k1: int, k2: int|
        is_marker_pair(bc, info.path_color, k1, k2)
        && info.first_marker as int == index_of(bp[k1].0, bp[k1].1, w)
        && info.second_marker as int == index_of(bp[k2].0, bp[k2].1, w);
    proof {
        lemma_border_on_ring(w, h, k1);
        lemma_border_on_ring(w, h, k2);
        lemma_border_distinct(w, h, k1, k2);
        lemma_position_of_index(bp[k1].0, bp[k1].1, w, h);
        lemma_position_of_index(bp[k2].0, bp[k2].1, w, h);
        lemma_index_in_range(bp[k1].0, bp[k1].1, w, h);
        lemma_index_in_range(bp[k2].0, bp[k2].1, w, h);
    }
    match resolve_endpoints(info.first_marker, info.second_marker, maze.width, maze.height) {
        Ok((s, e)) => {
            assert(exists|j1: int, j2: int|
                is_marker_pair(bc, info.path_color, j1, j2) && !is_corner(bp[j1], w, h)
                    && !is_corner(bp[j2], w, h) && ((s.0 as int, s.1 as int), (e.0 as int, e.1 as int))
                    == order_endpoints(bp[j1], bp[j2])) by {
                assert(is_marker_pair(bc, info.path_color, k1, k2));
            }
            Ok((s, e, info.path_color, info.back_color))
        },
        Err(e) => {
            assert(is_marker_pair(bc, info.path_color, k1, k2));
            assert((marker_colors(bc)->Some_0).0 == info.path_color);
            assert(is_corner(bp[k1], w, h) || is_corner(bp[k2], w, h));
            assert(exists|j1: int, j2: int|
                is_marker_pair(bc, (marker_colors(bc)->Some_0).0, j1, j2) && (is_corner(bp[j1], w, h)
                    || is_corner(bp[j2], w, h)));
            Err(e)
        },
    }
}

/// A border that shows three distinct colours is refused as having too
/// many colours.
pub proof fn lemma_three_colors_refused(m: PixelBuffer, i: int, j: int, k: int)
    requires
        0 <= i < border_colors(m).len(),
        0 <= j < border_colors(m).len(),
        0 <= k < border_colors(m).len(),
        border_colors(m)[i] != border_colors(m)[j],
        border_colors(m)[j] != border_colors(m)[k],
        border_colors(m)[i] != border_colors(m)[k],
    ensures
        marker_colors(border_colors(m)) is None,
        border_error(border_colors(m)) == MazeError::TooManyColors,
{
    let s = border_colors(m);
    if has_two_colors(s) {
        if s[i] == s[0] {
            assert(s[j] != s[0] && s[k] != s[0]);
        } else if s[j] == s[0] {
            assert(s[i] != s[0] && s[k] != s[0]);
        } else {
            assert(s[i] != s[0] && s[j] != s[0]);
        }
    }
}

} // verus!
