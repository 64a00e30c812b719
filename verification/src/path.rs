//! Paths: the ordered coordinates along which pixels are read and written.
//! A path is a row, a column, or the cells that a straight line crosses.

use vstd::prelude::*;
use crate::grid::point;

verus! {

/// The coordinates of row `y` of a grid `width` cells wide, left to right.
pub open spec fn row_of(width: int, y: u32) -> Seq<(u32, u32)> {
    Seq::new(width as nat, |i: int| (i as u32, y))
}

/// The coordinates of column `x` of a grid `height` cells high, top to
/// bottom.
pub open spec fn column_of(height: int, x: u32) -> Seq<(u32, u32)> {
    Seq::new(height as nat, |i: int| (x, i as u32))
}

/// No coordinate comes twice in a row or in a column.
pub proof fn lemma_rows_and_columns_are_paths(width: int, height: int, x: u32, y: u32)
    requires
        0 <= width <= u32::MAX + 1,
        0 <= height <= u32::MAX + 1,
    ensures
        row_of(width, y).no_duplicates(),
        column_of(height, x).no_duplicates(),
{
}

/// Two rows share no coordinate, and neither do two columns: what is done
/// along one cannot touch the other.
pub proof fn lemma_paths_apart(width: int, height: int, a: u32, b: u32)
    requires
        a != b,
    ensures
        forall|i: int, j: int|
            0 <= i < width && 0 <= j < width ==> (#[trigger] row_of(width, a)[i]) != (
            #[trigger] row_of(width, b)[j]),
        forall|i: int, j: int|
            0 <= i < height && 0 <= j < height ==> (#[trigger] column_of(height, a)[i]) != (
            #[trigger] column_of(height, b)[j]),
{
}

/// -1, 0 or 1 as `d` is negative, zero or positive.
pub open spec fn sign(d: int) -> int {
    if d > 0 {
        1
    } else if d < 0 {
        -1
    } else {
        0
    }
}

/// The absolute value of `d`.
pub open spec fn magnitude(d: int) -> int {
    if d < 0 {
        -d
    } else {
        d
    }
}

/// Whether `to` is reached from `from` by at most `k` unit moves in the
/// direction `s`, and by none in the other direction.
pub open spec fn within_steps(from: int, to: int, s: int, k: int) -> bool {
    if s > 0 {
        from <= to <= from + k
    } else if s < 0 {
        from - k <= to <= from
    } else {
        to == from
    }
}

/// `k` unit moves from `from` in the direction `s`.
pub open spec fn advance(from: int, s: int, k: int) -> int {
    if s > 0 {
        from + k
    } else if s < 0 {
        from - k
    } else {
        from
    }
}

/// Whether `q` follows `p` on the way along a displacement `(dx, dy)`: each
/// axis stays put or moves by one towards the end.
pub open spec fn unit_step(p: (int, int), q: (int, int), dx: int, dy: int) -> bool {
    &&& (q.0 == p.0 || q.0 == p.0 + sign(dx))
    &&& (q.1 == p.1 || q.1 == p.1 + sign(dy))
}

/// Whether `points` walks from `start` to `end` in `max(|dx|, |dy|)` steps,
/// none of which moves an axis by more than one or away from the end.
pub open spec fn walks_line(points: Seq<(int, int)>, start: (int, int), end: (int, int)) -> bool {
    let dx = end.0 - start.0;
    let dy = end.1 - start.1;
    let n = if magnitude(dx) >= magnitude(dy) { magnitude(dx) } else { magnitude(dy) };
    &&& points.len() == n + 1
    &&& points[0] == start
    &&& points[n] == end
    &&& forall|i: int| 0 <= i < n ==> unit_step(#[trigger] points[i], points[i + 1], dx, dy)
}

/// The points of a path as pairs of mathematical integers.
pub open spec fn as_points(line: Seq<(u32, u32)>) -> Seq<(int, int)> {
    Seq::new(line.len(), |i: int| point(line[i]))
}

/// Signed machine points as pairs of mathematical integers.
pub open spec fn wide_points(points: Seq<(i64, i64)>) -> Seq<(int, int)> {
    Seq::new(points.len(), |i: int| (points[i].0 as int, points[i].1 as int))
}

/// The cells that Bresenham's line algorithm, as `line_drawing` implements
/// it, visits on the way from `(x0, y0)` to `(x1, y1)`.
pub uninterp spec fn bresenham_points(x0: int, y0: int, x1: int, y1: int) -> Seq<(int, int)>;

/// The coordinates that `bresenham_points` gives for two endpoints with
/// coordinates that are not negative.
pub open spec fn line_of(start: (u32, u32), end: (u32, u32)) -> Seq<(u32, u32)> {
    let points = bresenham_points(start.0 as int, start.1 as int, end.0 as int, end.1 as int);
    Seq::new(points.len(), |i: int| (points[i].0 as u32, points[i].1 as u32))
}

/// `line_drawing::Bresenham::new(start, end)`, run to its end. The iterator
/// yields `start` first and `end` last, one point for each value of the axis
/// along which the two lie further apart, and from one point to the next
/// each axis stays or moves by one towards `end`.
#[verifier::external_body]
fn bresenham(start: (u32, u32), end: (u32, u32)) -> (points: Vec<(i64, i64)>)
    ensures
        wide_points(points@) == bresenham_points(
            start.0 as int,
            start.1 as int,
            end.0 as int,
            end.1 as int,
        ),
        walks_line(wide_points(points@), point(start), point(end)),
{
    let from: (i64, i64) = (i64::from(start.0), i64::from(start.1));
    let to: (i64, i64) = (i64::from(end.0), i64::from(end.1));
    line_drawing::Bresenham::new(from, to).collect()
}

/// After `i` steps of a walk each axis is within `i` moves of the start and
/// within the remaining moves of the end.
proof fn lemma_walk_bounds(points: Seq<(int, int)>, start: (int, int), end: (int, int), i: int)
    requires
        walks_line(points, start, end),
        0 <= i < points.len(),
    ensures
        within_steps(start.0, points[i].0, sign(end.0 - start.0), i),
        within_steps(start.1, points[i].1, sign(end.1 - start.1), i),
        within_steps(points[i].0, end.0, sign(end.0 - start.0), points.len() - 1 - i),
        within_steps(points[i].1, end.1, sign(end.1 - start.1), points.len() - 1 - i),
{
    lemma_walk_from_start(points, start, end, i);
    lemma_walk_to_end(points, start, end, i);
}

proof fn lemma_walk_from_start(
    points: Seq<(int, int)>,
    start: (int, int),
    end: (int, int),
    i: int,
)
    requires
        walks_line(points, start, end),
        0 <= i < points.len(),
    ensures
        within_steps(start.0, points[i].0, sign(end.0 - start.0), i),
        within_steps(start.1, points[i].1, sign(end.1 - start.1), i),
    decreases i,
{
    if i > 0 {
        lemma_walk_from_start(points, start, end, i - 1);
        assert(unit_step(points[i - 1], points[i - 1 + 1], end.0 - start.0, end.1 - start.1));
    }
}

proof fn lemma_walk_to_end(points: Seq<(int, int)>, start: (int, int), end: (int, int), i: int)
    requires
        walks_line(points, start, end),
        0 <= i < points.len(),
    ensures
        within_steps(points[i].0, end.0, sign(end.0 - start.0), points.len() - 1 - i),
        within_steps(points[i].1, end.1, sign(end.1 - start.1), points.len() - 1 - i),
    decreases points.len() - i,
{
    if i < points.len() - 1 {
        lemma_walk_to_end(points, start, end, i + 1);
        assert(unit_step(points[i], points[i + 1], end.0 - start.0, end.1 - start.1));
    }
}

/// Along the axis on which `start` and `end` lie further apart, a walk moves
/// by one at every step; along the other it never leaves the span between the
/// two. So each point lies in the rectangle spanned by the endpoints, and no
/// point comes twice.
pub proof fn lemma_walk_is_path(points: Seq<(int, int)>, start: (int, int), end: (int, int))
    requires
        walks_line(points, start, end),
    ensures
        forall|i: int|
            0 <= i < points.len() && magnitude(end.0 - start.0) >= magnitude(end.1 - start.1)
                ==> (#[trigger] points[i]).0 == advance(start.0, sign(end.0 - start.0), i),
        forall|i: int|
            0 <= i < points.len() && magnitude(end.1 - start.1) >= magnitude(end.0 - start.0)
                ==> (#[trigger] points[i]).1 == advance(start.1, sign(end.1 - start.1), i),
        forall|i: int|
            0 <= i < points.len() ==> {
                &&& within_steps(
                    start.0,
                    (#[trigger] points[i]).0,
                    sign(end.0 - start.0),
                    magnitude(end.0 - start.0),
                )
                &&& within_steps(
                    start.1,
                    points[i].1,
                    sign(end.1 - start.1),
                    magnitude(end.1 - start.1),
                )
            },
        points.no_duplicates(),
{
    assert forall|i: int| 0 <= i < points.len() implies {
        &&& (magnitude(end.0 - start.0) >= magnitude(end.1 - start.1) ==> (#[trigger] points[i]).0
            == advance(start.0, sign(end.0 - start.0), i))
        &&& (magnitude(end.1 - start.1) >= magnitude(end.0 - start.0) ==> points[i].1 == advance(
            start.1,
            sign(end.1 - start.1),
            i,
        ))
        &&& within_steps(
            start.0,
            points[i].0,
            sign(end.0 - start.0),
            magnitude(end.0 - start.0),
        )
        &&& within_steps(
            start.1,
            points[i].1,
            sign(end.1 - start.1),
            magnitude(end.1 - start.1),
        )
    } by {
        lemma_walk_bounds(points, start, end, i);
    }
    assert forall|i: int, j: int|
        0 <= i < points.len() && 0 <= j < points.len() && i != j implies points[i] != points[j] by {
        lemma_walk_bounds(points, start, end, i);
        lemma_walk_bounds(points, start, end, j);
        if magnitude(end.0 - start.0) >= magnitude(end.1 - start.1) {
            assert(points[i].0 != points[j].0);
        } else {
            assert(points[i].1 != points[j].1);
        }
    }
}

/// The coordinates `(0, y)`, `(1, y)`, ... of one row, `width` of them.
pub fn row_path(width: u32, y: u32) -> (line: Vec<(u32, u32)>)
    ensures
        line@ == row_of(width as int, y),
{
    let mut line: Vec<(u32, u32)> = Vec::new();
    let mut x: u32 = 0;
    while x < width
        invariant
            x <= width,
            line@ == row_of(x as int, y),
        decreases width - x,
    {
        line.push((x, y));
        x = x + 1;
        assert(line@ =~= row_of(x as int, y));
    }
    line
}

/// The coordinates `(x, 0)`, `(x, 1)`, ... of one column, `height` of them.
pub fn column_path(height: u32, x: u32) -> (line: Vec<(u32, u32)>)
    ensures
        line@ == column_of(height as int, x),
{
    let mut line: Vec<(u32, u32)> = Vec::new();
    let mut y: u32 = 0;
    while y < height
        invariant
            y <= height,
            line@ == column_of(y as int, x),
        decreases height - y,
    {
        line.push((x, y));
        y = y + 1;
        assert(line@ =~= column_of(y as int, x));
    }
    line
}

/// Narrows signed points, none of which is negative or beyond the range of a
/// coordinate, to coordinates.
pub fn coordinates_of(points: &Vec<(i64, i64)>) -> (line: Vec<(u32, u32)>)
    requires
        forall|i: int|
            0 <= i < points@.len() ==> 0 <= (#[trigger] points@[i]).0 <= u32::MAX && 0
                <= points@[i].1 <= u32::MAX,
    ensures
        as_points(line@) == wide_points(points@),
{
    let mut line: Vec<(u32, u32)> = Vec::new();
    let mut i: usize = 0;
    while i < points.len()
        invariant
            i <= points@.len(),
            line@.len() == i,
            forall|k: int|
                0 <= k < points@.len() ==> 0 <= (#[trigger] points@[k]).0 <= u32::MAX && 0
                    <= points@[k].1 <= u32::MAX,
            forall|k: int|
                0 <= k < i ==> point(#[trigger] line@[k]) == (
                    points@[k].0 as int,
                    points@[k].1 as int,
                ),
        decreases points@.len() - i,
    {
        let p = points[i];
        line.push((p.0 as u32, p.1 as u32));
        i = i + 1;
    }
    assert(as_points(line@) =~= wide_points(points@));
    line
}

/// The cells that a straight line from `start` to `end` crosses, as
/// Bresenham's algorithm picks them: `start` first, `end` last, one cell for
/// each step along the axis on which the two lie further apart.
pub fn line_path(start: (u32, u32), end: (u32, u32)) -> (line: Vec<(u32, u32)>)
    ensures
        line@ == line_of(start, end),
        as_points(line@) == bresenham_points(
            start.0 as int,
            start.1 as int,
            end.0 as int,
            end.1 as int,
        ),
        walks_line(as_points(line@), point(start), point(end)),
        line@.no_duplicates(),
        forall|i: int|
            0 <= i < line@.len() ==> {
                &&& within_steps(
                    start.0 as int,
                    (#[trigger] line@[i]).0 as int,
                    sign(end.0 - start.0),
                    magnitude(end.0 - start.0),
                )
                &&& within_steps(
                    start.1 as int,
                    line@[i].1 as int,
                    sign(end.1 - start.1),
                    magnitude(end.1 - start.1),
                )
            },
{
    let points = bresenham(start, end);
    proof {
        let wide = wide_points(points@);
        lemma_walk_is_path(wide, point(start), point(end));
        assert forall|i: int| 0 <= i < points@.len() implies 0 <= (#[trigger] points@[i]).0
            <= u32::MAX && 0 <= points@[i].1 <= u32::MAX by {
            assert(wide[i] == (points@[i].0 as int, points@[i].1 as int));
        }
    }
    let line = coordinates_of(&points);
    proof {
        let wide = as_points(line@);
        assert(line@.len() == wide.len());
        assert forall|i: int| 0 <= i < line@.len() implies line@[i] == line_of(start, end)[i] by {
            assert(wide[i] == point(line@[i]));
        }
        assert(line@ =~= line_of(start, end));
        assert forall|i: int, j: int|
            0 <= i < line@.len() && 0 <= j < line@.len() && i != j implies line@[i] != line@[j] by {
            assert(wide[i] == point(line@[i]));
            assert(wide[j] == point(line@[j]));
        }
        assert forall|i: int| 0 <= i < line@.len() implies {
            &&& within_steps(
                start.0 as int,
                (#[trigger] line@[i]).0 as int,
                sign(end.0 - start.0),
                magnitude(end.0 - start.0),
            )
            &&& within_steps(
                start.1 as int,
                line@[i].1 as int,
                sign(end.1 - start.1),
                magnitude(end.1 - start.1),
            )
        } by {
            assert(wide[i] == point(line@[i]));
        }
    }
    line
}

} // verus!
