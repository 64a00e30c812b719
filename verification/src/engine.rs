//! The passes: a path is segmented and each of its intervals sorted; a pass
//! does so for every row, for every column, or for one line.

use vstd::prelude::*;
use crate::color::{lightness, Color};
use crate::direction::SortType;
use crate::error::SortError;
use crate::grid::{lemma_rotate180_twice, point, Grid};
use crate::path::{
    column_of,
    column_path,
    line_of,
    line_path,
    magnitude,
    row_of,
    row_path,
    sign,
    within_steps,
};
use crate::raster::Raster;
use crate::segment::{
    in_some_run,
    is_run,
    lemma_runs_of,
    lemma_runs_partition,
    lists_runs,
    runs_of,
    Run,
};
use crate::select::{
    accepts_all,
    answers,
    cut,
    decides,
    get_intervals,
    interval_lists,
    lemma_answers_decided,
    selection,
    Band,
};
use crate::sorter::{separate, sort, sorted_along, touches, within};

verus! {

/// Whether `after` is `before` with the path `line` sorted: every run of
/// pixels that `chosen` selects in `before` holds the same colours in order
/// of ascending lightness, and every position of the path outside the runs
/// holds the colour it held.
pub open spec fn path_sorted(
    before: Grid,
    after: Grid,
    line: Seq<(u32, u32)>,
    chosen: spec_fn(Color) -> bool,
) -> bool {
    let mask = selection(before, line, chosen);
    &&& forall|s: int, e: int| #[trigger]
        is_run(mask, s, e) ==> sorted_along(before, after, line.subrange(s, e))
    &&& forall|i: int|
        0 <= i < line.len() && !in_some_run(mask, i) ==> after.color_at(#[trigger] line[i])
            == before.color_at(line[i])
}

/// Whether `after` is `before` with every row sorted from left to right.
pub open spec fn rows_sorted(before: Grid, after: Grid, chosen: spec_fn(Color) -> bool) -> bool {
    &&& after.width == before.width
    &&& after.height == before.height
    &&& forall|y: u32|
        y < before.height ==> path_sorted(
            before,
            after,
            #[trigger] row_of(before.width, y),
            chosen,
        )
}

/// Whether `after` is `before` with every column sorted from top to bottom.
pub open spec fn columns_sorted(before: Grid, after: Grid, chosen: spec_fn(Color) -> bool) -> bool {
    &&& after.width == before.width
    &&& after.height == before.height
    &&& forall|x: u32|
        x < before.width ==> path_sorted(
            before,
            after,
            #[trigger] column_of(before.height, x),
            chosen,
        )
}

/// Whether `after` is `before` with the one path `line` sorted and every
/// pixel off the path as it was.
pub open spec fn line_sorted(
    before: Grid,
    after: Grid,
    line: Seq<(u32, u32)>,
    chosen: spec_fn(Color) -> bool,
) -> bool {
    &&& after.width == before.width
    &&& after.height == before.height
    &&& path_sorted(before, after, line, chosen)
    &&& forall|c: (int, int)|
        before.contains(c) && !within(line, c) ==> #[trigger] after.pixels[c] == before.pixels[c]
}

/// Whether `endpoints` holds two coordinates inside `g`.
pub open spec fn usable_endpoints(g: Grid, endpoints: Option<((u32, u32), (u32, u32))>) -> bool {
    match endpoints {
        Some(ends) => g.contains(point(ends.0)) && g.contains(point(ends.1)),
        None => false,
    }
}

/// How a pass in the direction `sort_type` ends: well, unless it is to follow
/// a line and lacks two endpoints inside the raster.
pub open spec fn outcome(
    before: Grid,
    sort_type: SortType,
    endpoints: Option<((u32, u32), (u32, u32))>,
) -> Result<(), SortError> {
    if sort_type == SortType::Line && !usable_endpoints(before, endpoints) {
        Err(SortError::InvalidEndpoint)
    } else {
        Ok(())
    }
}

/// What a pass in the direction `sort_type` makes of `before` when `chosen`
/// says which pixels are selected. The backward directions are the forward
/// ones on the raster turned by half a turn. A pass that fails, and a pass
/// along a curve, change nothing.
pub open spec fn pass_sorted(
    before: Grid,
    after: Grid,
    sort_type: SortType,
    endpoints: Option<((u32, u32), (u32, u32))>,
    chosen: spec_fn(Color) -> bool,
) -> bool {
    match sort_type {
        SortType::HorizontalLR => rows_sorted(before, after, chosen),
        SortType::HorizontalRL => rows_sorted(before.rotate180(), after.rotate180(), chosen),
        SortType::VerticalUD => columns_sorted(before, after, chosen),
        SortType::VerticalDU => columns_sorted(before.rotate180(), after.rotate180(), chosen),
        SortType::Bezier => after == before,
        SortType::Line => if usable_endpoints(before, endpoints) {
            line_sorted(
                before,
                after,
                line_of(endpoints.unwrap().0, endpoints.unwrap().1),
                chosen,
            )
        } else {
            after == before
        },
    }
}

/// Sorting a path depends on the pixels along the path alone: two pairs of
/// grids that agree along it are sorted together or not at all.
pub proof fn lemma_path_sorted_frame(
    before: Grid,
    after: Grid,
    before2: Grid,
    after2: Grid,
    line: Seq<(u32, u32)>,
    chosen: spec_fn(Color) -> bool,
)
    requires
        path_sorted(before, after, line, chosen),
        forall|i: int|
            0 <= i < line.len() ==> before2.color_at(#[trigger] line[i]) == before.color_at(
                line[i],
            ),
        forall|i: int|
            0 <= i < line.len() ==> after2.color_at(#[trigger] line[i]) == after.color_at(line[i]),
    ensures
        path_sorted(before2, after2, line, chosen),
{
    let mask = selection(before, line, chosen);
    let mask2 = selection(before2, line, chosen);
    assert(mask2 =~= mask);
    assert forall|s: int, e: int| #[trigger] is_run(mask2, s, e) implies sorted_along(
        before2,
        after2,
        line.subrange(s, e),
    ) by {
        let part = line.subrange(s, e);
        assert(sorted_along(before, after, part));
        assert forall|i: int| 0 <= i < part.len() implies before2.color_at(part[i])
            == before.color_at(part[i]) && after2.color_at(part[i]) == after.color_at(part[i]) by {
            assert(part[i] == line[s + i]);
        }
        assert(before2.colors_along(part) =~= before.colors_along(part));
        assert(after2.colors_along(part) =~= after.colors_along(part));
    }
}

/// The intervals cut from a path on which no coordinate comes twice are at
/// least two coordinates long and share no coordinate, neither within one
/// interval nor between two.
pub proof fn lemma_intervals_separate(line: Seq<(u32, u32)>, mask: Seq<bool>, runs: Seq<Run>)
    requires
        mask.len() == line.len(),
        line.no_duplicates(),
        lists_runs(mask, runs),
    ensures
        forall|k: int| 0 <= k < runs.len() ==> (#[trigger] cut(line, runs)[k]).len() >= 2,
        separate(cut(line, runs)),
{
    let lists = cut(line, runs);
    lemma_runs_partition(mask, runs);
    assert forall|k: int| 0 <= k < runs.len() implies 0 <= (#[trigger] runs[k]).start
        <= runs[k].end <= line.len() by {
        assert(is_run(mask, runs[k].start as int, runs[k].end as int));
    }
    assert forall|k: int| 0 <= k < runs.len() implies (#[trigger] lists[k]).len() >= 2 by {
        assert(runs[k].start + 2 <= runs[k].end);
    }
    assert forall|j: int, a: int, k: int, b: int|
        0 <= j < lists.len() && 0 <= a < lists[j].len() && 0 <= k < lists.len() && 0 <= b
            < lists[k].len() && (j != k || a != b) implies #[trigger] lists[j][a]
        != #[trigger] lists[k][b] by {
        assert(lists[j][a] == line[runs[j].start + a]);
        assert(lists[k][b] == line[runs[k].start + b]);
        if j != k {
            assert(runs[j].end < runs[k].start || runs[k].end < runs[j].start);
        }
        assert(runs[j].start + a != runs[k].start + b);
    }
}

/// Along a sorted path every run holds after the pass the colours it held
/// before, each as often as before, and their lightness never falls from one
/// position of the run to the next.
pub proof fn lemma_sorted_path_runs(
    before: Grid,
    after: Grid,
    line: Seq<(u32, u32)>,
    chosen: spec_fn(Color) -> bool,
    s: int,
    e: int,
)
    requires
        path_sorted(before, after, line, chosen),
        is_run(selection(before, line, chosen), s, e),
    ensures
        after.colors_along(line.subrange(s, e)).to_multiset() == before.colors_along(
            line.subrange(s, e),
        ).to_multiset(),
        forall|i: int|
            s <= i < e - 1 ==> lightness(after.color_at(#[trigger] line[i])) <= lightness(
                after.color_at(line[i + 1]),
            ),
{
    let part = line.subrange(s, e);
    let colors = after.colors_along(part);
    assert(sorted_along(before, after, part));
    assert forall|i: int| s <= i < e - 1 implies lightness(after.color_at(#[trigger] line[i]))
        <= lightness(after.color_at(line[i + 1])) by {
        assert(colors[i - s] == after.color_at(line[i]));
        assert(colors[i - s + 1] == after.color_at(line[i + 1]));
    }
}

/// A pass over the rows leaves the pixel at `c` as it was unless `c` lies in
/// a run of its row.
pub proof fn lemma_rows_keep_gaps(
    before: Grid,
    after: Grid,
    chosen: spec_fn(Color) -> bool,
    c: (u32, u32),
)
    requires
        rows_sorted(before, after, chosen),
        before.contains(point(c)),
        !in_some_run(selection(before, row_of(before.width, c.1), chosen), c.0 as int),
    ensures
        after.color_at(c) == before.color_at(c),
{
    let row = row_of(before.width, c.1);
    assert(path_sorted(before, after, row, chosen));
    assert(row[c.0 as int] == c);
}

/// A pass over the columns leaves the pixel at `c` as it was unless `c` lies
/// in a run of its column.
pub proof fn lemma_columns_keep_gaps(
    before: Grid,
    after: Grid,
    chosen: spec_fn(Color) -> bool,
    c: (u32, u32),
)
    requires
        columns_sorted(before, after, chosen),
        before.contains(point(c)),
        !in_some_run(selection(before, column_of(before.height, c.0), chosen), c.1 as int),
    ensures
        after.color_at(c) == before.color_at(c),
{
    let column = column_of(before.height, c.0);
    assert(path_sorted(before, after, column, chosen));
    assert(column[c.1 as int] == c);
}

/// Segments `line` and sorts each of its intervals. Pixels that lie outside
/// the intervals, on the path or off it, stay as they were.
pub fn sort_path<T: Fn(Color) -> bool>(image: &mut Raster, line: Vec<(u32, u32)>, predicate: &T)
    requires
        old(image)@.covers(line@),
        line@.no_duplicates(),
        accepts_all(*predicate),
    ensures
        final(image)@.width == old(image)@.width,
        final(image)@.height == old(image)@.height,
        forall|c: (int, int)|
            old(image)@.contains(c) && !within(line@, c) ==> #[trigger] final(image)@.pixels[c]
                == old(image)@.pixels[c],
        forall|chosen: spec_fn(Color) -> bool| #[trigger]
            decides(*predicate, chosen) ==> path_sorted(
                old(image)@,
                final(image)@,
                line@,
                chosen,
            ),
{
    let ghost before = image@;
    let ghost path = line@;
    assert(path.len() == line.len());
    let intervals = get_intervals(image, line, predicate);
    let ghost lists = interval_lists(intervals@);
    let ghost mask = choose|mask: Seq<bool>| #[trigger]
        answers(*predicate, before, path, mask) && lists == cut(path, runs_of(mask));
    let ghost runs = runs_of(mask);
    proof {
        lemma_runs_of(mask);
        lemma_intervals_separate(path, mask, runs);
        assert forall|k: int| 0 <= k < lists.len() implies #[trigger] lists[k] == path.subrange(
            runs[k].start as int,
            runs[k].end as int,
        ) by {
            assert(cut(path, runs)[k] == path.subrange(runs[k].start as int, runs[k].end as int));
        }
        assert forall|k: int| 0 <= k < runs.len() implies 0 <= (#[trigger] runs[k]).start
            <= runs[k].end <= path.len() by {
            assert(is_run(mask, runs[k].start as int, runs[k].end as int));
        }
        assert forall|k: int| 0 <= k < intervals@.len() implies before.covers(
            (#[trigger] intervals@[k])@,
        ) by {
            let part = intervals@[k]@;
            assert(part == lists[k]);
            assert forall|i: int| 0 <= i < part.len() implies before.contains(
                point(#[trigger] part[i]),
            ) by {
                assert(part[i] == path[runs[k].start + i]);
            }
        }
    }
    sort(image, intervals);
    proof {
        let after = image@;
        assert forall|c: (int, int)| before.contains(c) && !within(path, c) implies !touches(
            lists,
            c,
        ) by {
            if touches(lists, c) {
                let (k, a) = choose|k: int, a: int|
                    0 <= k < lists.len() && k < lists.len() && 0 <= a < lists[k].len() && point(
                        #[trigger] lists[k][a],
                    ) == c;
                assert(lists[k][a] == path[runs[k].start + a]);
            }
        }
        assert forall|chosen: spec_fn(Color) -> bool| #[trigger]
            decides(*predicate, chosen) implies path_sorted(before, after, path, chosen) by {
            lemma_answers_decided(*predicate, before, path, mask, chosen);
            assert forall|s: int, e: int| #[trigger] is_run(mask, s, e) implies sorted_along(
                before,
                after,
                path.subrange(s, e),
            ) by {
                let k = choose|k: int|
                    0 <= k < runs.len() && (#[trigger] runs[k]).start == s && runs[k].end == e;
                assert(lists[k] == path.subrange(s, e));
                assert(sorted_along(before, after, intervals@[k]@));
            }
            assert forall|i: int|
                0 <= i < path.len() && !in_some_run(mask, i) implies after.color_at(
                #[trigger] path[i],
            ) == before.color_at(path[i]) by {
                let c = point(path[i]);
                if touches(lists, c) {
                    let (k, a) = choose|k: int, a: int|
                        0 <= k < lists.len() && k < lists.len() && 0 <= a < lists[k].len()
                            && point(#[trigger] lists[k][a]) == c;
                    assert(lists[k][a] == path[runs[k].start + a]);
                    assert(path[runs[k].start + a] == path[i]);
                    assert(is_run(mask, runs[k].start as int, runs[k].end as int));
                }
            }
        }
    }
}

/// Whether the rows above row `y` are sorted in `after`.
pub open spec fn rows_sorted_above(
    before: Grid,
    after: Grid,
    y: int,
    chosen: spec_fn(Color) -> bool,
) -> bool {
    forall|r: u32|
        r < y ==> path_sorted(before, after, #[trigger] row_of(before.width, r), chosen)
}

/// Whether the columns left of column `x` are sorted in `after`.
pub open spec fn columns_sorted_left_of(
    before: Grid,
    after: Grid,
    x: int,
    chosen: spec_fn(Color) -> bool,
) -> bool {
    forall|r: u32|
        r < x ==> path_sorted(before, after, #[trigger] column_of(before.height, r), chosen)
}

/// Sorts every row from left to right, the first row first.
pub fn sort_rows<T: Fn(Color) -> bool>(image: &mut Raster, predicate: &T)
    requires
        accepts_all(*predicate),
    ensures
        final(image)@.width == old(image)@.width,
        final(image)@.height == old(image)@.height,
        forall|chosen: spec_fn(Color) -> bool| #[trigger]
            decides(*predicate, chosen) ==> rows_sorted(old(image)@, final(image)@, chosen),
{
    let ghost before = image@;
    let width = image.width();
    let height = image.height();
    let mut y: u32 = 0;
    while y < height
        invariant
            y <= height,
            width == before.width,
            height == before.height,
            image@.width == before.width,
            image@.height == before.height,
            accepts_all(*predicate),
            forall|chosen: spec_fn(Color) -> bool| #[trigger]
                decides(*predicate, chosen) ==> rows_sorted_above(before, image@, y as int, chosen),
            forall|c: (int, int)|
                before.contains(c) && c.1 >= y ==> #[trigger] image@.pixels[c] == before.pixels[c],
        decreases height - y,
    {
        let ghost earlier = image@;
        let line = row_path(width, y);
        let ghost row = line@;
        sort_path(image, line, predicate);
        proof {
            let now = image@;
            assert forall|chosen: spec_fn(Color) -> bool| #[trigger]
                decides(*predicate, chosen) implies rows_sorted_above(
                before,
                now,
                y + 1,
                chosen,
            ) by {
                assert(rows_sorted_above(before, earlier, y as int, chosen));
                assert(path_sorted(earlier, now, row, chosen));
                assert forall|r: u32| r < y + 1 implies path_sorted(
                    before,
                    now,
                    #[trigger] row_of(before.width, r),
                    chosen,
                ) by {
                    let other = row_of(before.width, r);
                    if r < y {
                        assert forall|i: int| 0 <= i < other.len() implies now.color_at(
                            #[trigger] other[i],
                        ) == earlier.color_at(other[i]) by {
                            let c = point(other[i]);
                            assert(earlier.contains(c));
                            assert(!within(row, c));
                        }
                        lemma_path_sorted_frame(before, earlier, before, now, other, chosen);
                    } else {
                        assert(other == row);
                        assert forall|i: int| 0 <= i < row.len() implies before.color_at(
                            #[trigger] row[i],
                        ) == earlier.color_at(row[i]) by {
                            assert(before.contains(point(row[i])));
                        }
                        lemma_path_sorted_frame(earlier, now, before, now, row, chosen);
                    }
                }
            }
            assert forall|c: (int, int)|
                before.contains(c) && c.1 >= y + 1 implies #[trigger] now.pixels[c]
                == before.pixels[c] by {
                assert(earlier.contains(c));
                assert(!within(row, c));
            }
        }
        y = y + 1;
    }
}

/// Sorts every column from top to bottom, the first column first.
pub fn sort_columns<T: Fn(Color) -> bool>(image: &mut Raster, predicate: &T)
    requires
        accepts_all(*predicate),
    ensures
        final(image)@.width == old(image)@.width,
        final(image)@.height == old(image)@.height,
        forall|chosen: spec_fn(Color) -> bool| #[trigger]
            decides(*predicate, chosen) ==> columns_sorted(old(image)@, final(image)@, chosen),
{
    let ghost before = image@;
    let width = image.width();
    let height = image.height();
    let mut x: u32 = 0;
    while x < width
        invariant
            x <= width,
            width == before.width,
            height == before.height,
            image@.width == before.width,
            image@.height == before.height,
            accepts_all(*predicate),
            forall|chosen: spec_fn(Color) -> bool| #[trigger]
                decides(*predicate, chosen) ==> columns_sorted_left_of(
                    before,
                    image@,
                    x as int,
                    chosen,
                ),
            forall|c: (int, int)|
                before.contains(c) && c.0 >= x ==> #[trigger] image@.pixels[c] == before.pixels[c],
        decreases width - x,
    {
        let ghost earlier = image@;
        let line = column_path(height, x);
        let ghost column = line@;
        sort_path(image, line, predicate);
        proof {
            let now = image@;
            assert forall|chosen: spec_fn(Color) -> bool| #[trigger]
                decides(*predicate, chosen) implies columns_sorted_left_of(
                before,
                now,
                x + 1,
                chosen,
            ) by {
                assert(columns_sorted_left_of(before, earlier, x as int, chosen));
                assert(path_sorted(earlier, now, column, chosen));
                assert forall|r: u32| r < x + 1 implies path_sorted(
                    before,
                    now,
                    #[trigger] column_of(before.height, r),
                    chosen,
                ) by {
                    let other = column_of(before.height, r);
                    if r < x {
                        assert forall|i: int| 0 <= i < other.len() implies now.color_at(
                            #[trigger] other[i],
                        ) == earlier.color_at(other[i]) by {
                            let c = point(other[i]);
                            assert(earlier.contains(c));
                            assert(!within(column, c));
                        }
                        lemma_path_sorted_frame(before, earlier, before, now, other, chosen);
                    } else {
                        assert(other == column);
                        assert forall|i: int| 0 <= i < column.len() implies before.color_at(
                            #[trigger] column[i],
                        ) == earlier.color_at(column[i]) by {
                            assert(before.contains(point(column[i])));
                        }
                        lemma_path_sorted_frame(earlier, now, before, now, column, chosen);
                    }
                }
            }
            assert forall|c: (int, int)|
                before.contains(c) && c.0 >= x + 1 implies #[trigger] now.pixels[c]
                == before.pixels[c] by {
                assert(earlier.contains(c));
                assert(!within(column, c));
            }
        }
        x = x + 1;
    }
}

/// The first and the last coordinate of a raster `width` by `height`, the
/// endpoints of its diagonal; none if the raster has no pixel.
pub fn opposite_corners(width: u32, height: u32) -> (corners: Option<((u32, u32), (u32, u32))>)
    ensures
        corners == if width == 0 || height == 0 {
            None::<((u32, u32), (u32, u32))>
        } else {
            Some(((0u32, 0u32), ((width - 1) as u32, (height - 1) as u32)))
        },
{
    if width == 0 || height == 0 {
        None
    } else {
        Some(((0, 0), (width - 1, height - 1)))
    }
}

/// Sorts the pixels along the straight line from `start` to `end`. Fails
/// with `InvalidEndpoint`, and changes nothing, unless both lie inside the
/// raster.
pub fn sort_line<T: Fn(Color) -> bool>(
    image: &mut Raster,
    start: (u32, u32),
    end: (u32, u32),
    predicate: &T,
) -> (done: Result<(), SortError>)
    requires
        accepts_all(*predicate),
    ensures
        done == outcome(old(image)@, SortType::Line, Some((start, end))),
        final(image)@.width == old(image)@.width,
        final(image)@.height == old(image)@.height,
        done.is_err() ==> final(image)@ == old(image)@,
        forall|chosen: spec_fn(Color) -> bool| #[trigger]
            decides(*predicate, chosen) ==> pass_sorted(
                old(image)@,
                final(image)@,
                SortType::Line,
                Some((start, end)),
                chosen,
            ),
{
    let width = image.width();
    let height = image.height();
    if start.0 < width && start.1 < height && end.0 < width && end.1 < height {
        let line = line_path(start, end);
        proof {
            assert forall|i: int| 0 <= i < line@.len() implies image@.contains(
                point(#[trigger] line@[i]),
            ) by {
                assert(within_steps(
                    start.0 as int,
                    line@[i].0 as int,
                    sign(end.0 - start.0),
                    magnitude(end.0 - start.0),
                ));
                assert(within_steps(
                    start.1 as int,
                    line@[i].1 as int,
                    sign(end.1 - start.1),
                    magnitude(end.1 - start.1),
                ));
            }
        }
        sort_path(image, line, predicate);
        Ok(())
    } else {
        Err(SortError::InvalidEndpoint)
    }
}

/// Runs one pass over `image` in the direction `sort_type`. The backward
/// directions turn the raster by half a turn, run the forward pass and turn
/// the raster back. `Line` sorts along the line between `endpoints` and
/// fails with `InvalidEndpoint` unless both are given and lie inside the
/// raster. `Bezier` changes nothing.
pub fn sort_image<T: Fn(Color) -> bool>(
    image: &mut Raster,
    sort_type: SortType,
    endpoints: Option<((u32, u32), (u32, u32))>,
    predicate: &T,
) -> (done: Result<(), SortError>)
    requires
        accepts_all(*predicate),
    ensures
        done == outcome(old(image)@, sort_type, endpoints),
        final(image)@.width == old(image)@.width,
        final(image)@.height == old(image)@.height,
        done.is_err() ==> final(image)@ == old(image)@,
        forall|chosen: spec_fn(Color) -> bool| #[trigger]
            decides(*predicate, chosen) ==> pass_sorted(
                old(image)@,
                final(image)@,
                sort_type,
                endpoints,
                chosen,
            ),
{
    match sort_type {
        SortType::HorizontalLR => {
            sort_rows(image, predicate);
            Ok(())
        },
        SortType::HorizontalRL => {
            let mut turned = image.rotate180();
            sort_rows(&mut turned, predicate);
            proof {
                lemma_rotate180_twice(turned@);
            }
            *image = turned.rotate180();
            Ok(())
        },
        SortType::VerticalUD => {
            sort_columns(image, predicate);
            Ok(())
        },
        SortType::VerticalDU => {
            let mut turned = image.rotate180();
            sort_columns(&mut turned, predicate);
            proof {
                lemma_rotate180_twice(turned@);
            }
            *image = turned.rotate180();
            Ok(())
        },
        SortType::Line => match endpoints {
            Some((start, end)) => sort_line(image, start, end, predicate),
            None => Err(SortError::InvalidEndpoint),
        },
        SortType::Bezier => Ok(()),
    }
}

/// Runs one pass over `image` in which a pixel is selected when its
/// lightness lies in `band`.
pub fn sort_image_in_band(
    image: &mut Raster,
    sort_type: SortType,
    endpoints: Option<((u32, u32), (u32, u32))>,
    band: Band,
) -> (done: Result<(), SortError>)
    ensures
        done == outcome(old(image)@, sort_type, endpoints),
        pass_sorted(old(image)@, final(image)@, sort_type, endpoints, |c: Color| band.holds(c)),
{
    let predicate = |c: Color| -> (inside: bool)
        ensures
            inside == band.holds(c),
        { band.selects(c) };
    proof {
        assert(accepts_all(predicate));
        assert(decides(predicate, |c: Color| band.holds(c)));
    }
    sort_image(image, sort_type, endpoints, &predicate)
}

} // verus!
