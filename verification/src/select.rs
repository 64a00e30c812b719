//! Selection: which pixels may belong to a run, and the intervals of a path
//! that the selected pixels form.

use vstd::prelude::*;
use crate::color::{get_lightness, lightness, Color};
use crate::grid::Grid;
use crate::raster::Raster;
use crate::segment::{is_run, lists_runs, runs_of, segment, Run};

verus! {

/// A band of lightness, both ends included, in units of 1/510.
#[derive(Clone, Copy, Debug, PartialEq, Eq, Structural)]
pub struct Band {
    pub low: u16,
    pub high: u16,
}

impl Band {
    /// Whether the lightness of `color` lies in the band.
    pub open spec fn holds(self, color: Color) -> bool {
        self.low <= lightness(color) <= self.high
    }

    /// Tests whether the lightness of `color` lies in the band.
    pub fn selects(&self, color: Color) -> (inside: bool)
        ensures
            inside == self.holds(color),
    {
        let key = get_lightness(color);
        self.low <= key && key <= self.high
    }
}

impl Default for Band {
    /// The band from a quarter to four fifths of full lightness: 128 is the
    /// least multiple of 1/510 that is not below 0.25, and 408 is 0.8.
    fn default() -> (band: Band)
        ensures
            band.low == 128,
            band.high == 408,
    {
        Band { low: 128, high: 408 }
    }
}

/// Whether `predicate` can be asked about every colour.
pub open spec fn accepts_all<T: Fn(Color) -> bool>(predicate: T) -> bool {
    forall|c: Color| #[trigger] call_requires(predicate, (c,))
}

/// Whether every answer that `predicate` can give is the one that `chosen`
/// gives: `predicate` computes the function `chosen`.
pub open spec fn decides<T: Fn(Color) -> bool>(predicate: T, chosen: spec_fn(Color) -> bool) -> bool {
    forall|c: Color, answer: bool| #[trigger]
        call_ensures(predicate, (c,), answer) ==> answer == chosen(c)
}

/// Whether `mask` holds, for each position of `line`, an answer that
/// `predicate` can give about the pixel that `g` has there.
pub open spec fn answers<T: Fn(Color) -> bool>(
    predicate: T,
    g: Grid,
    line: Seq<(u32, u32)>,
    mask: Seq<bool>,
) -> bool {
    &&& mask.len() == line.len()
    &&& forall|i: int|
        0 <= i < line.len() ==> call_ensures(predicate, (g.color_at(line[i]),), #[trigger] mask[i])
}

/// For each position of `line`, whether `chosen` holds of the pixel that `g`
/// has there.
pub open spec fn selection(g: Grid, line: Seq<(u32, u32)>, chosen: spec_fn(Color) -> bool) -> Seq<
    bool,
> {
    Seq::new(line.len(), |i: int| chosen(g.color_at(line[i])))
}

/// The answers of a predicate that computes `chosen` are the selection that
/// `chosen` makes.
pub proof fn lemma_answers_decided<T: Fn(Color) -> bool>(
    predicate: T,
    g: Grid,
    line: Seq<(u32, u32)>,
    mask: Seq<bool>,
    chosen: spec_fn(Color) -> bool,
)
    requires
        answers(predicate, g, line, mask),
        decides(predicate, chosen),
    ensures
        mask == selection(g, line, chosen),
{
    assert forall|i: int| 0 <= i < line.len() implies mask[i] == chosen(g.color_at(line[i])) by {
        assert(call_ensures(predicate, (g.color_at(line[i]),), mask[i]));
    }
    assert(mask =~= selection(g, line, chosen));
}

/// Whether `lists` holds the intervals of `line`: for some answers of
/// `predicate` about the pixels along the line, the coordinates of each run
/// of selected positions, run by run.
pub open spec fn segments<T: Fn(Color) -> bool>(
    predicate: T,
    g: Grid,
    line: Seq<(u32, u32)>,
    lists: Seq<Seq<(u32, u32)>>,
) -> bool {
    exists|mask: Seq<bool>| #[trigger]
        answers(predicate, g, line, mask) && lists == cut(line, runs_of(mask))
}

/// The stretches of `line` that `runs` name, one list of coordinates for
/// each run.
pub open spec fn cut(line: Seq<(u32, u32)>, runs: Seq<Run>) -> Seq<Seq<(u32, u32)>> {
    Seq::new(runs.len(), |k: int| line.subrange(runs[k].start as int, runs[k].end as int))
}

/// The coordinate lists that a vector of intervals holds.
pub open spec fn interval_lists(intervals: Seq<Vec<(u32, u32)>>) -> Seq<Seq<(u32, u32)>> {
    Seq::new(intervals.len(), |k: int| intervals[k]@)
}

/// Asks `predicate` about the pixel at each coordinate of `line`, once each,
/// first to last.
pub fn selection_mask<T: Fn(Color) -> bool>(
    image: &Raster,
    line: &Vec<(u32, u32)>,
    predicate: &T,
) -> (mask: Vec<bool>)
    requires
        image@.covers(line@),
        accepts_all(*predicate),
    ensures
        answers(*predicate, image@, line@, mask@),
{
    let mut mask: Vec<bool> = Vec::new();
    let mut i: usize = 0;
    while i < line.len()
        invariant
            i <= line@.len(),
            image@.covers(line@),
            accepts_all(*predicate),
            mask@.len() == i,
            forall|k: int|
                0 <= k < i ==> call_ensures(
                    *predicate,
                    (image@.color_at(line@[k]),),
                    #[trigger] mask@[k],
                ),
        decreases line@.len() - i,
    {
        let (x, y) = line[i];
        assert(image@.contains(crate::grid::point(line@[i as int])));
        let color = image.get_pixel(x, y);
        assert(call_requires(*predicate, (color,)));
        let chosen = predicate(color);
        mask.push(chosen);
        i = i + 1;
    }
    mask
}

/// Copies out of `line` the coordinates of each run, run by run.
pub fn cut_intervals(line: &Vec<(u32, u32)>, runs: &Vec<Run>) -> (intervals: Vec<Vec<(u32, u32)>>)
    requires
        forall|k: int|
            0 <= k < runs@.len() ==> (#[trigger] runs@[k]).start <= runs@[k].end <= line@.len(),
    ensures
        interval_lists(intervals@) == cut(line@, runs@),
{
    let mut intervals: Vec<Vec<(u32, u32)>> = Vec::new();
    let mut k: usize = 0;
    while k < runs.len()
        invariant
            k <= runs@.len(),
            intervals@.len() == k,
            forall|j: int|
                0 <= j < runs@.len() ==> (#[trigger] runs@[j]).start <= runs@[j].end
                    <= line@.len(),
            forall|j: int|
                0 <= j < k ==> (#[trigger] intervals@[j])@ == line@.subrange(
                    runs@[j].start as int,
                    runs@[j].end as int,
                ),
        decreases runs@.len() - k,
    {
        let run = runs[k];
        let mut interval: Vec<(u32, u32)> = Vec::new();
        let mut i: usize = run.start;
        while i < run.end
            invariant
                run.start <= i <= run.end <= line@.len(),
                interval@ == line@.subrange(run.start as int, i as int),
            decreases run.end - i,
        {
            interval.push(line[i]);
            i = i + 1;
            assert(interval@ =~= line@.subrange(run.start as int, i as int));
        }
        intervals.push(interval);
        k = k + 1;
    }
    assert(interval_lists(intervals@) =~= cut(line@, runs@));
    intervals
}

/// The intervals of `line`: for each run of positions whose pixels
/// `predicate` selects, at least two positions long and not part of a longer
/// one, the coordinates at those positions, in path order. The predicate is
/// asked once about each position.
pub fn get_intervals<T: Fn(Color) -> bool>(
    image: &Raster,
    line: Vec<(u32, u32)>,
    predicate: &T,
) -> (intervals: Vec<Vec<(u32, u32)>>)
    requires
        image@.covers(line@),
        accepts_all(*predicate),
    ensures
        segments(*predicate, image@, line@, interval_lists(intervals@)),
        forall|chosen: spec_fn(Color) -> bool| #[trigger]
            decides(*predicate, chosen) ==> interval_lists(intervals@) == cut(
                line@,
                runs_of(selection(image@, line@, chosen)),
            ),
{
    let mask = selection_mask(image, &line, predicate);
    let runs = segment(&mask);
    proof {
        assert forall|k: int| 0 <= k < runs@.len() implies (#[trigger] runs@[k]).start
            <= runs@[k].end <= line@.len() by {
            assert(is_run(mask@, runs@[k].start as int, runs@[k].end as int));
        }
    }
    let intervals = cut_intervals(&line, &runs);
    proof {
        assert forall|chosen: spec_fn(Color) -> bool| #[trigger]
            decides(*predicate, chosen) implies interval_lists(intervals@) == cut(
            line@,
            runs_of(selection(image@, line@, chosen)),
        ) by {
            lemma_answers_decided(*predicate, image@, line@, mask@, chosen);
        }
    }
    intervals
}

} // verus!
