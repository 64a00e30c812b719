//! The run sorter: the pixels of an interval are put back in order of
//! ascending lightness along the interval.

use vstd::prelude::*;
use vstd::seq_lib::{to_multiset_contains, to_multiset_len, to_multiset_remove};
use crate::color::{get_lightness, lightness, Color};
use crate::grid::{point, Grid};
use crate::raster::Raster;
use crate::select::interval_lists;

verus! {

/// A pixel taken out of a raster to be sorted: where it stood, its colour,
/// and the lightness of that colour in units of 1/510.
#[derive(Clone, Copy, Debug)]
pub struct SortPixel {
    pub x: u32,
    pub y: u32,
    pub color: Color,
    pub lightness: u16,
}

impl SortPixel {
    /// Whether the recorded lightness is that of the recorded colour.
    pub open spec fn wf(self) -> bool {
        self.lightness as int == lightness(self.color)
    }

    /// Reads the pixel at `(x, y)`, a coordinate inside `image`.
    pub fn new(image: &Raster, x: u32, y: u32) -> (pixel: SortPixel)
        requires
            image@.contains((x as int, y as int)),
        ensures
            pixel.x == x,
            pixel.y == y,
            pixel.color == image@.pixels[(x as int, y as int)],
            pixel.wf(),
    {
        let color = image.get_pixel(x, y);
        SortPixel { x, y, color, lightness: get_lightness(color) }
    }
}

/// The colours of a sequence of pixels, in the same order.
pub open spec fn colors_of(pixels: Seq<SortPixel>) -> Seq<Color> {
    Seq::new(pixels.len(), |i: int| pixels[i].color)
}

/// Whether lightness never falls from one colour to a later one.
pub open spec fn ascending(colors: Seq<Color>) -> bool {
    forall|i: int, j: int|
        0 <= i <= j < colors.len() ==> lightness(#[trigger] colors[i]) <= lightness(
            #[trigger] colors[j],
        )
}

/// Whether `after` holds along `interval` the colours that `before` holds
/// there, rearranged so that lightness never falls along the interval.
pub open spec fn sorted_along(before: Grid, after: Grid, interval: Seq<(u32, u32)>) -> bool {
    &&& ascending(after.colors_along(interval))
    &&& after.colors_along(interval).to_multiset() == before.colors_along(interval).to_multiset()
}

/// Whether no coordinate occurs twice in `intervals`, be it in one interval
/// or in two.
pub open spec fn separate(intervals: Seq<Seq<(u32, u32)>>) -> bool {
    forall|j: int, a: int, k: int, b: int|
        0 <= j < intervals.len() && 0 <= a < intervals[j].len() && 0 <= k < intervals.len() && 0
            <= b < intervals[k].len() && (j != k || a != b) ==> #[trigger] intervals[j][a]
            != #[trigger] intervals[k][b]
}

/// Whether the coordinate `c` occurs in one of the first `n` of `intervals`.
pub open spec fn touches_first(intervals: Seq<Seq<(u32, u32)>>, n: int, c: (int, int)) -> bool {
    exists|k: int, a: int|
        0 <= k < n && k < intervals.len() && 0 <= a < intervals[k].len() && point(
            #[trigger] intervals[k][a],
        ) == c
}

/// Whether the coordinate `c` occurs in one of `intervals`.
pub open spec fn touches(intervals: Seq<Seq<(u32, u32)>>, c: (int, int)) -> bool {
    touches_first(intervals, intervals.len() as int, c)
}

/// Whether the coordinate `c` occurs in `interval`.
pub open spec fn within(interval: Seq<(u32, u32)>, c: (int, int)) -> bool {
    exists|i: int| 0 <= i < interval.len() && point(#[trigger] interval[i]) == c
}

/// `sort_unstable_by_key` of slices, keyed by the recorded lightness: the
/// same pixels in an order in which the recorded lightness never falls.
/// Which of two pixels of equal lightness comes first is left open.
#[verifier::external_body]
fn sort_by_lightness(pixels: &mut Vec<SortPixel>)
    ensures
        final(pixels)@.to_multiset() == old(pixels)@.to_multiset(),
        forall|i: int, j: int|
            0 <= i <= j < final(pixels)@.len() ==> (#[trigger] final(pixels)@[i]).lightness <= (
            #[trigger] final(pixels)@[j]).lightness,
{
    pixels.sort_unstable_by_key(|pixel| pixel.lightness);
}

/// Rearranging a sequence of pixels rearranges its colours: the colours stay
/// the same as a multiset.
proof fn lemma_colors_rearranged(a: Seq<SortPixel>, b: Seq<SortPixel>)
    requires
        a.to_multiset() == b.to_multiset(),
    ensures
        colors_of(a).to_multiset() == colors_of(b).to_multiset(),
    decreases a.len(),
{
    to_multiset_len(a);
    to_multiset_len(b);
    if a.len() == 0 {
        assert(colors_of(a) =~= colors_of(b));
    } else {
        let last = a.len() - 1;
        let x = a[last];
        assert(a.contains(x));
        to_multiset_contains(a, x);
        to_multiset_contains(b, x);
        let j = choose|j: int| 0 <= j < b.len() && b[j] == x;
        to_multiset_remove(a, last);
        to_multiset_remove(b, j);
        lemma_colors_rearranged(a.remove(last), b.remove(j));
        let ca = colors_of(a);
        let cb = colors_of(b);
        assert(colors_of(a.remove(last)) =~= ca.remove(last));
        assert(colors_of(b.remove(j)) =~= cb.remove(j));
        to_multiset_remove(ca, last);
        to_multiset_remove(cb, j);
        assert(ca[last] == x.color);
        assert(cb[j] == x.color);
        assert(ca.contains(x.color));
        assert(cb.contains(x.color));
        to_multiset_contains(ca, x.color);
        to_multiset_contains(cb, x.color);
        let ma = ca.to_multiset();
        let mb = cb.to_multiset();
        assert(ma.remove(x.color) == mb.remove(x.color));
        assert forall|v: Color| ma.count(v) == mb.count(v) by {
            assert(ma.remove(x.color).count(v) == mb.remove(x.color).count(v));
        }
        assert(ma =~= mb);
    }
}

/// Sorts the pixels of one interval: afterwards the interval's coordinates
/// hold the colours they held before, the colour of least lightness at the
/// first coordinate and so on. No other pixel is read or written.
pub fn sort_interval(image: &mut Raster, interval: &Vec<(u32, u32)>)
    requires
        old(image)@.covers(interval@),
        interval@.no_duplicates(),
    ensures
        final(image)@.width == old(image)@.width,
        final(image)@.height == old(image)@.height,
        sorted_along(old(image)@, final(image)@, interval@),
        forall|c: (int, int)|
            old(image)@.contains(c) && !within(interval@, c) ==> #[trigger] final(image)@.pixels[c]
                == old(image)@.pixels[c],
{
    let ghost before = image@;
    let mut pixels: Vec<SortPixel> = Vec::new();
    let mut i: usize = 0;
    while i < interval.len()
        invariant
            i <= interval@.len(),
            image@ == before,
            before.covers(interval@),
            pixels@.len() == i,
            forall|k: int|
                0 <= k < i ==> (#[trigger] pixels@[k]).wf() && pixels@[k].color == before.color_at(
                    interval@[k],
                ),
        decreases interval@.len() - i,
    {
        let (x, y) = interval[i];
        assert(before.contains(point(interval@[i as int])));
        pixels.push(SortPixel::new(image, x, y));
        i = i + 1;
    }
    let ghost unsorted = pixels@;
    sort_by_lightness(&mut pixels);
    proof {
        to_multiset_len(unsorted);
        to_multiset_len(pixels@);
        lemma_colors_rearranged(pixels@, unsorted);
        assert(colors_of(unsorted) =~= before.colors_along(interval@));
        assert forall|k: int| 0 <= k < pixels@.len() implies (#[trigger] pixels@[k]).wf() by {
            let p = pixels@[k];
            assert(pixels@.contains(p));
            to_multiset_contains(pixels@, p);
            to_multiset_contains(unsorted, p);
            let j = choose|j: int| 0 <= j < unsorted.len() && unsorted[j] == p;
            assert(unsorted[j].wf());
        }
    }
    let mut index: usize = 0;
    while index < interval.len()
        invariant
            index <= interval@.len(),
            pixels@.len() == interval@.len(),
            interval@.no_duplicates(),
            before.covers(interval@),
            image@.width == before.width,
            image@.height == before.height,
            forall|k: int|
                0 <= k < index ==> image@.color_at(#[trigger] interval@[k]) == pixels@[k].color,
            forall|c: (int, int)|
                before.contains(c) && !(exists|k: int|
                    0 <= k < index && point(#[trigger] interval@[k]) == c)
                    ==> #[trigger] image@.pixels[c] == before.pixels[c],
        decreases interval@.len() - index,
    {
        let (x, y) = interval[index];
        let pixel = pixels[index];
        let ghost earlier = image@;
        assert(before.contains(point(interval@[index as int])));
        image.put_pixel(x, y, pixel.color);
        proof {
            let here = point(interval@[index as int]);
            assert forall|k: int| 0 <= k < index + 1 implies image@.color_at(
                #[trigger] interval@[k],
            ) == pixels@[k].color by {
                if k < index {
                    assert(interval@[k] != interval@[index as int]);
                    assert(earlier.color_at(interval@[k]) == pixels@[k].color);
                }
            }
            assert forall|c: (int, int)|
                before.contains(c) && !(exists|k: int|
                    0 <= k < index + 1 && point(#[trigger] interval@[k]) == c)
                    implies #[trigger] image@.pixels[c] == before.pixels[c] by {
                assert(c != here);
                assert(!(exists|k: int| 0 <= k < index && point(#[trigger] interval@[k]) == c));
                assert(earlier.pixels[c] == before.pixels[c]);
            }
        }
        index = index + 1;
    }
    proof {
        let after = image@.colors_along(interval@);
        assert(after =~= colors_of(pixels@));
        assert forall|a: int, b: int| 0 <= a <= b < after.len() implies lightness(
            #[trigger] after[a],
        ) <= lightness(#[trigger] after[b]) by {
            assert(pixels@[a].wf());
            assert(pixels@[b].wf());
            assert(pixels@[a].lightness <= pixels@[b].lightness);
        }
    }
}

/// Sorts each interval in turn. Afterwards every interval holds the colours
/// it held before in order of ascending lightness, and a pixel that lies in
/// no interval is as it was.
pub fn sort(image: &mut Raster, intervals: Vec<Vec<(u32, u32)>>)
    requires
        forall|k: int| 0 <= k < intervals@.len() ==> old(image)@.covers((#[trigger] intervals@[k])@),
        separate(interval_lists(intervals@)),
    ensures
        final(image)@.width == old(image)@.width,
        final(image)@.height == old(image)@.height,
        forall|k: int|
            0 <= k < intervals@.len() ==> sorted_along(
                old(image)@,
                final(image)@,
                (#[trigger] intervals@[k])@,
            ),
        forall|c: (int, int)|
            old(image)@.contains(c) && !touches(interval_lists(intervals@), c)
                ==> #[trigger] final(image)@.pixels[c] == old(image)@.pixels[c],
{
    let ghost before = image@;
    let ghost lists = interval_lists(intervals@);
    let mut k: usize = 0;
    while k < intervals.len()
        invariant
            k <= intervals@.len(),
            lists == interval_lists(intervals@),
            separate(lists),
            forall|j: int| 0 <= j < intervals@.len() ==> before.covers((#[trigger] intervals@[j])@),
            image@.width == before.width,
            image@.height == before.height,
            forall|j: int|
                0 <= j < k ==> sorted_along(before, image@, (#[trigger] intervals@[j])@),
            forall|c: (int, int)|
                before.contains(c) && !touches_first(lists, k as int, c)
                    ==> #[trigger] image@.pixels[c] == before.pixels[c],
        decreases intervals@.len() - k,
    {
        let ghost earlier = image@;
        let ghost this = intervals@[k as int]@;
        proof {
            assert(lists[k as int] == this);
            assert forall|a: int, b: int|
                0 <= a < this.len() && 0 <= b < this.len() && a != b implies this[a]
                != this[b] by {
                assert(lists[k as int][a] != lists[k as int][b]);
            }
            assert forall|i: int| 0 <= i < this.len() implies earlier.contains(
                point(#[trigger] this[i]),
            ) by {
                assert(before.contains(point(this[i])));
            }
        }
        sort_interval(image, &intervals[k]);
        proof {
            let now = image@;
            // the interval still held the colours of `before` when it was sorted
            assert forall|i: int| 0 <= i < this.len() implies earlier.color_at(#[trigger] this[i])
                == before.color_at(this[i]) by {
                let c = point(this[i]);
                assert(before.contains(c));
                if touches_first(lists, k as int, c) {
                    let (j, a) = choose|j: int, a: int|
                        0 <= j < k && j < lists.len() && 0 <= a < lists[j].len() && point(
                            #[trigger] lists[j][a],
                        ) == c;
                    assert(lists[j][a] != lists[k as int][i]);
                }
            }
            assert(earlier.colors_along(this) =~= before.colors_along(this));
            // the intervals sorted earlier were not touched
            assert forall|j: int| 0 <= j < k implies sorted_along(
                before,
                now,
                (#[trigger] intervals@[j])@,
            ) by {
                let other = intervals@[j]@;
                assert(lists[j] == other);
                assert(sorted_along(before, earlier, other));
                assert forall|a: int| 0 <= a < other.len() implies now.color_at(
                    #[trigger] other[a],
                ) == earlier.color_at(other[a]) by {
                    let c = point(other[a]);
                    assert(before.contains(c));
                    if within(this, c) {
                        let i = choose|i: int|
                            0 <= i < this.len() && point(#[trigger] this[i]) == c;
                        assert(lists[j][a] != lists[k as int][i]);
                    }
                }
                assert(now.colors_along(other) =~= earlier.colors_along(other));
            }
            assert forall|c: (int, int)|
                before.contains(c) && !touches_first(lists, k + 1, c) implies #[trigger] now.pixels[c]
                == before.pixels[c] by {
                assert(!touches_first(lists, k as int, c));
                if within(this, c) {
                    let i = choose|i: int| 0 <= i < this.len() && point(#[trigger] this[i]) == c;
                    assert(point(lists[k as int][i]) == c);
                }
            }
        }
        k = k + 1;
    }
}

} // verus!
