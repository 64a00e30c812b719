//! Segmentation: the maximal runs of selected positions along a path.

use vstd::prelude::*;

verus! {

/// The positions `start`, `start + 1`, ..., `end - 1` of a path.
#[derive(Clone, Copy, Debug, PartialEq, Eq, Structural)]
pub struct Run {
    pub start: usize,
    pub end: usize,
}

/// Whether the positions from `start` up to but not including `end` are a
/// run of `mask`: at least two positions, each of them selected, with no
/// selected position directly before or after.
pub open spec fn is_run(mask: Seq<bool>, start: int, end: int) -> bool {
    &&& 0 <= start
    &&& start + 2 <= end <= mask.len()
    &&& forall|i: int| start <= i < end ==> mask[i]
    &&& (start == 0 || !mask[start - 1])
    &&& (end == mask.len() || !mask[end])
}

/// Whether `runs` holds every run of `mask` and nothing else, in the order
/// in which they lie along the path.
pub open spec fn lists_runs(mask: Seq<bool>, runs: Seq<Run>) -> bool {
    &&& forall|k: int|
        0 <= k < runs.len() ==> is_run(mask, (#[trigger] runs[k]).start as int, runs[k].end as int)
    &&& forall|j: int, k: int|
        0 <= j < k < runs.len() ==> (#[trigger] runs[j]).end < (#[trigger] runs[k]).start
    &&& forall|s: int, e: int| #[trigger]
        is_run(mask, s, e) ==> exists|k: int|
            0 <= k < runs.len() && (#[trigger] runs[k]).start == s && runs[k].end == e
}

/// The runs of `mask`, first to last.
pub open spec fn runs_of(mask: Seq<bool>) -> Seq<Run> {
    choose|runs: Seq<Run>| lists_runs(mask, runs)
}

/// Whether position `i` lies in some run of `mask`.
pub open spec fn in_some_run(mask: Seq<bool>, i: int) -> bool {
    exists|s: int, e: int| #[trigger] is_run(mask, s, e) && s <= i < e
}

/// Where the unbroken stretch of selected positions that ends just before
/// position `i` begins; `i` itself if the position before it is not selected.
pub open spec fn stretch_start(mask: Seq<bool>, i: int) -> int
    decreases i,
{
    if 0 < i <= mask.len() && mask[i - 1] {
        stretch_start(mask, i - 1)
    } else {
        i
    }
}

/// Where the unbroken stretch of selected positions that begins at position
/// `i` ends; `i` itself if position `i` is not selected.
pub open spec fn stretch_end(mask: Seq<bool>, i: int) -> int
    decreases mask.len() - i,
{
    if 0 <= i < mask.len() && mask[i] {
        stretch_end(mask, i + 1)
    } else {
        i
    }
}

/// The stretch before position `i` holds selected positions only and cannot
/// be extended to the left.
proof fn lemma_stretch_start(mask: Seq<bool>, i: int)
    requires
        0 <= i <= mask.len(),
    ensures
        0 <= stretch_start(mask, i) <= i,
        forall|p: int| stretch_start(mask, i) <= p < i ==> mask[p],
        stretch_start(mask, i) == 0 || !mask[stretch_start(mask, i) - 1],
    decreases i,
{
    if 0 < i && mask[i - 1] {
        lemma_stretch_start(mask, i - 1);
    }
}

/// The stretch from position `i` on holds selected positions only and cannot
/// be extended to the right.
proof fn lemma_stretch_end(mask: Seq<bool>, i: int)
    requires
        0 <= i <= mask.len(),
    ensures
        i <= stretch_end(mask, i) <= mask.len(),
        forall|p: int| i <= p < stretch_end(mask, i) ==> mask[p],
        stretch_end(mask, i) == mask.len() || !mask[stretch_end(mask, i)],
    decreases mask.len() - i,
{
    if i < mask.len() && mask[i] {
        lemma_stretch_end(mask, i + 1);
    }
}

/// A position lies in a run exactly when it is selected and the position
/// before it or the one after it is selected too. A selected position with no
/// selected neighbour lies in no run.
pub proof fn lemma_in_run_iff_neighbour(mask: Seq<bool>, i: int)
    requires
        0 <= i < mask.len(),
    ensures
        in_some_run(mask, i) <==> mask[i] && ((i > 0 && mask[i - 1]) || (i + 1 < mask.len()
            && mask[i + 1])),
{
    if in_some_run(mask, i) {
        let (s, e) = choose|s: int, e: int| #[trigger] is_run(mask, s, e) && s <= i < e;
        assert(mask[i]);
        if s < i {
            assert(mask[i - 1]);
        } else {
            assert(mask[i + 1]);
        }
    }
    if mask[i] && ((i > 0 && mask[i - 1]) || (i + 1 < mask.len() && mask[i + 1])) {
        let s = stretch_start(mask, i);
        let e = stretch_end(mask, i);
        lemma_stretch_start(mask, i);
        lemma_stretch_end(mask, i);
        if i > 0 && mask[i - 1] {
            lemma_stretch_start(mask, i - 1);
        } else {
            lemma_stretch_end(mask, i + 1);
            lemma_stretch_end(mask, i + 2);
        }
        assert(is_run(mask, s, e));
    }
}

/// Two runs of one mask that share a position are the same run.
pub proof fn lemma_runs_meet(mask: Seq<bool>, s1: int, e1: int, s2: int, e2: int, i: int)
    requires
        is_run(mask, s1, e1),
        is_run(mask, s2, e2),
        s1 <= i < e1,
        s2 <= i < e2,
    ensures
        s1 == s2,
        e1 == e2,
{
    if s1 < s2 {
        assert(mask[s2 - 1]);
    }
    if s2 < s1 {
        assert(mask[s1 - 1]);
    }
    if e1 < e2 {
        assert(mask[e1]);
    }
    if e2 < e1 {
        assert(mask[e2]);
    }
}

/// Listed runs are at least two positions long, and of any two of them one
/// ends before the other starts: no position lies in both.
pub proof fn lemma_runs_partition(mask: Seq<bool>, runs: Seq<Run>)
    requires
        lists_runs(mask, runs),
    ensures
        forall|k: int| 0 <= k < runs.len() ==> (#[trigger] runs[k]).start + 2 <= runs[k].end,
        forall|j: int, k: int|
            0 <= j < runs.len() && 0 <= k < runs.len() && j != k ==> (#[trigger] runs[j]).end < (
            #[trigger] runs[k]).start || runs[k].end < runs[j].start,
{
    assert forall|k: int| 0 <= k < runs.len() implies (#[trigger] runs[k]).start + 2
        <= runs[k].end by {
        assert(is_run(mask, runs[k].start as int, runs[k].end as int));
    }
    assert forall|j: int, k: int|
        0 <= j < runs.len() && 0 <= k < runs.len() && j != k implies (#[trigger] runs[j]).end < (
    #[trigger] runs[k]).start || runs[k].end < runs[j].start by {
        if j < k {
            assert(runs[j].end < runs[k].start);
        } else {
            assert(runs[k].end < runs[j].start);
        }
    }
}

/// Two lists of the runs of one mask agree up to any position of both.
proof fn lemma_runs_agree(mask: Seq<bool>, a: Seq<Run>, b: Seq<Run>, k: int)
    requires
        lists_runs(mask, a),
        lists_runs(mask, b),
        0 <= k < a.len(),
    ensures
        k < b.len(),
        a[k] == b[k],
    decreases k,
{
    if k > 0 {
        lemma_runs_agree(mask, a, b, k - 1);
    }
    assert(is_run(mask, a[k].start as int, a[k].end as int));
    let m = choose|m: int|
        0 <= m < b.len() && (#[trigger] b[m]).start == a[k].start && b[m].end == a[k].end;
    assert(is_run(mask, b[m].start as int, b[m].end as int));
    if m < k {
        lemma_runs_agree(mask, a, b, m);
        assert(a[m].end < a[k].start);
    }
    if m > k {
        assert(is_run(mask, b[k].start as int, b[k].end as int));
        let n = choose|n: int|
            0 <= n < a.len() && (#[trigger] a[n]).start == b[k].start && a[n].end == b[k].end;
        assert(b[k].end < b[m].start);
        if n < k {
            lemma_runs_agree(mask, a, b, n);
            assert(b[n].end < b[k].start);
        } else if n > k {
            assert(a[k].end < a[n].start);
        }
    }
}

/// A mask has one list of runs and no other.
pub proof fn lemma_runs_unique(mask: Seq<bool>, a: Seq<Run>, b: Seq<Run>)
    requires
        lists_runs(mask, a),
        lists_runs(mask, b),
    ensures
        a == b,
{
    if a.len() > 0 {
        lemma_runs_agree(mask, a, b, a.len() - 1);
    }
    if b.len() > 0 {
        lemma_runs_agree(mask, b, a, b.len() - 1);
    }
    assert forall|k: int| 0 <= k < a.len() implies a[k] == b[k] by {
        lemma_runs_agree(mask, a, b, k);
    }
    assert(a =~= b);
}

/// The runs of `mask` that end at or before position `i`, first to last.
pub open spec fn runs_until(mask: Seq<bool>, i: int) -> Seq<Run>
    decreases i,
{
    if i <= 0 {
        Seq::empty()
    } else if is_run(mask, stretch_start(mask, i), i) {
        runs_until(mask, i - 1).push(
            Run { start: stretch_start(mask, i) as usize, end: i as usize },
        )
    } else {
        runs_until(mask, i - 1)
    }
}

/// `runs_until` holds every run that ends at or before position `i`, in
/// order, and nothing else.
proof fn lemma_runs_until(mask: Seq<bool>, i: int)
    requires
        0 <= i <= mask.len() <= usize::MAX,
    ensures
        forall|k: int|
            0 <= k < runs_until(mask, i).len() ==> is_run(
                mask,
                (#[trigger] runs_until(mask, i)[k]).start as int,
                runs_until(mask, i)[k].end as int,
            ) && runs_until(mask, i)[k].end <= i,
        forall|j: int, k: int|
            0 <= j < k < runs_until(mask, i).len() ==> (#[trigger] runs_until(mask, i)[j]).end < (
            #[trigger] runs_until(mask, i)[k]).start,
        forall|s: int, e: int| #[trigger]
            is_run(mask, s, e) && e <= i ==> exists|k: int|
                0 <= k < runs_until(mask, i).len() && (#[trigger] runs_until(mask, i)[k]).start
                    == s && runs_until(mask, i)[k].end == e,
    decreases i,
{
    if i > 0 {
        lemma_runs_until(mask, i - 1);
        lemma_stretch_start(mask, i);
        let earlier = runs_until(mask, i - 1);
        let now = runs_until(mask, i);
        let first = stretch_start(mask, i);
        if is_run(mask, first, i) {
            assert forall|k: int| 0 <= k < now.len() implies is_run(
                mask,
                (#[trigger] now[k]).start as int,
                now[k].end as int,
            ) && now[k].end <= i by {
                if k < earlier.len() {
                    assert(now[k] == earlier[k]);
                }
            }
            assert forall|j: int, k: int| 0 <= j < k < now.len() implies (#[trigger] now[j]).end < (
            #[trigger] now[k]).start by {
                assert(now[j] == earlier[j]);
                assert(is_run(mask, earlier[j].start as int, earlier[j].end as int));
                if k < earlier.len() {
                    assert(now[k] == earlier[k]);
                } else {
                    if first <= earlier[j].end {
                        assert(mask[earlier[j].end as int]);
                    }
                }
            }
        } else {
            assert(now == earlier);
        }
        assert forall|s: int, e: int| #[trigger] is_run(mask, s, e) && e <= i implies exists|k: int|
            0 <= k < now.len() && (#[trigger] now[k]).start == s && now[k].end == e by {
            if e == i {
                if s < first {
                    assert(mask[first - 1]);
                }
                if first < s {
                    assert(mask[s - 1]);
                }
                assert(now[earlier.len() as int].start == s);
            } else {
                let k = choose|k: int|
                    0 <= k < earlier.len() && (#[trigger] earlier[k]).start == s && earlier[k].end
                        == e;
                assert(now[k] == earlier[k]);
            }
        }
    }
}

/// Every mask has its list of runs: `runs_of` names it.
pub proof fn lemma_runs_of(mask: Seq<bool>)
    requires
        mask.len() <= usize::MAX,
    ensures
        lists_runs(mask, runs_of(mask)),
{
    lemma_runs_until(mask, mask.len() as int);
    assert(lists_runs(mask, runs_until(mask, mask.len() as int)));
}

/// Finds the runs of `mask` in one pass from the first position to the last.
/// A selected position with no selected neighbour belongs to no run.
pub fn segment(mask: &Vec<bool>) -> (runs: Vec<Run>)
    ensures
        lists_runs(mask@, runs@),
        runs@ == runs_of(mask@),
{
    let mut runs: Vec<Run> = Vec::new();
    let mut in_run = false;
    let mut run_start: usize = 0;
    let mut run_extra: usize = 0;
    let mut i: usize = 0;
    while i < mask.len()
        invariant
            i <= mask@.len(),
            in_run ==> run_start + run_extra + 1 == i,
            in_run ==> forall|p: int| run_start <= p < i ==> mask@[p],
            in_run ==> run_start == 0 || !mask@[run_start - 1],
            !in_run ==> i == 0 || !mask@[i - 1],
            !in_run ==> run_extra == 0,
            forall|k: int|
                0 <= k < runs@.len() ==> is_run(
                    mask@,
                    (#[trigger] runs@[k]).start as int,
                    runs@[k].end as int,
                ),
            forall|k: int| 0 <= k < runs@.len() ==> (#[trigger] runs@[k]).end < i,
            in_run ==> forall|k: int| 0 <= k < runs@.len() ==> (#[trigger] runs@[k]).end < run_start,
            forall|j: int, k: int|
                0 <= j < k < runs@.len() ==> (#[trigger] runs@[j]).end < (#[trigger] runs@[k]).start,
            forall|s: int, e: int| #[trigger]
                is_run(mask@, s, e) && e < i ==> exists|k: int|
                    0 <= k < runs@.len() && (#[trigger] runs@[k]).start == s && runs@[k].end == e,
        decreases mask@.len() - i,
    {
        let ghost before = runs@;
        if mask[i] {
            if in_run {
                run_extra = run_extra + 1;
            } else {
                run_start = i;
                run_extra = 0;
                in_run = true;
            }
            assert forall|s: int, e: int| #[trigger] is_run(mask@, s, e) && e < i + 1 implies exists|
                k: int,
            |
                0 <= k < runs@.len() && (#[trigger] runs@[k]).start == s && runs@[k].end == e by {
                assert(e != i);
            }
        } else {
            if in_run {
                if run_extra != 0 {
                    let run = Run { start: run_start, end: i };
                    assert(is_run(mask@, run_start as int, i as int));
                    runs.push(run);
                    assert(runs@[before.len() as int] == run);
                    assert forall|k: int| 0 <= k < runs@.len() implies is_run(
                        mask@,
                        (#[trigger] runs@[k]).start as int,
                        runs@[k].end as int,
                    ) by {
                        if k < before.len() {
                            assert(runs@[k] == before[k]);
                        }
                    }
                    assert forall|j: int, k: int| 0 <= j < k < runs@.len() implies (
                    #[trigger] runs@[j]).end < (#[trigger] runs@[k]).start by {
                        assert(runs@[j] == before[j]);
                        if k < before.len() {
                            assert(runs@[k] == before[k]);
                        }
                    }
                }
                assert forall|s: int, e: int| #[trigger]
                    is_run(mask@, s, e) && e < i + 1 implies exists|k: int|
                    0 <= k < runs@.len() && (#[trigger] runs@[k]).start == s && runs@[k].end
                        == e by {
                    if e == i {
                        if s < run_start {
                            assert(mask@[run_start - 1]);
                        }
                        if s > run_start {
                            assert(mask@[s - 1]);
                        }
                        assert(s == run_start);
                        assert(run_extra != 0);
                        assert(runs@[before.len() as int].start == s);
                    } else {
                        let k = choose|k: int|
                            0 <= k < before.len() && (#[trigger] before[k]).start == s
                                && before[k].end == e;
                        assert(runs@[k] == before[k]);
                    }
                }
                in_run = false;
                run_extra = 0;
            } else {
                assert forall|s: int, e: int| #[trigger]
                    is_run(mask@, s, e) && e < i + 1 implies exists|k: int|
                    0 <= k < runs@.len() && (#[trigger] runs@[k]).start == s && runs@[k].end
                        == e by {
                    if e == i {
                        assert(mask@[i - 1]);
                    }
                }
            }
        }
        i = i + 1;
    }
    let ghost before = runs@;
    if in_run && run_extra != 0 {
        let run = Run { start: run_start, end: i };
        assert(is_run(mask@, run_start as int, i as int));
        runs.push(run);
        assert(runs@[before.len() as int] == run);
        assert forall|k: int| 0 <= k < runs@.len() implies is_run(
            mask@,
            (#[trigger] runs@[k]).start as int,
            runs@[k].end as int,
        ) by {
            if k < before.len() {
                assert(runs@[k] == before[k]);
            }
        }
        assert forall|j: int, k: int| 0 <= j < k < runs@.len() implies (#[trigger] runs@[j]).end < (
        #[trigger] runs@[k]).start by {
            assert(runs@[j] == before[j]);
            if k < before.len() {
                assert(runs@[k] == before[k]);
            }
        }
    }
    proof {
        assert forall|s: int, e: int| #[trigger] is_run(mask@, s, e) implies exists|k: int|
            0 <= k < runs@.len() && (#[trigger] runs@[k]).start == s && runs@[k].end == e by {
            if e == i {
                if in_run {
                    if s < run_start {
                        assert(mask@[run_start - 1]);
                    }
                    if s > run_start {
                        assert(mask@[s - 1]);
                    }
                    assert(s == run_start);
                    assert(run_extra != 0);
                    assert(runs@[before.len() as int].start == s);
                } else {
                    assert(mask@[i - 1]);
                }
            } else {
                let k = choose|k: int|
                    0 <= k < before.len() && (#[trigger] before[k]).start == s && before[k].end
                        == e;
                assert(runs@[k] == before[k]);
            }
        }
        assert(lists_runs(mask@, runs@));
        lemma_runs_unique(mask@, runs@, runs_of(mask@));
    }
    runs
}

} // verus!
