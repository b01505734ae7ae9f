//! What a pixel renderer draws for a sparkline, by sample position: the
//! polyline and its area fill, broken at gaps; the points that markers
//! highlight; and how the vertical range makes room for the reference line.
//! The renderer turns positions into coordinates.
use vstd::prelude::*;
use crate::model::{
    comparable, has_present, is_first_min, is_last_max, is_last_present, is_nan, is_nan_sample,
    is_range, lemma_positions, marker_position, sample_gt, sample_lt, Marker, Sparkline,
    SparklineView,
};

verus! {

/// One step of a path through the samples. `MoveTo(i)` and `LineTo(i)` go to
/// the point of sample `i`; `MoveToBase(i)` and `LineToBase(i)` go to the
/// baseline (the bottom edge) below it; `Close` closes the current subpath.
#[derive(Debug, Clone, Copy, PartialEq, Eq, Structural)]
pub enum PathOp {
    MoveTo(usize),
    LineTo(usize),
    MoveToBase(usize),
    LineToBase(usize),
    Close,
}

/// Sample `i` is present and begins a run of present samples.
pub open spec fn starts_run(d: Seq<Option<i64>>, i: int) -> bool {
    d[i] is Some && (i == 0 || d[i - 1] is None)
}

/// The first position of the run of present samples that ends at or goes
/// through `i`.
pub open spec fn run_start(d: Seq<Option<i64>>, i: int) -> int
    decreases i,
{
    if i <= 0 || d[i - 1] is None {
        i
    } else {
        run_start(d, i - 1)
    }
}

/// The polyline through the first `k` samples: each run of present samples
/// is a subpath that starts at its first point and draws a line to each next
/// one; gaps draw nothing.
pub open spec fn stroke_ops(d: Seq<Option<i64>>, k: int) -> Seq<PathOp>
    decreases k,
{
    if k <= 0 {
        Seq::empty()
    } else {
        let i = k - 1;
        stroke_ops(d, i) + if d[i] is None {
            Seq::<PathOp>::empty()
        } else if starts_run(d, i) {
            seq![PathOp::MoveTo(i as usize)]
        } else {
            seq![PathOp::LineTo(i as usize)]
        }
    }
}

/// Closes the area under the run that ends at `i`: down to the baseline,
/// back along it to below the run's first point, and closed.
pub open spec fn close_run(d: Seq<Option<i64>>, i: int) -> Seq<PathOp> {
    seq![
        PathOp::LineToBase(i as usize),
        PathOp::LineToBase(run_start(d, i) as usize),
        PathOp::Close,
    ]
}

/// The area fill under the first `k` samples, without closing a run still
/// open after them: a run starts on the baseline below its first point.
pub open spec fn fill_ops(d: Seq<Option<i64>>, k: int) -> Seq<PathOp>
    decreases k,
{
    if k <= 0 {
        Seq::empty()
    } else {
        let i = k - 1;
        fill_ops(d, i) + if d[i] is Some {
            if starts_run(d, i) {
                seq![PathOp::MoveToBase(i as usize), PathOp::LineTo(i as usize)]
            } else {
                seq![PathOp::LineTo(i as usize)]
            }
        } else if i > 0 && d[i - 1] is Some {
            close_run(d, i - 1)
        } else {
            Seq::<PathOp>::empty()
        }
    }
}

/// The whole area fill: every run closed.
pub open spec fn fill_path_of(d: Seq<Option<i64>>) -> Seq<PathOp> {
    let n = d.len() as int;
    fill_ops(d, n) + if n > 0 && d[n - 1] is Some {
        close_run(d, n - 1)
    } else {
        Seq::<PathOp>::empty()
    }
}

/// The polyline of the Line style.
pub fn stroke_path(s: &Sparkline) -> (ops: Vec<PathOp>)
    ensures
        ops@ == stroke_ops(s@.data, s@.data.len() as int),
{
    let d = s.data();
    let mut ops: Vec<PathOp> = Vec::new();
    let mut i: usize = 0;
    while i < d.len()
        invariant
            i <= d@.len(),
            d@ == s@.data,
            ops@ == stroke_ops(d@, i as int),
        decreases d@.len() - i,
    {
        if d[i].is_some() {
            if i == 0 || d[i - 1].is_none() {
                ops.push(PathOp::MoveTo(i));
            } else {
                ops.push(PathOp::LineTo(i));
            }
        }
        i += 1;
    }
    ops
}

/// The area fill of the Line style.
pub fn fill_path(s: &Sparkline) -> (ops: Vec<PathOp>)
    ensures
        ops@ == fill_path_of(s@.data),
{
    let d = s.data();
    let mut ops: Vec<PathOp> = Vec::new();
    let mut in_run = false;
    let mut start: usize = 0;
    let mut i: usize = 0;
    while i < d.len()
        invariant
            i <= d@.len(),
            d@ == s@.data,
            ops@ == fill_ops(d@, i as int),
            in_run == (i > 0 && d@[i - 1] is Some),
            in_run ==> start == run_start(d@, i - 1),
        decreases d@.len() - i,
    {
        if d[i].is_some() {
            if in_run {
                ops.push(PathOp::LineTo(i));
            } else {
                ops.push(PathOp::MoveToBase(i));
                ops.push(PathOp::LineTo(i));
                start = i;
            }
            in_run = true;
        } else {
            if in_run {
                ops.push(PathOp::LineToBase(i - 1));
                ops.push(PathOp::LineToBase(start));
                ops.push(PathOp::Close);
            }
            in_run = false;
        }
        i += 1;
    }
    if in_run {
        ops.push(PathOp::LineToBase(i - 1));
        ops.push(PathOp::LineToBase(start));
        ops.push(PathOp::Close);
    }
    ops
}

/// The points that the markers highlight, in the order of the markers, the
/// first `k` markers considered: each marker with its position, those that
/// have none left out.
pub open spec fn marker_points_upto(d: Seq<Option<i64>>, ms: Seq<Marker>, k: int) -> Seq<
    (Marker, usize),
>
    decreases k,
{
    if k <= 0 {
        Seq::empty()
    } else {
        marker_points_upto(d, ms, k - 1) + match marker_position(d, ms[k - 1]) {
            Some(i) => seq![(ms[k - 1], i as usize)],
            None => Seq::<(Marker, usize)>::empty(),
        }
    }
}

/// The points that the markers highlight, in the order of the markers.
pub open spec fn marker_points_of(s: SparklineView) -> Seq<(Marker, usize)> {
    marker_points_upto(s.data, s.markers, s.markers.len() as int)
}

/// The points that the markers highlight: the first minimum for `Min`, the
/// last maximum for `Max`, the last present sample for `Current`. A Min or
/// Max marker compares the samples, so then no NaN may be compared.
pub fn marker_points(s: &Sparkline) -> (pts: Vec<(Marker, usize)>)
    requires
        s@.markers.contains(Marker::Min) || s@.markers.contains(Marker::Max) ==> comparable(
            s@.data,
        ),
    ensures
        pts@ == marker_points_of(s@),
{
    let ms = s.markers();
    let mut pts: Vec<(Marker, usize)> = Vec::new();
    let mut k: usize = 0;
    while k < ms.len()
        invariant
            k <= ms@.len(),
            ms@ == s@.markers,
            s@.markers.contains(Marker::Min) || s@.markers.contains(Marker::Max) ==> comparable(
                s@.data,
            ),
            pts@ == marker_points_upto(s@.data, ms@, k as int),
        decreases ms@.len() - k,
    {
        let m = ms[k];
        proof {
            assert(ms@[k as int] == m);
            assert(ms@.contains(m));
        }
        let idx = match m {
            Marker::Min => s.min_index(),
            Marker::Max => s.max_index(),
            Marker::Current => s.current_index(),
        };
        proof {
            match idx {
                Some(i) => {
                    lemma_positions(s@.data, i as int);
                },
                None => {
                    if let Some(p) = marker_position(s@.data, m) {
                        assert(has_present(s@.data)) by {
                            assert(s@.data[p] is Some);
                        }
                    }
                },
            }
        }
        if let Some(i) = idx {
            pts.push((m, i));
        }
        k += 1;
    }
    pts
}

/// How the vertical range is widened so that the reference line shows.
#[derive(Debug, Clone, Copy, PartialEq, Eq, Structural)]
pub enum RangeFit {
    /// The data range is kept: no reference line, or one within the range.
    Keep,
    /// The reference lies above the data: the top is raised so that it sits
    /// at 80% of the height.
    RaiseTop,
    /// The reference lies below the data: the bottom is lowered so that it
    /// sits at 20% of the height.
    LowerBottom,
}

/// How the range of the data is fitted to the reference line. A NaN
/// reference, or a range of NaNs, keeps the range (a NaN compares neither
/// above nor below).
pub open spec fn range_fit_of(s: SparklineView, lo: i64, hi: i64) -> RangeFit {
    match s.reference {
        Some(rv) => if sample_gt(rv, hi) {
            RangeFit::RaiseTop
        } else if sample_lt(rv, lo) {
            RangeFit::LowerBottom
        } else {
            RangeFit::Keep
        },
        None => RangeFit::Keep,
    }
}

/// The data range and how it is widened for the reference line, or `None`
/// when no sample is present.
pub fn range_fit(s: &Sparkline) -> (r: Option<(i64, i64, RangeFit)>)
    ensures
        r is None <==> !has_present(s@.data),
        r matches Some((lo, hi, fit)) ==> is_range(s@.data, lo, hi) && fit == range_fit_of(
            s@,
            lo,
            hi,
        ),
{
    match s.data_range() {
        None => None,
        Some((lo, hi)) => {
            let fit = match s.reference_value() {
                Some(rv) => if !is_nan(rv) && !is_nan(hi) && rv > hi {
                    RangeFit::RaiseTop
                } else if !is_nan(rv) && !is_nan(lo) && rv < lo {
                    RangeFit::LowerBottom
                } else {
                    RangeFit::Keep
                },
                None => RangeFit::Keep,
            };
            Some((lo, hi, fit))
        },
    }
}

// ---------------------------------------------------------------------------
// Laws
// ---------------------------------------------------------------------------

/// The polyline never bridges a gap: it only moves to the first point of a
/// run and only draws lines between neighbouring present samples.
pub proof fn law_stroke_breaks_at_gaps(d: Seq<Option<i64>>, k: int, t: int)
    requires
        0 <= k <= d.len(),
        d.len() <= usize::MAX,
        0 <= t < stroke_ops(d, k).len(),
    ensures
        stroke_ops(d, k)[t] matches PathOp::MoveTo(i) ==> i < k && starts_run(d, i as int),
        stroke_ops(d, k)[t] matches PathOp::LineTo(i) ==> 0 < i < k && d[i as int] is Some
            && d[i - 1] is Some,
        stroke_ops(d, k)[t] is MoveTo || stroke_ops(d, k)[t] is LineTo,
    decreases k,
{
    if k > 0 {
        let prev = stroke_ops(d, k - 1);
        if t < prev.len() {
            law_stroke_breaks_at_gaps(d, k - 1, t);
            assert(stroke_ops(d, k)[t] == prev[t]);
        }
    }
}

proof fn lemma_fill_ends_closed_after_gap(d: Seq<Option<i64>>, k: int)
    requires
        1 <= k <= d.len(),
        d[k - 1] is None,
        exists|j: int| 0 <= j < k && #[trigger] d[j] is Some,
    ensures
        fill_ops(d, k).len() > 0,
        fill_ops(d, k).last() == PathOp::Close,
    decreases k,
{
    if k >= 2 && d[k - 2] is Some {
    } else {
        let j = choose|j: int| 0 <= j < k && #[trigger] d[j] is Some;
        assert(k >= 2);
        assert(d[j] is Some && j < k - 1);
        lemma_fill_ends_closed_after_gap(d, k - 1);
        assert(fill_ops(d, k) == fill_ops(d, k - 1));
    }
}

/// Every region of the area fill is closed: when any sample is present, the
/// fill path ends with `Close`.
pub proof fn law_fill_is_closed(d: Seq<Option<i64>>)
    requires
        has_present(d),
    ensures
        fill_path_of(d).len() > 0,
        fill_path_of(d).last() == PathOp::Close,
{
    let n = d.len() as int;
    if d[n - 1] is None {
        lemma_fill_ends_closed_after_gap(d, n);
        assert(fill_path_of(d) == fill_ops(d, n));
    }
}

/// Every marker point lies on a present sample, and there are no more points
/// than markers.
pub proof fn law_marker_points_are_present(d: Seq<Option<i64>>, ms: Seq<Marker>, k: int)
    requires
        0 <= k <= ms.len(),
        d.len() <= usize::MAX,
    ensures
        marker_points_upto(d, ms, k).len() <= k,
        forall|t: int| 0 <= t < marker_points_upto(d, ms, k).len()
            ==> (#[trigger] marker_points_upto(d, ms, k)[t]).1 < d.len()
                && d[marker_points_upto(d, ms, k)[t].1 as int] is Some,
    decreases k,
{
    if k > 0 {
        law_marker_points_are_present(d, ms, k - 1);
        let prev = marker_points_upto(d, ms, k - 1);
        let cur = marker_points_upto(d, ms, k);
        match marker_position(d, ms[k - 1]) {
            Some(i) => {
                let m = ms[k - 1];
                match m {
                    Marker::Min => {
                        let w = choose|x: int| is_first_min(d, x);
                        assert(is_first_min(d, w));
                    },
                    Marker::Max => {
                        let w = choose|x: int| is_last_max(d, x);
                        assert(is_last_max(d, w));
                    },
                    Marker::Current => {
                        let w = choose|x: int| is_last_present(d, x);
                        assert(is_last_present(d, w));
                    },
                }
                assert forall|t: int| 0 <= t < cur.len() implies (#[trigger] cur[t]).1 < d.len()
                    && d[cur[t].1 as int] is Some by {
                    if t < prev.len() {
                        assert(cur[t] == prev[t]);
                    }
                }
            },
            None => {
                assert(cur == prev);
            },
        }
    }
}

/// `[a, b]` is a maximal run of present samples: all of them present, a gap
/// (or the start) before `a`, a gap (or the end) after `b`.
pub open spec fn is_run(d: Seq<Option<i64>>, a: int, b: int) -> bool {
    &&& 0 <= a <= b < d.len()
    &&& forall|j: int| a <= j <= b ==> #[trigger] d[j] is Some
    &&& a == 0 || d[a - 1] is None
    &&& b + 1 == d.len() || d[b + 1] is None
}

/// How many of the first `k` samples are present.
pub open spec fn present_count(d: Seq<Option<i64>>, k: int) -> int
    decreases k,
{
    if k <= 0 {
        0
    } else {
        present_count(d, k - 1) + if d[k - 1] is Some {
            1int
        } else {
            0int
        }
    }
}

proof fn lemma_stroke_prefix(d: Seq<Option<i64>>, k: int, m: int)
    requires
        0 <= k <= m <= d.len(),
    ensures
        stroke_ops(d, k).len() <= stroke_ops(d, m).len(),
        forall|x: int| 0 <= x < stroke_ops(d, k).len() ==> #[trigger] stroke_ops(d, m)[x]
            == stroke_ops(d, k)[x],
    decreases m,
{
    if m > k {
        lemma_stroke_prefix(d, k, m - 1);
        assert forall|x: int| 0 <= x < stroke_ops(d, k).len() implies #[trigger] stroke_ops(d, m)[x]
            == stroke_ops(d, k)[x] by {
            assert(stroke_ops(d, m)[x] == stroke_ops(d, m - 1)[x]);
        }
    }
}

proof fn lemma_stroke_in_run(d: Seq<Option<i64>>, a: int, b: int, j: int)
    requires
        is_run(d, a, b),
        a <= j <= b,
        d.len() <= usize::MAX,
    ensures
        stroke_ops(d, j + 1).len() == stroke_ops(d, a).len() + (j - a + 1),
        stroke_ops(d, j + 1)[stroke_ops(d, a).len() as int] == PathOp::MoveTo(a as usize),
        forall|x: int| a < x <= j ==> #[trigger] stroke_ops(d, j + 1)[stroke_ops(d, a).len() + x - a]
            == PathOp::LineTo(x as usize),
    decreases j,
{
    let t = stroke_ops(d, a).len() as int;
    assert(d[a] is Some);
    if j == a {
        assert(starts_run(d, a));
    } else {
        lemma_stroke_in_run(d, a, b, j - 1);
        assert(d[j] is Some);
        assert(d[j - 1] is Some);
        assert(!starts_run(d, j));
        let prev = stroke_ops(d, j);
        assert(stroke_ops(d, j + 1) == prev + seq![PathOp::LineTo(j as usize)]);
        assert forall|x: int| a < x <= j implies #[trigger] stroke_ops(d, j + 1)[t + x - a]
            == PathOp::LineTo(x as usize) by {
            if x < j {
                assert(stroke_ops(d, j + 1)[t + x - a] == prev[t + x - a]);
            }
        }
    }
}

/// The polyline visits every present sample once, in order: it has one step
/// per present sample, and each run `[a, b]` is drawn as a move to `a`
/// followed by a line to each of `a + 1, ..., b`.
pub proof fn law_stroke_visits_each_run(d: Seq<Option<i64>>, a: int, b: int)
    requires
        is_run(d, a, b),
        d.len() <= usize::MAX,
    ensures
        stroke_ops(d, d.len() as int).len() == present_count(d, d.len() as int),
        exists|t: int|
            0 <= t && t + (b - a) < stroke_ops(d, d.len() as int).len() && stroke_ops(
                d,
                d.len() as int,
            )[t] == PathOp::MoveTo(a as usize) && forall|x: int|
                a < x <= b ==> #[trigger] stroke_ops(d, d.len() as int)[t + x - a] == PathOp::LineTo(
                    x as usize,
                ),
{
    let n = d.len() as int;
    lemma_stroke_count(d, n);
    lemma_stroke_in_run(d, a, b, b);
    lemma_stroke_prefix(d, b + 1, n);
    let t = stroke_ops(d, a).len() as int;
    let all = stroke_ops(d, n);
    let part = stroke_ops(d, b + 1);
    assert(all[t] == part[t]);
    assert forall|x: int| a < x <= b implies #[trigger] all[t + x - a] == PathOp::LineTo(
        x as usize,
    ) by {
        assert(all[t + x - a] == part[t + x - a]);
    }
}

proof fn lemma_stroke_count(d: Seq<Option<i64>>, k: int)
    requires
        0 <= k <= d.len(),
    ensures
        stroke_ops(d, k).len() == present_count(d, k),
    decreases k,
{
    if k > 0 {
        lemma_stroke_count(d, k - 1);
    }
}

proof fn lemma_fill_prefix(d: Seq<Option<i64>>, k: int, m: int)
    requires
        0 <= k <= m <= d.len(),
    ensures
        fill_ops(d, k).len() <= fill_ops(d, m).len(),
        forall|x: int| 0 <= x < fill_ops(d, k).len() ==> #[trigger] fill_ops(d, m)[x] == fill_ops(
            d,
            k,
        )[x],
    decreases m,
{
    if m > k {
        lemma_fill_prefix(d, k, m - 1);
        assert forall|x: int| 0 <= x < fill_ops(d, k).len() implies #[trigger] fill_ops(d, m)[x]
            == fill_ops(d, k)[x] by {
            assert(fill_ops(d, m)[x] == fill_ops(d, m - 1)[x]);
        }
    }
}

proof fn lemma_run_start_in_run(d: Seq<Option<i64>>, a: int, b: int, j: int)
    requires
        is_run(d, a, b),
        a <= j <= b,
    ensures
        run_start(d, j) == a,
    decreases j,
{
    if j > a {
        assert(d[j - 1] is Some);
        lemma_run_start_in_run(d, a, b, j - 1);
    }
}

proof fn lemma_fill_in_run(d: Seq<Option<i64>>, a: int, b: int, j: int)
    requires
        is_run(d, a, b),
        a <= j <= b,
        d.len() <= usize::MAX,
    ensures
        fill_ops(d, j + 1).len() == fill_ops(d, a).len() + (j - a + 2),
        fill_ops(d, j + 1)[fill_ops(d, a).len() as int] == PathOp::MoveToBase(a as usize),
        forall|x: int| a <= x <= j ==> #[trigger] fill_ops(d, j + 1)[fill_ops(d, a).len() + 1 + x - a]
            == PathOp::LineTo(x as usize),
    decreases j,
{
    let t = fill_ops(d, a).len() as int;
    assert(d[a] is Some);
    if j == a {
        assert(starts_run(d, a));
        assert(fill_ops(d, a + 1) == fill_ops(d, a) + seq![
            PathOp::MoveToBase(a as usize),
            PathOp::LineTo(a as usize),
        ]);
    } else {
        lemma_fill_in_run(d, a, b, j - 1);
        assert(d[j] is Some);
        assert(d[j - 1] is Some);
        assert(!starts_run(d, j));
        let prev = fill_ops(d, j);
        assert(fill_ops(d, j + 1) == prev + seq![PathOp::LineTo(j as usize)]);
        assert(fill_ops(d, j + 1)[t] == prev[t]);
        assert forall|x: int| a <= x <= j implies #[trigger] fill_ops(d, j + 1)[t + 1 + x - a]
            == PathOp::LineTo(x as usize) by {
            if x < j {
                assert(fill_ops(d, j + 1)[t + 1 + x - a] == prev[t + 1 + x - a]);
            }
        }
    }
}

/// From step `t` on, path `f` fills the run `[a, b]`: a move to the baseline
/// below `a`, lines to the points of `a, ..., b`, a line down to the
/// baseline below `b`, one back to below `a`, and a close.
pub open spec fn fills_run_at(f: Seq<PathOp>, t: int, a: int, b: int) -> bool {
    &&& 0 <= t
    &&& t + (b - a) + 4 < f.len()
    &&& f[t] == PathOp::MoveToBase(a as usize)
    &&& forall|x: int| a <= x <= b ==> #[trigger] f[t + 1 + x - a] == PathOp::LineTo(x as usize)
    &&& f[t + 2 + b - a] == PathOp::LineToBase(b as usize)
    &&& f[t + 3 + b - a] == PathOp::LineToBase(a as usize)
    &&& f[t + 4 + b - a] == PathOp::Close
}

/// Every run `[a, b]` of present samples is filled as its own closed region:
/// up from the baseline below `a`, through the points of `a, ..., b`, down to
/// the baseline below `b`, back along it to below `a`, and closed.
pub proof fn law_fill_closes_each_run(d: Seq<Option<i64>>, a: int, b: int)
    requires
        is_run(d, a, b),
        d.len() <= usize::MAX,
    ensures
        exists|t: int| #[trigger] fills_run_at(fill_path_of(d), t, a, b),
{
    let n = d.len() as int;
    let f = fill_path_of(d);
    let t = fill_ops(d, a).len() as int;
    lemma_fill_in_run(d, a, b, b);
    lemma_run_start_in_run(d, a, b, b);
    let part = fill_ops(d, b + 1);
    let closing = seq![
        PathOp::LineToBase(b as usize),
        PathOp::LineToBase(a as usize),
        PathOp::Close,
    ];
    assert(close_run(d, b) == closing);
    // The run and its closing steps, as a piece of the fill path.
    let whole = part + closing;
    if b + 1 < n {
        assert(d[b + 1] is None);
        assert(fill_ops(d, b + 2) == whole);
        lemma_fill_prefix(d, b + 2, n);
        assert forall|x: int| 0 <= x < whole.len() implies #[trigger] f[x] == whole[x] by {
            assert(fill_ops(d, n)[x] == fill_ops(d, b + 2)[x]);
        }
    } else {
        assert(f == whole);
    }
    assert(f[t] == whole[t]);
    assert forall|x: int| a <= x <= b implies #[trigger] f[t + 1 + x - a] == PathOp::LineTo(
        x as usize,
    ) by {
        assert(f[t + 1 + x - a] == whole[t + 1 + x - a]);
        assert(whole[t + 1 + x - a] == part[t + 1 + x - a]);
    }
    assert(f[t + 2 + b - a] == whole[t + 2 + b - a]);
    assert(f[t + 3 + b - a] == whole[t + 3 + b - a]);
    assert(f[t + 4 + b - a] == whole[t + 4 + b - a]);
    assert(fills_run_at(f, t, a, b));
}

/// The vertical range is widened only for a reference outside it: with a
/// reference and a range of numbers, the top is raised exactly when the
/// reference is above the range, the bottom lowered exactly when it is
/// below, and the range kept exactly when it lies within; without a
/// reference, with a NaN reference or a range of NaNs, the range is kept.
pub proof fn law_range_fit_outside_only(s: SparklineView, lo: i64, hi: i64)
    requires
        lo <= hi,
    ensures
        (s.reference matches Some(rv) && !is_nan_sample(rv) && !is_nan_sample(lo)
            && !is_nan_sample(hi)) ==> {
            &&& (range_fit_of(s, lo, hi) == RangeFit::RaiseTop <==> s.reference->0 > hi)
            &&& (range_fit_of(s, lo, hi) == RangeFit::LowerBottom <==> s.reference->0 < lo)
            &&& (range_fit_of(s, lo, hi) == RangeFit::Keep <==> lo <= s.reference->0 <= hi)
        },
        (s.reference is None || (s.reference matches Some(rv) && is_nan_sample(rv))) ==> range_fit_of(
            s,
            lo,
            hi,
        ) == RangeFit::Keep,
        (is_nan_sample(lo) && is_nan_sample(hi)) ==> range_fit_of(s, lo, hi) == RangeFit::Keep,
{
}

/// What a marker highlights: the first minimum, the last maximum, or the
/// last present sample.
pub open spec fn marks(d: Seq<Option<i64>>, m: Marker, i: int) -> bool {
    match m {
        Marker::Min => is_first_min(d, i),
        Marker::Max => is_last_max(d, i),
        Marker::Current => is_last_present(d, i),
    }
}

/// Each marker point is what its marker highlights, and every marker (of
/// the first `k`) whose point exists gets that point.
pub proof fn law_marker_points_highlight(d: Seq<Option<i64>>, ms: Seq<Marker>, k: int)
    requires
        0 <= k <= ms.len(),
        d.len() <= usize::MAX,
    ensures
        forall|t: int| 0 <= t < marker_points_upto(d, ms, k).len() ==> marks(
            d,
            (#[trigger] marker_points_upto(d, ms, k)[t]).0,
            marker_points_upto(d, ms, k)[t].1 as int,
        ),
        forall|j: int, i: int|
            0 <= j < k && #[trigger] marks(d, ms[j], i) ==> exists|t: int|
                0 <= t < marker_points_upto(d, ms, k).len() && #[trigger] marker_points_upto(
                    d,
                    ms,
                    k,
                )[t] == (ms[j], i as usize),
    decreases k,
{
    if k > 0 {
        law_marker_points_highlight(d, ms, k - 1);
        let prev = marker_points_upto(d, ms, k - 1);
        let cur = marker_points_upto(d, ms, k);
        let m = ms[k - 1];
        match marker_position(d, m) {
            Some(p) => {
                let w = match m {
                    Marker::Min => choose|x: int| is_first_min(d, x),
                    Marker::Max => choose|x: int| is_last_max(d, x),
                    Marker::Current => choose|x: int| is_last_present(d, x),
                };
                assert(p == w);
                assert(marks(d, m, p));
                assert(0 <= p < d.len()) by {
                    match m {
                        Marker::Min => {},
                        Marker::Max => {},
                        Marker::Current => {},
                    }
                }
                assert(cur == prev.push((m, p as usize)));
                assert forall|t: int| 0 <= t < cur.len() implies marks(
                    d,
                    (#[trigger] cur[t]).0,
                    cur[t].1 as int,
                ) by {
                    if t < prev.len() {
                        assert(cur[t] == prev[t]);
                    }
                }
                assert forall|j: int, i: int| 0 <= j < k && #[trigger] marks(d, ms[j], i) implies exists|
                    t: int,
                | 0 <= t < cur.len() && #[trigger] cur[t] == (ms[j], i as usize) by {
                    if j < k - 1 {
                        let t = choose|t: int| 0 <= t < prev.len() && #[trigger] prev[t] == (
                            ms[j],
                            i as usize,
                        );
                        assert(cur[t] == prev[t]);
                    } else {
                        lemma_positions(d, i);
                        assert(cur[prev.len() as int] == (m, p as usize));
                    }
                }
            },
            None => {
                assert(cur == prev);
                assert forall|j: int, i: int| 0 <= j < k && #[trigger] marks(d, ms[j], i) implies exists|
                    t: int,
                | 0 <= t < cur.len() && #[trigger] cur[t] == (ms[j], i as usize) by {
                    if j == k - 1 {
                        lemma_positions(d, i);
                    }
                }
            },
        }
    }
}

} // verus!
