//! The sparkline itself: its samples (with gaps), its style, its markers and
//! its optional reference line, and the order questions asked of the samples.
use vstd::prelude::*;

verus! {

/// How a sparkline draws its samples.
#[derive(Debug, Clone, Copy, PartialEq, Eq, Structural)]
pub enum SparkStyle {
    Line,
    Bar,
    WinLoss,
}

impl Default for SparkStyle {
    fn default() -> (s: Self)
        ensures
            s == SparkStyle::Line,
    {
        SparkStyle::Line
    }
}

/// A point of the data that a renderer highlights.
#[derive(Debug, Clone, Copy, PartialEq, Eq, Structural)]
pub enum Marker {
    Min,
    Max,
    /// Last present value in the data.
    Current,
}

/// The mathematical content of a [`Sparkline`].
pub struct SparklineView {
    pub data: Seq<Option<i64>>,
    pub style: SparkStyle,
    pub markers: Seq<Marker>,
    pub reference: Option<i64>,
}

/// A series of samples, some of which may be absent (gaps), with the way
/// it is drawn.
#[derive(Debug)]
pub struct Sparkline {
    data: Vec<Option<i64>>,
    style: SparkStyle,
    markers: Vec<Marker>,
    reference_line: Option<i64>,
}

impl View for Sparkline {
    type V = SparklineView;

    closed spec fn view(&self) -> SparklineView {
        SparklineView {
            data: self.data@,
            style: self.style,
            markers: self.markers@,
            reference: self.reference_line,
        }
    }
}

impl Clone for Sparkline {
    fn clone(&self) -> (s: Self)
        ensures
            s@ == self@,
    {
        proof {
            use_type_invariant(self);
        }
        let mut data: Vec<Option<i64>> = Vec::new();
        let mut i: usize = 0;
        while i < self.data.len()
            invariant
                i <= self.data@.len(),
                data@ == self.data@.take(i as int),
            decreases self.data@.len() - i,
        {
            data.push(self.data[i]);
            assert(self.data@.take(i + 1) == self.data@.take(i as int).push(self.data@[i as int]));
            i += 1;
        }
        let mut markers: Vec<Marker> = Vec::new();
        let mut k: usize = 0;
        while k < self.markers.len()
            invariant
                k <= self.markers@.len(),
                markers@ == self.markers@.take(k as int),
                self.markers@.no_duplicates(),
            decreases self.markers@.len() - k,
        {
            markers.push(self.markers[k]);
            assert(self.markers@.take(k + 1) == self.markers@.take(k as int).push(self.markers@[k as int]));
            k += 1;
        }
        assert(self.data@.take(self.data@.len() as int) == self.data@);
        assert(self.markers@.take(self.markers@.len() as int) == self.markers@);
        Sparkline { data, style: self.style, markers, reference_line: self.reference_line }
    }
}

// ---------------------------------------------------------------------------
// Samples of IEEE-754 doubles
// ---------------------------------------------------------------------------

/// The sign-magnitude integer that a 64-bit pattern encodes: the top bit is
/// the sign, the other 63 bits the magnitude. IEEE-754 orders the doubles
/// that are not NaN as these integers are ordered, and both zeros encode 0.
pub open spec fn sign_magnitude(bits: u64) -> int {
    if bits >= 0x8000_0000_0000_0000 {
        -(bits - 0x8000_0000_0000_0000)
    } else {
        bits as int
    }
}

/// The sample of the double whose bit pattern is `bits`: its sign-magnitude
/// integer, so that samples are ordered as the doubles (NaN aside) and both
/// zeros give 0.
pub fn sample_of_bits(bits: u64) -> (s: i64)
    ensures
        s == sign_magnitude(bits),
        s > i64::MIN,
{
    if bits >= 0x8000_0000_0000_0000 {
        let magnitude = bits - 0x8000_0000_0000_0000;
        -(magnitude as i64)
    } else {
        bits as i64
    }
}

/// The bit pattern that encodes a sign-magnitude integer, with a clear sign
/// bit for zero.
pub open spec fn bits_of_sign_magnitude(s: int) -> u64 {
    if s >= 0 {
        s as u64
    } else {
        (0x8000_0000_0000_0000 - s) as u64
    }
}

/// The bit pattern of the double that a sample stands for (the positive
/// zero for 0).
pub fn bits_of_sample(s: i64) -> (bits: u64)
    requires
        s > i64::MIN,
    ensures
        bits == bits_of_sign_magnitude(s as int),
{
    if s >= 0 {
        s as u64
    } else {
        0x8000_0000_0000_0000 + ((-s) as u64)
    }
}

/// Sampling loses nothing but the sign of zero: from bits to a sample and
/// back gives the same bits, except that the negative zero comes back as the
/// positive one; and from a sample (any `i64` but the least) to bits and
/// back gives the same sample.
pub proof fn law_sample_round_trip(bits: u64, s: i64)
    requires
        s > i64::MIN,
    ensures
        bits != 0x8000_0000_0000_0000 ==> bits_of_sign_magnitude(sign_magnitude(bits)) == bits,
        bits == 0x8000_0000_0000_0000 ==> bits_of_sign_magnitude(sign_magnitude(bits)) == 0,
        sign_magnitude(bits_of_sign_magnitude(s as int)) == s,
{
}

/// The sample of the positive infinity; the negative infinity's is its
/// negation.
pub const INFINITY_SAMPLE: i64 = 0x7FF0_0000_0000_0000;

/// A sample beyond the infinities stands for a NaN (all ones in the exponent
/// and a mantissa other than zero). A NaN compares neither above, below nor
/// equal to anything.
pub open spec fn is_nan_sample(x: i64) -> bool {
    x > INFINITY_SAMPLE || x < -INFINITY_SAMPLE
}

/// A sample strictly between the infinities stands for a finite value.
pub open spec fn is_finite_sample(x: i64) -> bool {
    -INFINITY_SAMPLE < x < INFINITY_SAMPLE
}

/// `x` stands for a value greater than `t`'s (neither being a NaN).
pub open spec fn sample_gt(x: i64, t: i64) -> bool {
    !is_nan_sample(x) && !is_nan_sample(t) && x > t
}

/// `x` stands for a value less than `t`'s (neither being a NaN).
pub open spec fn sample_lt(x: i64, t: i64) -> bool {
    !is_nan_sample(x) && !is_nan_sample(t) && x < t
}

/// The sample stands for a NaN.
pub fn is_nan(x: i64) -> (b: bool)
    ensures
        b == is_nan_sample(x),
{
    x > INFINITY_SAMPLE || x < -INFINITY_SAMPLE
}

/// The NaN bit patterns are exactly those whose samples are NaN samples: a
/// magnitude (the low 63 bits) above that of the infinity; the infinities
/// are those with exactly that magnitude.
pub proof fn law_nan_bits_give_nan_samples(bits: u64)
    ensures
        is_nan_sample(sign_magnitude(bits) as i64) <==> bits % 0x8000_0000_0000_0000
            > 0x7FF0_0000_0000_0000,
        (bits % 0x8000_0000_0000_0000 == 0x7FF0_0000_0000_0000) <==> (sign_magnitude(bits)
            == INFINITY_SAMPLE || sign_magnitude(bits) == -INFINITY_SAMPLE),
{
}

// ---------------------------------------------------------------------------
// Order questions on a sequence of samples with gaps.
// ---------------------------------------------------------------------------

/// Some sample is present.
pub open spec fn has_present(d: Seq<Option<i64>>) -> bool {
    exists|i: int| 0 <= i < d.len() && #[trigger] d[i] is Some
}

/// `i` is the first position holding the least present sample.
pub open spec fn is_first_min(d: Seq<Option<i64>>, i: int) -> bool {
    &&& 0 <= i < d.len()
    &&& d[i] is Some
    &&& forall|j: int| 0 <= j < d.len() && #[trigger] d[j] is Some ==> d[i]->0 <= d[j]->0
    &&& forall|j: int| 0 <= j < i && #[trigger] d[j] is Some ==> d[i]->0 < d[j]->0
}

/// `i` is the last position holding the greatest present sample.
pub open spec fn is_last_max(d: Seq<Option<i64>>, i: int) -> bool {
    &&& 0 <= i < d.len()
    &&& d[i] is Some
    &&& forall|j: int| 0 <= j < d.len() && #[trigger] d[j] is Some ==> d[j]->0 <= d[i]->0
    &&& forall|j: int| i < j < d.len() && #[trigger] d[j] is Some ==> d[j]->0 < d[i]->0
}

/// `i` is the last position holding a present sample.
pub open spec fn is_last_present(d: Seq<Option<i64>>, i: int) -> bool {
    &&& 0 <= i < d.len()
    &&& d[i] is Some
    &&& forall|j: int| i < j < d.len() ==> #[trigger] d[j] is None
}

/// Position `i` holds a present sample that is not a NaN.
pub open spec fn is_number(d: Seq<Option<i64>>, i: int) -> bool {
    d[i] is Some && !is_nan_sample(d[i]->0)
}

/// Some position before `k` holds a number.
pub open spec fn has_number_before(d: Seq<Option<i64>>, k: int) -> bool {
    exists|i: int| 0 <= i < k && #[trigger] is_number(d, i)
}

/// Some present sample is not a NaN.
pub open spec fn has_number(d: Seq<Option<i64>>) -> bool {
    has_number_before(d, d.len() as int)
}

/// `i` is the first position holding a present sample.
pub open spec fn is_first_present(d: Seq<Option<i64>>, i: int) -> bool {
    &&& 0 <= i < d.len()
    &&& d[i] is Some
    &&& forall|j: int| 0 <= j < i ==> #[trigger] d[j] is None
}

/// Among the first `k` samples, `lo` and `hi` are the least and greatest
/// that are not NaN; when all present ones are NaN, both are the first
/// present one.
pub open spec fn is_range_before(d: Seq<Option<i64>>, k: int, lo: i64, hi: i64) -> bool {
    if has_number_before(d, k) {
        &&& exists|i: int| 0 <= i < k && is_number(d, i) && #[trigger] d[i] == Some(lo)
        &&& exists|i: int| 0 <= i < k && is_number(d, i) && #[trigger] d[i] == Some(hi)
        &&& forall|j: int| 0 <= j < k && #[trigger] is_number(d, j) ==> lo <= d[j]->0 <= hi
    } else {
        &&& lo == hi
        &&& exists|i: int| 0 <= i < k && #[trigger] is_first_present(d, i) && d[i] == Some(lo)
    }
}

/// `lo` and `hi` are the least and the greatest present samples, NaNs left
/// aside (the minimum and maximum of doubles ignore a NaN); when every
/// present sample is a NaN, both are the first one.
pub open spec fn is_range(d: Seq<Option<i64>>, lo: i64, hi: i64) -> bool {
    is_range_before(d, d.len() as int, lo, hi)
}

/// The data is flat: its present numbers are all one finite value (so their
/// span is zero). NaNs are left aside; infinities never make flat data,
/// since infinity minus infinity is not zero.
pub open spec fn is_flat(d: Seq<Option<i64>>) -> bool {
    &&& has_number(d)
    &&& forall|i: int, j: int|
        0 <= i < d.len() && 0 <= j < d.len() && #[trigger] is_number(d, i) && #[trigger] is_number(
            d,
            j,
        ) ==> d[i] == d[j]
    &&& forall|i: int| 0 <= i < d.len() && #[trigger] is_number(d, i) ==> is_finite_sample(d[i]->0)
}

/// The data is flat exactly when its range is one finite sample.
pub proof fn lemma_flat_iff_flat_range(d: Seq<Option<i64>>, lo: i64, hi: i64)
    requires
        is_range(d, lo, hi),
    ensures
        is_flat(d) <==> (lo == hi && is_finite_sample(lo)),
{
    let n = d.len() as int;
    if has_number(d) {
        let a = choose|i: int| 0 <= i < n && is_number(d, i) && #[trigger] d[i] == Some(lo);
        let b = choose|i: int| 0 <= i < n && is_number(d, i) && #[trigger] d[i] == Some(hi);
        if is_flat(d) {
            assert(d[a] == d[b]);
        }
        if lo == hi && is_finite_sample(lo) {
            assert forall|i: int, j: int|
                0 <= i < n && 0 <= j < n && #[trigger] is_number(d, i) && #[trigger] is_number(d, j)
                implies d[i] == d[j] by {
                assert(lo <= d[i]->0 <= hi);
                assert(lo <= d[j]->0 <= hi);
            }
            assert forall|i: int| 0 <= i < n && #[trigger] is_number(d, i) implies is_finite_sample(
                d[i]->0,
            ) by {
                assert(lo <= d[i]->0 <= hi);
            }
        }
    } else {
        let a = choose|i: int| 0 <= i < n && #[trigger] is_first_present(d, i) && d[i] == Some(lo);
        if !is_nan_sample(lo) {
            assert(is_number(d, a));
        }
    }
}

/// No NaN is ever compared: either no present sample is a NaN, or there is
/// just one present sample. (Comparing a NaN with another value has no
/// answer.)
pub open spec fn comparable(d: Seq<Option<i64>>) -> bool {
    forall|i: int, j: int|
        0 <= i < d.len() && 0 <= j < d.len() && i != j && #[trigger] d[i] is Some
            && #[trigger] d[j] is Some ==> !is_nan_sample(d[i]->0)
}

/// The marker list after adding `m`: unchanged if `m` is listed already,
/// else `m` appended.
pub open spec fn with_marker(ms: Seq<Marker>, m: Marker) -> Seq<Marker> {
    if ms.contains(m) {
        ms
    } else {
        ms.push(m)
    }
}

/// Adding a marker lists it, keeps the list free of repeats and the earlier
/// markers in their order, and adding it again changes nothing.
pub proof fn law_marker_dedup(ms: Seq<Marker>, m: Marker)
    requires
        ms.no_duplicates(),
    ensures
        with_marker(ms, m).contains(m),
        with_marker(ms, m).no_duplicates(),
        with_marker(with_marker(ms, m), m) == with_marker(ms, m),
        with_marker(ms, m).take(ms.len() as int) == ms,
        with_marker(ms, m).len() <= 3,
{
    let r = with_marker(ms, m);
    if !ms.contains(m) {
        assert(r[ms.len() as int] == m);
        assert(r.take(ms.len() as int) =~= ms);
    } else {
        assert(r.take(ms.len() as int) =~= ms);
    }
    assert(r.contains(m));
    lemma_distinct_markers_at_most_three(r);
}

/// A list of markers without repeats has at most one of each kind.
pub proof fn lemma_distinct_markers_at_most_three(ms: Seq<Marker>)
    requires
        ms.no_duplicates(),
    ensures
        ms.len() <= 3,
{
    if ms.len() > 3 {
        let a = ms[0];
        let b = ms[1];
        let c = ms[2];
        let e = ms[3];
        assert(a != b && a != c && a != e && b != c && b != e && c != e);
        match a {
            Marker::Min => {},
            Marker::Max => {},
            Marker::Current => {},
        }
        assert(false);
    }
}

/// When no NaN is compared, the data range is made of the samples at the
/// first minimum and the last maximum, and the last present sample lies at
/// or after both.
pub proof fn law_range_meets_extremes(d: Seq<Option<i64>>, lo: i64, hi: i64, i: int, j: int, k: int)
    requires
        comparable(d),
        is_range(d, lo, hi),
        is_first_min(d, i),
        is_last_max(d, j),
        is_last_present(d, k),
    ensures
        d[i] == Some(lo),
        d[j] == Some(hi),
        lo <= hi,
        i <= k,
        j <= k,
{
    let n = d.len() as int;
    if has_number(d) {
        let w = choose|x: int| 0 <= x < n && #[trigger] is_number(d, x);
        // A NaN at the extremes would be compared with the number at `w`.
        if i != w {
            assert(d[i] is Some && d[w] is Some);
            assert(!is_nan_sample(d[i]->0));
        }
        if j != w {
            assert(d[j] is Some && d[w] is Some);
            assert(!is_nan_sample(d[j]->0));
        }
        assert(is_number(d, i));
        assert(is_number(d, j));
        let a = choose|x: int| 0 <= x < n && is_number(d, x) && #[trigger] d[x] == Some(lo);
        let b = choose|x: int| 0 <= x < n && is_number(d, x) && #[trigger] d[x] == Some(hi);
        assert(d[i]->0 <= d[a]->0);
        assert(d[b]->0 <= d[j]->0);
        assert(lo <= d[i]->0 <= hi);
        assert(lo <= d[j]->0 <= hi);
    } else {
        let f = choose|x: int| 0 <= x < n && #[trigger] is_first_present(d, x) && d[x] == Some(lo);
        // Every present sample is a NaN, so there is only one.
        if i != f {
            assert(d[i] is Some && d[f] is Some);
            assert(!is_nan_sample(d[i]->0));
            assert(is_number(d, i));
        }
        if j != f {
            assert(d[j] is Some && d[f] is Some);
            assert(!is_nan_sample(d[j]->0));
            assert(is_number(d, j));
        }
    }
    if i > k {
        assert(d[i] is None);
    }
    if j > k {
        assert(d[j] is None);
    }
}

spec fn present_before(d: Seq<Option<i64>>, k: int) -> bool {
    exists|j: int| 0 <= j < k && #[trigger] d[j] is Some
}

proof fn lemma_first_min_exists(d: Seq<Option<i64>>, k: int) -> (i: int)
    requires
        0 <= k <= d.len(),
        present_before(d, k),
    ensures
        0 <= i < k,
        d[i] is Some,
        forall|j: int| 0 <= j < k && #[trigger] d[j] is Some ==> d[i]->0 <= d[j]->0,
        forall|j: int| 0 <= j < i && #[trigger] d[j] is Some ==> d[i]->0 < d[j]->0,
    decreases k,
{
    if !present_before(d, k - 1) {
        assert(d[k - 1] is Some);
        k - 1
    } else {
        let i = lemma_first_min_exists(d, k - 1);
        if d[k - 1] is Some && d[k - 1]->0 < d[i]->0 {
            k - 1
        } else {
            i
        }
    }
}

proof fn lemma_last_max_exists(d: Seq<Option<i64>>, k: int) -> (i: int)
    requires
        0 <= k <= d.len(),
        present_before(d, k),
    ensures
        0 <= i < k,
        d[i] is Some,
        forall|j: int| 0 <= j < k && #[trigger] d[j] is Some ==> d[j]->0 <= d[i]->0,
        forall|j: int| i < j < k && #[trigger] d[j] is Some ==> d[j]->0 < d[i]->0,
    decreases k,
{
    if !present_before(d, k - 1) {
        assert(d[k - 1] is Some);
        k - 1
    } else {
        let i = lemma_last_max_exists(d, k - 1);
        if d[k - 1] is Some && d[k - 1]->0 >= d[i]->0 {
            k - 1
        } else {
            i
        }
    }
}

proof fn lemma_last_present_exists(d: Seq<Option<i64>>, k: int) -> (i: int)
    requires
        0 <= k <= d.len(),
        present_before(d, k),
    ensures
        0 <= i < k,
        d[i] is Some,
        forall|j: int| i < j < k ==> #[trigger] d[j] is None,
    decreases k,
{
    if d[k - 1] is Some {
        k - 1
    } else {
        lemma_last_present_exists(d, k - 1)
    }
}

/// The first minimum, the last maximum and the last present sample exist
/// exactly when some sample is present.
pub proof fn law_positions_exist_iff_present(d: Seq<Option<i64>>)
    ensures
        has_present(d) <==> min_position(d) is Some,
        has_present(d) <==> max_position(d) is Some,
        has_present(d) <==> current_position(d) is Some,
{
    if has_present(d) {
        let w = choose|x: int| 0 <= x < d.len() && #[trigger] d[x] is Some;
        assert(present_before(d, d.len() as int));
        let i = lemma_first_min_exists(d, d.len() as int);
        let j = lemma_last_max_exists(d, d.len() as int);
        let k = lemma_last_present_exists(d, d.len() as int);
        lemma_positions(d, i);
        lemma_positions(d, j);
        lemma_positions(d, k);
    } else {
        if min_position(d) is Some {
            let i = choose|x: int| is_first_min(d, x);
            assert(d[i] is Some);
        }
        if max_position(d) is Some {
            let i = choose|x: int| is_last_max(d, x);
            assert(d[i] is Some);
        }
        if current_position(d) is Some {
            let i = choose|x: int| is_last_present(d, x);
            assert(d[i] is Some);
        }
    }
}

/// Where a sample stands against the win/loss threshold.
#[derive(Debug, Clone, Copy, PartialEq, Eq, Structural)]
pub enum Outcome {
    /// Present and above the threshold.
    Above,
    /// Present and below the threshold.
    Below,
    /// Present and exactly at the threshold.
    Level,
    /// Present, but it or the threshold is a NaN: neither above, below nor
    /// at it.
    Unordered,
    /// A gap.
    Absent,
}

/// The win/loss threshold: the reference line if there is one, else zero.
pub open spec fn threshold_of(reference: Option<i64>) -> i64 {
    match reference {
        Some(t) => t,
        None => 0,
    }
}

pub open spec fn outcome_of(v: Option<i64>, threshold: i64) -> Outcome {
    match v {
        Some(x) => if is_nan_sample(x) || is_nan_sample(threshold) {
            Outcome::Unordered
        } else if x > threshold {
            Outcome::Above
        } else if x < threshold {
            Outcome::Below
        } else {
            Outcome::Level
        },
        None => Outcome::Absent,
    }
}

/// The position of the first least present sample, if any sample is present.
pub open spec fn min_position(d: Seq<Option<i64>>) -> Option<int> {
    if exists|i: int| is_first_min(d, i) {
        Some(choose|i: int| is_first_min(d, i))
    } else {
        None
    }
}

/// The position of the last greatest present sample, if any sample is present.
pub open spec fn max_position(d: Seq<Option<i64>>) -> Option<int> {
    if exists|i: int| is_last_max(d, i) {
        Some(choose|i: int| is_last_max(d, i))
    } else {
        None
    }
}

/// The position of the last present sample, if any sample is present.
pub open spec fn current_position(d: Seq<Option<i64>>) -> Option<int> {
    if exists|i: int| is_last_present(d, i) {
        Some(choose|i: int| is_last_present(d, i))
    } else {
        None
    }
}

/// The position that a marker points at, if any.
pub open spec fn marker_position(d: Seq<Option<i64>>, m: Marker) -> Option<int> {
    match m {
        Marker::Min => min_position(d),
        Marker::Max => max_position(d),
        Marker::Current => current_position(d),
    }
}

/// There is at most one first minimum.
pub proof fn lemma_first_min_unique(d: Seq<Option<i64>>, i: int, k: int)
    requires
        is_first_min(d, i),
        is_first_min(d, k),
    ensures
        i == k,
{
    if i < k {
        assert(d[k]->0 < d[i]->0);
    } else if k < i {
        assert(d[i]->0 < d[k]->0);
    }
}

/// There is at most one last maximum.
pub proof fn lemma_last_max_unique(d: Seq<Option<i64>>, i: int, k: int)
    requires
        is_last_max(d, i),
        is_last_max(d, k),
    ensures
        i == k,
{
    if i < k {
        assert(d[k]->0 < d[i]->0);
    } else if k < i {
        assert(d[i]->0 < d[k]->0);
    }
}

/// There is at most one last present position.
pub proof fn lemma_last_present_unique(d: Seq<Option<i64>>, i: int, k: int)
    requires
        is_last_present(d, i),
        is_last_present(d, k),
    ensures
        i == k,
{
    if i < k {
        assert(d[k] is None);
    } else if k < i {
        assert(d[i] is None);
    }
}

/// The position found for a marker is the one its defining property names.
pub proof fn lemma_positions(d: Seq<Option<i64>>, i: int)
    ensures
        is_first_min(d, i) ==> min_position(d) == Some(i),
        is_last_max(d, i) ==> max_position(d) == Some(i),
        is_last_present(d, i) ==> current_position(d) == Some(i),
{
    if is_first_min(d, i) {
        lemma_first_min_unique(d, i, choose|k: int| is_first_min(d, k));
    }
    if is_last_max(d, i) {
        lemma_last_max_unique(d, i, choose|k: int| is_last_max(d, k));
    }
    if is_last_present(d, i) {
        lemma_last_present_unique(d, i, choose|k: int| is_last_present(d, k));
    }
}

impl Sparkline {
    #[verifier::type_invariant]
    spec fn markers_distinct(self) -> bool {
        self.markers@.no_duplicates()
    }

    /// Create from dense data (no gaps).
    pub fn from_values(values: &[i64]) -> (s: Self)
        ensures
            s@.data == values@.map_values(|v: i64| Some(v)),
            s@.style == SparkStyle::Line,
            s@.markers == Seq::<Marker>::empty(),
            s@.reference is None,
    {
        let mut data: Vec<Option<i64>> = Vec::new();
        let mut i: usize = 0;
        while i < values.len()
            invariant
                i <= values@.len(),
                data@ == values@.take(i as int).map_values(|v: i64| Some(v)),
            decreases values@.len() - i,
        {
            data.push(Some(values[i]));
            assert(values@.take(i + 1) == values@.take(i as int).push(values@[i as int]));
            i += 1;
        }
        assert(values@.take(values@.len() as int) == values@);
        Sparkline { data, style: SparkStyle::Line, markers: Vec::new(), reference_line: None }
    }

    /// Create from sparse data with explicit gaps.
    pub fn new(data: Vec<Option<i64>>) -> (s: Self)
        ensures
            s@.data == data@,
            s@.style == SparkStyle::Line,
            s@.markers == Seq::<Marker>::empty(),
            s@.reference is None,
    {
        Sparkline { data, style: SparkStyle::Line, markers: Vec::new(), reference_line: None }
    }

    pub fn style(self, style: SparkStyle) -> (s: Self)
        ensures
            s@.data == self@.data,
            s@.style == style,
            s@.markers == self@.markers,
            s@.reference == self@.reference,
    {
        proof {
            use_type_invariant(&self);
        }
        let Sparkline { data, style: _, markers, reference_line } = self;
        Sparkline { data, style, markers, reference_line }
    }

    /// Add a marker (deduplicated by variant).
    pub fn marker(self, marker: Marker) -> (s: Self)
        ensures
            s@.data == self@.data,
            s@.style == self@.style,
            s@.markers == with_marker(self@.markers, marker),
            s@.reference == self@.reference,
    {
        proof {
            use_type_invariant(&self);
        }
        let Sparkline { data, style, mut markers, reference_line } = self;
        let mut found = false;
        let mut i: usize = 0;
        while i < markers.len()
            invariant
                i <= markers@.len(),
                found <==> exists|j: int| 0 <= j < i && markers@[j] == marker,
            decreases markers@.len() - i,
        {
            if markers[i] == marker {
                found = true;
            }
            i += 1;
        }
        if !found {
            proof {
                assert(!markers@.contains(marker));
            }
            markers.push(marker);
        } else {
            proof {
                let j = choose|j: int| 0 <= j < markers@.len() && markers@[j] == marker;
                assert(markers@.contains(marker));
            }
        }
        Sparkline { data, style, markers, reference_line }
    }

    pub fn reference_line(self, value: i64) -> (s: Self)
        ensures
            s@.data == self@.data,
            s@.style == self@.style,
            s@.markers == self@.markers,
            s@.reference == Some(value),
    {
        proof {
            use_type_invariant(&self);
        }
        let Sparkline { data, style, markers, reference_line: _ } = self;
        Sparkline { data, style, markers, reference_line: Some(value) }
    }

    // -- Accessors --
    pub fn data(&self) -> (d: &[Option<i64>])
        ensures
            d@ == self@.data,
    {
        self.data.as_slice()
    }

    pub fn spark_style(&self) -> (s: SparkStyle)
        ensures
            s == self@.style,
    {
        self.style
    }

    /// The markers, in the order they were first added, none twice.
    pub fn markers(&self) -> (m: &[Marker])
        ensures
            m@ == self@.markers,
            m@.no_duplicates(),
    {
        proof {
            use_type_invariant(self);
        }
        self.markers.as_slice()
    }

    pub fn reference_value(&self) -> (r: Option<i64>)
        ensures
            r == self@.reference,
    {
        self.reference_line
    }

    /// Index of the minimum present value (the first of equal minima), or
    /// `None` if no value is present. A NaN is never compared: it may only be
    /// the one present value.
    pub fn min_index(&self) -> (r: Option<usize>)
        requires
            comparable(self@.data),
        ensures
            r is None <==> !has_present(self@.data),
            r matches Some(i) ==> is_first_min(self@.data, i as int),
    {
        let d = &self.data;
        let mut best: Option<usize> = None;
        let mut i: usize = 0;
        while i < d.len()
            invariant
                i <= d@.len(),
                best is None ==> forall|j: int| 0 <= j < i ==> #[trigger] d@[j] is None,
                best matches Some(b) ==> {
                    &&& b < i
                    &&& d@[b as int] is Some
                    &&& forall|j: int| 0 <= j < i && #[trigger] d@[j] is Some ==> d@[b as int]->0 <= d@[j]->0
                    &&& forall|j: int| 0 <= j < b && #[trigger] d@[j] is Some ==> d@[b as int]->0 < d@[j]->0
                },
            decreases d@.len() - i,
        {
            if let Some(v) = d[i] {
                match best {
                    None => {
                        best = Some(i);
                    },
                    Some(b) => {
                        let bv = d[b].unwrap();
                        if v < bv {
                            best = Some(i);
                        }
                    },
                }
            }
            i += 1;
        }
        best
    }

    /// Index of the maximum present value (the last of equal maxima), or
    /// `None` if no value is present. A NaN is never compared: it may only be
    /// the one present value.
    pub fn max_index(&self) -> (r: Option<usize>)
        requires
            comparable(self@.data),
        ensures
            r is None <==> !has_present(self@.data),
            r matches Some(i) ==> is_last_max(self@.data, i as int),
    {
        let d = &self.data;
        let mut best: Option<usize> = None;
        let mut i: usize = 0;
        while i < d.len()
            invariant
                i <= d@.len(),
                best is None ==> forall|j: int| 0 <= j < i ==> #[trigger] d@[j] is None,
                best matches Some(b) ==> {
                    &&& b < i
                    &&& d@[b as int] is Some
                    &&& forall|j: int| 0 <= j < i && #[trigger] d@[j] is Some ==> d@[j]->0 <= d@[b as int]->0
                    &&& forall|j: int| b < j < i && #[trigger] d@[j] is Some ==> d@[j]->0 < d@[b as int]->0
                },
            decreases d@.len() - i,
        {
            if let Some(v) = d[i] {
                match best {
                    None => {
                        best = Some(i);
                    },
                    Some(b) => {
                        let bv = d[b].unwrap();
                        if v >= bv {
                            best = Some(i);
                        }
                    },
                }
            }
            i += 1;
        }
        best
    }

    /// Index of the last present value, or `None` if no value is present.
    pub fn current_index(&self) -> (r: Option<usize>)
        ensures
            r is None <==> !has_present(self@.data),
            r matches Some(i) ==> is_last_present(self@.data, i as int),
    {
        let d = &self.data;
        let mut i: usize = d.len();
        while i > 0
            invariant
                i <= d@.len(),
                d@ == self@.data,
                forall|j: int| i <= j < d@.len() ==> #[trigger] d@[j] is None,
            decreases i,
        {
            if d[i - 1].is_some() {
                proof {
                    assert(d@[i - 1] is Some);
                }
                return Some(i - 1);
            }
            i -= 1;
        }
        None
    }

    /// Each sample against the win/loss threshold (the reference line, or
    /// zero when there is none), in order.
    pub fn outcomes(&self) -> (r: Vec<Outcome>)
        ensures
            r@.len() == self@.data.len(),
            forall|i: int| 0 <= i < r@.len()
                ==> #[trigger] r@[i] == outcome_of(self@.data[i], threshold_of(self@.reference)),
    {
        let threshold: i64 = match self.reference_line {
            Some(t) => t,
            None => 0,
        };
        let mut r: Vec<Outcome> = Vec::new();
        let mut i: usize = 0;
        while i < self.data.len()
            invariant
                i <= self.data@.len(),
                threshold == threshold_of(self@.reference),
                r@.len() == i,
                forall|j: int| 0 <= j < i ==> #[trigger] r@[j] == outcome_of(self.data@[j], threshold),
            decreases self.data@.len() - i,
        {
            let o = match self.data[i] {
                Some(x) => if is_nan(x) || is_nan(threshold) {
                    Outcome::Unordered
                } else if x > threshold {
                    Outcome::Above
                } else if x < threshold {
                    Outcome::Below
                } else {
                    Outcome::Level
                },
                None => Outcome::Absent,
            };
            r.push(o);
            i += 1;
        }
        r
    }

    /// Returns `(min, max)` of present values, or `None` if no value is
    /// present. A NaN is passed over (as the minimum and maximum of doubles
    /// pass it over) unless every present value is a NaN; then both ends are
    /// the first one.
    pub fn data_range(&self) -> (r: Option<(i64, i64)>)
        ensures
            r is None <==> !has_present(self@.data),
            r matches Some((lo, hi)) ==> is_range(self@.data, lo, hi),
    {
        let d = &self.data;
        let mut range: Option<(i64, i64)> = None;
        let mut i: usize = 0;
        while i < d.len()
            invariant
                i <= d@.len(),
                range is None ==> forall|j: int| 0 <= j < i ==> #[trigger] d@[j] is None,
                range matches Some((lo, hi)) ==> {
                    &&& is_range_before(d@, i as int, lo, hi)
                    &&& has_number_before(d@, i as int) <==> !is_nan_sample(lo)
                },
            decreases d@.len() - i,
        {
            if let Some(v) = d[i] {
                match range {
                    None => {
                        proof {
                            lemma_range_start(d@, i as int, v);
                        }
                        range = Some((v, v));
                    },
                    Some((lo, hi)) => {
                        if is_nan(v) {
                            proof {
                                lemma_range_skip(d@, i as int, lo, hi);
                            }
                        } else if is_nan(lo) {
                            proof {
                                lemma_range_restart(d@, i as int, lo, hi, v);
                            }
                            range = Some((v, v));
                        } else {
                            let nlo = if v < lo {
                                v
                            } else {
                                lo
                            };
                            let nhi = if v > hi {
                                v
                            } else {
                                hi
                            };
                            proof {
                                lemma_range_extend(d@, i as int, lo, hi, v);
                            }
                            range = Some((nlo, nhi));
                        }
                    },
                }
            } else {
                proof {
                    if let Some((lo, hi)) = range {
                        lemma_range_skip(d@, i as int, lo, hi);
                    }
                }
            }
            i += 1;
        }
        proof {
            if let Some((lo, hi)) = range {
                if has_number_before(d@, d@.len() as int) {
                    let w = choose|x: int| 0 <= x < d@.len() && #[trigger] is_number(d@, x);
                    assert(d@[w] is Some);
                } else {
                    let w = choose|x: int|
                        0 <= x < d@.len() && #[trigger] is_first_present(d@, x) && d@[x] == Some(lo);
                    assert(d@[w] is Some);
                }
            }
        }
        range
    }

    /// The first position holding `sample`, if any.
    pub fn position_of(&self, sample: i64) -> (r: Option<usize>)
        ensures
            r is None ==> forall|i: int| 0 <= i < self@.data.len() ==> #[trigger] self@.data[i]
                != Some(sample),
            r matches Some(i) ==> i < self@.data.len() && self@.data[i as int] == Some(sample)
                && forall|j: int| 0 <= j < i ==> #[trigger] self@.data[j] != Some(sample),
    {
        let d = &self.data;
        let mut i: usize = 0;
        while i < d.len()
            invariant
                i <= d@.len(),
                d@ == self@.data,
                forall|j: int| 0 <= j < i ==> #[trigger] d@[j] != Some(sample),
            decreases d@.len() - i,
        {
            if d[i] == Some(sample) {
                return Some(i);
            }
            i += 1;
        }
        None
    }
}

proof fn lemma_range_start(d: Seq<Option<i64>>, i: int, v: i64)
    requires
        0 <= i < d.len(),
        forall|j: int| 0 <= j < i ==> #[trigger] d[j] is None,
        d[i] == Some(v),
    ensures
        is_range_before(d, i + 1, v, v),
        has_number_before(d, i + 1) <==> !is_nan_sample(v),
{
    assert(is_first_present(d, i));
    if !is_nan_sample(v) {
        assert(is_number(d, i));
        assert forall|j: int| 0 <= j < i + 1 && #[trigger] is_number(d, j) implies v <= d[j]->0 <= v by {
            if j < i {
                assert(d[j] is None);
            }
        }
    } else {
        if has_number_before(d, i + 1) {
            let w = choose|x: int| 0 <= x < i + 1 && #[trigger] is_number(d, x);
            if w < i {
                assert(d[w] is None);
            }
        }
    }
}

proof fn lemma_range_skip(d: Seq<Option<i64>>, i: int, lo: i64, hi: i64)
    requires
        0 <= i < d.len(),
        is_range_before(d, i, lo, hi),
        !is_number(d, i),
    ensures
        is_range_before(d, i + 1, lo, hi),
        has_number_before(d, i + 1) == has_number_before(d, i),
{
    if has_number_before(d, i + 1) {
        let w = choose|x: int| 0 <= x < i + 1 && #[trigger] is_number(d, x);
        assert(w < i);
        assert(has_number_before(d, i));
    }
    if has_number_before(d, i) {
        let w = choose|x: int| 0 <= x < i && #[trigger] is_number(d, x);
        assert(has_number_before(d, i + 1));
    }
}

proof fn lemma_range_restart(d: Seq<Option<i64>>, i: int, lo: i64, hi: i64, v: i64)
    requires
        0 <= i < d.len(),
        is_range_before(d, i, lo, hi),
        !has_number_before(d, i),
        d[i] == Some(v),
        !is_nan_sample(v),
    ensures
        is_range_before(d, i + 1, v, v),
        has_number_before(d, i + 1),
{
    assert(is_number(d, i));
    assert forall|j: int| 0 <= j < i + 1 && #[trigger] is_number(d, j) implies v <= d[j]->0 <= v by {
        if j < i {
            assert(has_number_before(d, i));
        }
    }
}

proof fn lemma_range_extend(d: Seq<Option<i64>>, i: int, lo: i64, hi: i64, v: i64)
    requires
        0 <= i < d.len(),
        is_range_before(d, i, lo, hi),
        has_number_before(d, i),
        d[i] == Some(v),
        !is_nan_sample(v),
    ensures
        is_range_before(d, i + 1, if v < lo { v } else { lo }, if v > hi { v } else { hi }),
        has_number_before(d, i + 1),
        !is_nan_sample(if v < lo { v } else { lo }),
{
    let nlo = if v < lo { v } else { lo };
    let nhi = if v > hi { v } else { hi };
    assert(is_number(d, i));
    let a = choose|x: int| 0 <= x < i && is_number(d, x) && #[trigger] d[x] == Some(lo);
    let b = choose|x: int| 0 <= x < i && is_number(d, x) && #[trigger] d[x] == Some(hi);
    assert(is_number(d, a));
    if v < lo {
        assert(0 <= i < i + 1 && is_number(d, i) && d[i] == Some(nlo));
    } else {
        assert(0 <= a < i + 1 && is_number(d, a) && d[a] == Some(nlo));
    }
    if v > hi {
        assert(0 <= i < i + 1 && is_number(d, i) && d[i] == Some(nhi));
    } else {
        assert(0 <= b < i + 1 && is_number(d, b) && d[b] == Some(nhi));
    }
    assert forall|j: int| 0 <= j < i + 1 && #[trigger] is_number(d, j) implies nlo <= d[j]->0
        <= nhi by {
        if j < i {
            assert(lo <= d[j]->0 <= hi);
        }
    }
}

} // verus!
