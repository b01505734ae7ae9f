//! A sparkline as one line of block characters.
use vstd::prelude::*;
use crate::model::{
    has_number, has_present, is_flat, is_nan_sample, is_number, lemma_flat_iff_flat_range,
    outcome_of, sample_gt, sample_lt, threshold_of, Outcome, SparkStyle, Sparkline,
    SparklineView, INFINITY_SAMPLE,
};

verus! {

/// Upper half block: a win.
pub const UPPER_HALF: char = '\u{2580}';

/// Lower half block: a loss.
pub const LOWER_HALF: char = '\u{2584}';

/// The block character of a level: U+2581 (lower one-eighth) for level 0 up
/// to U+2588 (full block) for level 7 and above.
pub open spec fn block_at(level: int) -> char {
    if level <= 0 {
        '\u{2581}'
    } else if level == 1 {
        '\u{2582}'
    } else if level == 2 {
        '\u{2583}'
    } else if level == 3 {
        '\u{2584}'
    } else if level == 4 {
        '\u{2585}'
    } else if level == 5 {
        '\u{2586}'
    } else if level == 6 {
        '\u{2587}'
    } else {
        '\u{2588}'
    }
}

/// The block character of a level (levels above 7 draw the full block).
pub fn block_glyph(level: usize) -> (c: char)
    ensures
        c == block_at(level as int),
{
    if level == 0 {
        '\u{2581}'
    } else if level == 1 {
        '\u{2582}'
    } else if level == 2 {
        '\u{2583}'
    } else if level == 3 {
        '\u{2584}'
    } else if level == 4 {
        '\u{2585}'
    } else if level == 5 {
        '\u{2586}'
    } else if level == 6 {
        '\u{2587}'
    } else {
        '\u{2588}'
    }
}

/// The level drawn for flat data (present numbers all one finite value):
/// mid-height.
pub open spec fn flat_level() -> int {
    3
}

/// The glyph of sample `i` in the Line and Bar styles, where `levels[i]` is
/// its scaled height.
pub open spec fn block_glyph_of(d: Seq<Option<i64>>, levels: Seq<usize>, i: int) -> char {
    match d[i] {
        None => ' ',
        Some(_) => if is_flat(d) {
            block_at(flat_level())
        } else {
            block_at(levels[i] as int)
        },
    }
}

/// The glyph of an outcome in the WinLoss style.
pub open spec fn winloss_glyph(o: Outcome) -> char {
    match o {
        Outcome::Above => UPPER_HALF,
        Outcome::Below => LOWER_HALF,
        _ => ' ',
    }
}

/// The text of a sparkline. In the Line and Bar styles: empty when no sample
/// is present, else one glyph per sample (a space for a gap). In the WinLoss
/// style: one glyph per sample, by where it stands against the threshold.
pub open spec fn text_of(s: SparklineView, levels: Seq<usize>) -> Seq<char> {
    match s.style {
        SparkStyle::WinLoss => Seq::new(
            s.data.len(),
            |i: int| winloss_glyph(outcome_of(s.data[i], threshold_of(s.reference))),
        ),
        _ => if has_present(s.data) {
            Seq::new(s.data.len(), |i: int| block_glyph_of(s.data, levels, i))
        } else {
            Seq::empty()
        },
    }
}

/// Appends one character to a string.
///
/// Calls `String::push`, which appends the character at the end; the
/// contract claims exactly that of the string's characters.
#[verifier::external_body]
fn push_glyph(s: &mut String, c: char)
    ensures
        final(s)@ == old(s)@.push(c),
{
    s.push(c)
}

impl Sparkline {
    /// The sparkline as text. `levels[i]` is the height of sample `i` scaled
    /// from the least (0) to the greatest (7) present sample; it is read only
    /// for present samples, in the Line and Bar styles, when the data has
    /// some spread.
    pub fn render_text(&self, levels: &[usize]) -> (t: String)
        requires
            levels@.len() == self@.data.len(),
        ensures
            t@ == text_of(self@, levels@),
    {
        let d = self.data();
        let mut t = String::new();
        match self.spark_style() {
            SparkStyle::WinLoss => {
                let outcomes = self.outcomes();
                let mut i: usize = 0;
                while i < d.len()
                    invariant
                        i <= d@.len(),
                        d@ == self@.data,
                        outcomes@.len() == d@.len(),
                        forall|j: int| 0 <= j < outcomes@.len() ==> #[trigger] outcomes@[j]
                            == outcome_of(self@.data[j], threshold_of(self@.reference)),
                        t@ == Seq::new(
                            i as nat,
                            |j: int| winloss_glyph(outcome_of(d@[j], threshold_of(self@.reference))),
                        ),
                    decreases d@.len() - i,
                {
                    let c = match outcomes[i] {
                        Outcome::Above => UPPER_HALF,
                        Outcome::Below => LOWER_HALF,
                        _ => ' ',
                    };
                    push_glyph(&mut t, c);
                    i += 1;
                }
            },
            _ => {
                let range = self.data_range();
                if let Some((lo, hi)) = range {
                    proof {
                        lemma_flat_iff_flat_range(d@, lo, hi);
                    }
                    let flat = lo == hi && -INFINITY_SAMPLE < lo && lo < INFINITY_SAMPLE;
                    let mut i: usize = 0;
                    while i < d.len()
                        invariant
                            i <= d@.len(),
                            d@ == self@.data,
                            levels@.len() == d@.len(),
                            flat == is_flat(d@),
                            t@ == Seq::new(i as nat, |j: int| block_glyph_of(d@, levels@, j)),
                        decreases d@.len() - i,
                    {
                        let c = match d[i] {
                            None => ' ',
                            Some(_) => if flat {
                                block_glyph(3)
                            } else {
                                block_glyph(levels[i])
                            },
                        };
                        push_glyph(&mut t, c);
                        i += 1;
                    }
                }
            },
        }
        t
    }
}

/// Bar style renders the same as Line style.
pub proof fn law_bar_text_is_line_text(s: SparklineView, levels: Seq<usize>)
    requires
        s.style == SparkStyle::Line,
    ensures
        text_of(SparklineView { style: SparkStyle::Bar, ..s }, levels) == text_of(s, levels),
{
}

/// Gaps render as spaces, in every style, wherever the text has a glyph for
/// the sample.
pub proof fn law_gaps_are_spaces(s: SparklineView, levels: Seq<usize>, i: int)
    requires
        0 <= i < text_of(s, levels).len(),
        s.data[i] is None,
    ensures
        text_of(s, levels)[i] == ' ',
{
}

/// The text has exactly one glyph per sample, except in the Line and Bar
/// styles when no sample is present: then it is empty.
pub proof fn law_one_glyph_per_sample(s: SparklineView, levels: Seq<usize>)
    ensures
        (s.style == SparkStyle::WinLoss || has_present(s.data)) ==> text_of(s, levels).len()
            == s.data.len(),
        (s.style != SparkStyle::WinLoss && !has_present(s.data)) ==> text_of(s, levels).len() == 0,
{
}

/// When the present numbers are all one finite value, each present sample
/// draws the mid-height block, whatever the levels say.
pub proof fn law_flat_data_is_mid_height(s: SparklineView, levels: Seq<usize>, i: int)
    requires
        s.style != SparkStyle::WinLoss,
        is_flat(s.data),
        0 <= i < s.data.len(),
        s.data[i] is Some,
    ensures
        text_of(s, levels)[i] == '\u{2584}',
{
    assert(has_present(s.data));
}

/// A larger sample never draws a lower block, provided the levels given
/// grow with the samples (as scaling between the least and the greatest
/// does): in the Line and Bar styles, if sample `i` is at most sample `j`
/// (neither a NaN), glyph `i` is at most glyph `j`.
pub proof fn law_blocks_ascend_with_samples(s: SparklineView, levels: Seq<usize>, i: int, j: int)
    requires
        s.style != SparkStyle::WinLoss,
        0 <= i < s.data.len(),
        0 <= j < s.data.len(),
        levels.len() == s.data.len(),
        is_number(s.data, i),
        is_number(s.data, j),
        s.data[i]->0 <= s.data[j]->0,
        forall|p: int, q: int|
            0 <= p < s.data.len() && 0 <= q < s.data.len() && #[trigger] is_number(s.data, p)
                && #[trigger] is_number(s.data, q) && s.data[p]->0 <= s.data[q]->0 ==> levels[p]
                <= levels[q],
    ensures
        (text_of(s, levels)[i] as u32) <= (text_of(s, levels)[j] as u32),
{
    assert(s.data[i] is Some);
    assert(has_present(s.data));
    if !is_flat(s.data) {
        assert(levels[i] <= levels[j]);
        law_blocks_ascend_with_level(levels[i] as int, levels[j] as int);
    }
}

/// The block of a level is U+2581 plus the level, the level taken between
/// 0 and 7.
pub proof fn law_block_code_points(level: int)
    ensures
        (block_at(level) as u32) == 0x2581 + if level < 0 {
            0
        } else if level > 7 {
            7
        } else {
            level
        },
{
}

/// Higher levels never draw lower blocks.
pub proof fn law_blocks_ascend_with_level(a: int, b: int)
    requires
        a <= b,
    ensures
        (block_at(a) as u32) <= (block_at(b) as u32),
{
}

/// In the WinLoss style a sample above the threshold (the reference line, or
/// zero) draws the upper half block, one below it the lower half block, and
/// one at the threshold, a NaN (or any sample against a NaN threshold) or a
/// gap a space.
pub proof fn law_winloss_text(s: SparklineView, levels: Seq<usize>, i: int)
    requires
        s.style == SparkStyle::WinLoss,
        0 <= i < s.data.len(),
    ensures
        text_of(s, levels)[i] == '\u{2580}' <==> (s.data[i] matches Some(v) && sample_gt(
            v,
            threshold_of(s.reference),
        )),
        text_of(s, levels)[i] == '\u{2584}' <==> (s.data[i] matches Some(v) && sample_lt(
            v,
            threshold_of(s.reference),
        )),
        text_of(s, levels)[i] == ' ' <==> !(s.data[i] matches Some(v) && (sample_gt(
            v,
            threshold_of(s.reference),
        ) || sample_lt(v, threshold_of(s.reference)))),
{
}

/// When the data is not flat, each present sample draws the block of its
/// level.
pub proof fn law_spread_data_draws_levels(s: SparklineView, levels: Seq<usize>, i: int)
    requires
        s.style != SparkStyle::WinLoss,
        !is_flat(s.data),
        0 <= i < s.data.len(),
        s.data[i] is Some,
    ensures
        text_of(s, levels)[i] == block_at(levels[i] as int),
{
    assert(has_present(s.data));
}

} // verus!
