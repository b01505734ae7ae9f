use sparkline::{block_glyph, sample_of_bits, SparkStyle, Sparkline, LOWER_HALF, UPPER_HALF};

/// The sample that stands for a floating-point value.
fn sample(v: f64) -> i64 {
    sample_of_bits(v.to_bits())
}

fn from_values(values: &[f64]) -> Sparkline {
    let samples: Vec<i64> = values.iter().map(|v| sample(*v)).collect();
    Sparkline::from_values(&samples)
}

fn from_options(values: &[Option<f64>]) -> Sparkline {
    Sparkline::new(values.iter().map(|v| v.map(sample)).collect())
}

/// Each present value scaled to 0..=7 between the least and greatest.
fn levels(values: &[Option<f64>]) -> Vec<usize> {
    let present: Vec<f64> = values.iter().flatten().copied().collect();
    let Some(first) = present.first().copied() else {
        return vec![0; values.len()];
    };
    let (min, max) = present
        .iter()
        .fold((first, first), |(lo, hi), v| (lo.min(*v), hi.max(*v)));
    let span = max - min;
    values
        .iter()
        .map(|v| match v {
            Some(v) if span != 0.0 => (((v - min) / span) * 7.0).round() as usize,
            _ => 0,
        })
        .collect()
}

fn text_of(s: &Sparkline, values: &[Option<f64>]) -> String {
    s.render_text(&levels(values))
}

fn dense(values: &[f64]) -> Vec<Option<f64>> {
    values.iter().copied().map(Some).collect()
}

#[test]
fn ascending_values_produce_ascending_blocks() {
    let values = [0.0, 1.0, 2.0, 3.0, 4.0, 5.0, 6.0, 7.0];
    let s = from_values(&values);
    let text = text_of(&s, &dense(&values));
    let chars: Vec<char> = text.chars().collect();
    assert_eq!(chars.len(), 8);
    // Each character should be >= the previous one
    for pair in chars.windows(2) {
        assert!(pair[0] <= pair[1], "{:?} should be <= {:?}", pair[0], pair[1]);
    }
    assert_eq!(chars[0], block_glyph(0));
    assert_eq!(chars[7], block_glyph(7));
}

#[test]
fn constant_values_use_mid_block() {
    let values = [5.0, 5.0, 5.0];
    let s = from_values(&values);
    let text = text_of(&s, &dense(&values));
    // All equal -> index 3 (mid-height)
    assert!(text.chars().all(|c| c == block_glyph(3)));
}

#[test]
fn gaps_render_as_spaces() {
    let values = [Some(1.0), None, Some(3.0)];
    let s = from_options(&values);
    let chars: Vec<char> = text_of(&s, &values).chars().collect();
    assert_eq!(chars[1], ' ');
}

#[test]
fn winloss_above_below_threshold() {
    let values = [1.0, -1.0, 0.0];
    let s = from_values(&values).style(SparkStyle::WinLoss);
    let chars: Vec<char> = text_of(&s, &dense(&values)).chars().collect();
    assert_eq!(chars[0], UPPER_HALF);
    assert_eq!(chars[1], LOWER_HALF);
    assert_eq!(chars[2], ' '); // exactly at threshold
}

#[test]
fn winloss_custom_threshold() {
    let values = [5.0, 3.0, 4.0];
    let s = from_values(&values)
        .style(SparkStyle::WinLoss)
        .reference_line(sample(4.0));
    let chars: Vec<char> = text_of(&s, &dense(&values)).chars().collect();
    assert_eq!(chars[0], UPPER_HALF); // 5 > 4
    assert_eq!(chars[1], LOWER_HALF); // 3 < 4
    assert_eq!(chars[2], ' '); // 4 == 4
}

#[test]
fn empty_data_produces_empty_string() {
    let s = from_values(&[]);
    assert_eq!(text_of(&s, &[]), "");
}

#[test]
fn bar_style_renders_same_as_line() {
    let data = [1.0, 4.0, 2.0, 7.0, 3.0];
    let line = text_of(&from_values(&data).style(SparkStyle::Line), &dense(&data));
    let bar = text_of(&from_values(&data).style(SparkStyle::Bar), &dense(&data));
    assert_eq!(line, bar);
}

// -- Further cases --

#[test]
fn block_glyphs_span_the_eighths() {
    let expected = ['\u{2581}', '\u{2582}', '\u{2583}', '\u{2584}', '\u{2585}', '\u{2586}', '\u{2587}', '\u{2588}'];
    for (level, c) in expected.iter().enumerate() {
        assert_eq!(block_glyph(level), *c);
    }
    // Levels past the top draw the full block.
    assert_eq!(block_glyph(8), '\u{2588}');
    assert_eq!(block_glyph(usize::MAX), '\u{2588}');
}

#[test]
fn levels_above_seven_are_clamped() {
    let s = Sparkline::from_values(&[0, 10]);
    assert_eq!(s.render_text(&[0, 9]), "\u{2581}\u{2588}");
}

#[test]
fn all_gaps_render_nothing_in_blocks_but_spaces_in_winloss() {
    let s = Sparkline::new(vec![None, None]);
    assert_eq!(s.render_text(&[0, 0]), "");
    let w = Sparkline::new(vec![None, None]).style(SparkStyle::WinLoss);
    assert_eq!(w.render_text(&[0, 0]), "  ");
}

#[test]
fn winloss_gap_is_space() {
    let s = Sparkline::new(vec![Some(2), None, Some(-2)]).style(SparkStyle::WinLoss);
    assert_eq!(s.render_text(&[0, 0, 0]), "\u{2580} \u{2584}");
}

#[test]
fn single_value_is_flat() {
    let s = Sparkline::new(vec![None, Some(42), None]);
    assert_eq!(s.render_text(&[7, 7, 7]), " \u{2584} ");
}

#[test]
fn negative_zero_is_zero() {
    assert_eq!(sample(-0.0), sample(0.0));
    let s = from_values(&[-0.0]).style(SparkStyle::WinLoss);
    assert_eq!(s.render_text(&[0]), " ");
}

#[test]
fn winloss_nan_is_space() {
    let values = [f64::NAN, 1.0];
    let s = from_values(&values).style(SparkStyle::WinLoss);
    assert_eq!(text_of(&s, &dense(&values)), " \u{2580}");
    let s = from_values(&[1.0, -1.0]).style(SparkStyle::WinLoss).reference_line(sample(f64::NAN));
    assert_eq!(text_of(&s, &dense(&[1.0, -1.0])), "  ");
}

#[test]
fn equal_infinities_are_not_flat() {
    let values = [f64::INFINITY];
    let s = from_values(&values);
    // inf - inf is not zero, so the level given (0 here) is drawn.
    assert_eq!(s.render_text(&[0]), "\u{2581}");
    assert_eq!(text_of(&s, &dense(&values)), "\u{2581}");
}

#[test]
fn nan_beside_flat_numbers_draws_mid_block() {
    let values = [f64::NAN, 5.0, 5.0];
    let s = from_values(&values);
    assert_eq!(text_of(&s, &dense(&values)), "\u{2584}\u{2584}\u{2584}");
}
