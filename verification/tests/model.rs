use sparkline::{bits_of_sample, sample_of_bits, Marker, Outcome, SparkStyle, Sparkline};

#[test]
fn from_values_has_no_gaps_and_defaults() {
    let s = Sparkline::from_values(&[3, 1, 2]);
    assert_eq!(s.data(), &[Some(3), Some(1), Some(2)]);
    assert_eq!(s.spark_style(), SparkStyle::Line);
    assert!(s.markers().is_empty());
    assert_eq!(s.reference_value(), None);
}

#[test]
fn default_style_is_line() {
    assert_eq!(SparkStyle::default(), SparkStyle::Line);
}

#[test]
fn builders_set_what_accessors_read() {
    let s = Sparkline::new(vec![Some(1), None])
        .style(SparkStyle::Bar)
        .reference_line(-5);
    assert_eq!(s.data(), &[Some(1), None]);
    assert_eq!(s.spark_style(), SparkStyle::Bar);
    assert_eq!(s.reference_value(), Some(-5));
    let s = s.style(SparkStyle::WinLoss).reference_line(7);
    assert_eq!(s.spark_style(), SparkStyle::WinLoss);
    assert_eq!(s.reference_value(), Some(7));
}

#[test]
fn markers_are_deduplicated_and_keep_order() {
    let s = Sparkline::from_values(&[1])
        .marker(Marker::Max)
        .marker(Marker::Min)
        .marker(Marker::Max)
        .marker(Marker::Current)
        .marker(Marker::Min);
    assert_eq!(s.markers(), &[Marker::Max, Marker::Min, Marker::Current]);
}

#[test]
fn min_index_is_first_of_equal_minima() {
    let s = Sparkline::new(vec![Some(4), Some(1), None, Some(1), Some(9)]);
    assert_eq!(s.min_index(), Some(1));
}

#[test]
fn max_index_is_last_of_equal_maxima() {
    let s = Sparkline::new(vec![Some(9), Some(1), None, Some(9), Some(2)]);
    assert_eq!(s.max_index(), Some(3));
}

#[test]
fn current_index_is_last_present() {
    let s = Sparkline::new(vec![Some(9), Some(1), Some(3), None, None]);
    assert_eq!(s.current_index(), Some(2));
}

#[test]
fn indices_are_none_without_present_values() {
    for s in [Sparkline::new(vec![]), Sparkline::new(vec![None, None])] {
        assert_eq!(s.min_index(), None);
        assert_eq!(s.max_index(), None);
        assert_eq!(s.current_index(), None);
        assert_eq!(s.data_range(), None);
    }
}

#[test]
fn data_range_is_least_and_greatest() {
    let s = Sparkline::new(vec![None, Some(-3), Some(8), None, Some(0), Some(8)]);
    assert_eq!(s.data_range(), Some((-3, 8)));
    let s = Sparkline::from_values(&[inf(), -inf()]);
    assert_eq!(s.data_range(), Some((-inf(), inf())));
    // Samples beyond the infinities are NaNs, and passed over.
    let s = Sparkline::from_values(&[i64::MIN, 4, i64::MAX]);
    assert_eq!(s.data_range(), Some((4, 4)));
}

#[test]
fn range_ends_are_at_min_and_max_indices() {
    let s = Sparkline::new(vec![Some(5), None, Some(2), Some(7), Some(2), Some(7)]);
    let (lo, hi) = s.data_range().unwrap();
    assert_eq!(s.data()[s.min_index().unwrap()], Some(lo));
    assert_eq!(s.data()[s.max_index().unwrap()], Some(hi));
    assert!(s.min_index().unwrap() <= s.current_index().unwrap());
    assert!(s.max_index().unwrap() <= s.current_index().unwrap());
}

#[test]
fn outcomes_use_zero_without_reference() {
    let s = Sparkline::new(vec![Some(1), Some(-1), Some(0), None]);
    assert_eq!(
        s.outcomes(),
        vec![Outcome::Above, Outcome::Below, Outcome::Level, Outcome::Absent]
    );
}

#[test]
fn outcomes_use_reference_line() {
    let s = Sparkline::from_values(&[5, 3, 4]).reference_line(4);
    assert_eq!(s.outcomes(), vec![Outcome::Above, Outcome::Below, Outcome::Level]);
}

#[test]
fn clone_keeps_everything() {
    let s = Sparkline::new(vec![Some(1), None])
        .style(SparkStyle::Bar)
        .marker(Marker::Current)
        .reference_line(3);
    let c = s.clone();
    assert_eq!(c.data(), s.data());
    assert_eq!(c.spark_style(), s.spark_style());
    assert_eq!(c.markers(), s.markers());
    assert_eq!(c.reference_value(), s.reference_value());
}

#[test]
fn samples_order_doubles() {
    let values = [f64::NEG_INFINITY, -1e300, -2.5, -1.0, -1e-310, 0.0, 1e-310, 1.0, 2.5, 1e300, f64::INFINITY];
    let samples: Vec<i64> = values.iter().map(|v| sample_of_bits(v.to_bits())).collect();
    for pair in samples.windows(2) {
        assert!(pair[0] < pair[1]);
    }
    assert_eq!(sample_of_bits(0.0f64.to_bits()), 0);
    assert_eq!(sample_of_bits((-0.0f64).to_bits()), 0);
    assert_eq!(sample_of_bits(1.0f64.to_bits()), 0x3FF0_0000_0000_0000);
    assert_eq!(sample_of_bits((-1.0f64).to_bits()), -0x3FF0_0000_0000_0000);
    for v in values {
        assert_eq!(f64::from_bits(bits_of_sample(sample_of_bits(v.to_bits()))), v);
    }
    assert_eq!(bits_of_sample(0), 0);
    assert_eq!(bits_of_sample(-1), 0x8000_0000_0000_0001);
}

fn nan() -> i64 {
    sample_of_bits(f64::NAN.to_bits())
}

fn inf() -> i64 {
    sample_of_bits(f64::INFINITY.to_bits())
}

#[test]
fn nan_is_unordered() {
    let s = Sparkline::new(vec![Some(nan()), Some(1), None]);
    assert_eq!(s.outcomes(), vec![Outcome::Unordered, Outcome::Above, Outcome::Absent]);
    let s = Sparkline::from_values(&[5, -5, 0]).reference_line(nan());
    assert_eq!(s.outcomes(), vec![Outcome::Unordered; 3]);
    // Infinities are ordered.
    let s = Sparkline::from_values(&[inf(), -inf()]);
    assert_eq!(s.outcomes(), vec![Outcome::Above, Outcome::Below]);
}

#[test]
fn data_range_passes_over_nan() {
    let s = Sparkline::new(vec![Some(nan()), Some(3), None, Some(nan()), Some(-2)]);
    assert_eq!(s.data_range(), Some((-2, 3)));
    // All NaN: the first one at both ends.
    let other_nan = nan() + 1;
    let s = Sparkline::new(vec![None, Some(other_nan), Some(nan())]);
    assert_eq!(s.data_range(), Some((other_nan, other_nan)));
}

#[test]
fn single_nan_has_positions() {
    let s = Sparkline::new(vec![None, Some(nan())]);
    assert_eq!(s.min_index(), Some(1));
    assert_eq!(s.max_index(), Some(1));
    assert_eq!(s.current_index(), Some(1));
}

#[test]
fn position_of_finds_first() {
    let s = Sparkline::new(vec![None, Some(0), Some(4), Some(0)]);
    assert_eq!(s.position_of(0), Some(1));
    assert_eq!(s.position_of(4), Some(2));
    assert_eq!(s.position_of(7), None);
}
