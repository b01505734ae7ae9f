use sparkline::{sample_of_bits, fill_path, marker_points, range_fit, stroke_path, Marker, PathOp, RangeFit, Sparkline};

#[test]
fn stroke_breaks_at_gaps() {
    let s = Sparkline::new(vec![Some(1), Some(2), None, Some(3), None, None, Some(4), Some(5)]);
    assert_eq!(
        stroke_path(&s),
        vec![
            PathOp::MoveTo(0),
            PathOp::LineTo(1),
            PathOp::MoveTo(3),
            PathOp::MoveTo(6),
            PathOp::LineTo(7),
        ]
    );
}

#[test]
fn fill_closes_each_run() {
    let s = Sparkline::new(vec![None, Some(1), Some(2), None, Some(3)]);
    assert_eq!(
        fill_path(&s),
        vec![
            PathOp::MoveToBase(1),
            PathOp::LineTo(1),
            PathOp::LineTo(2),
            PathOp::LineToBase(2),
            PathOp::LineToBase(1),
            PathOp::Close,
            PathOp::MoveToBase(4),
            PathOp::LineTo(4),
            PathOp::LineToBase(4),
            PathOp::LineToBase(4),
            PathOp::Close,
        ]
    );
}

#[test]
fn empty_paths_without_present_samples() {
    let s = Sparkline::new(vec![None, None]);
    assert!(stroke_path(&s).is_empty());
    assert!(fill_path(&s).is_empty());
}

#[test]
fn marker_points_follow_marker_order() {
    let s = Sparkline::new(vec![Some(2), Some(9), Some(1), Some(9), None])
        .marker(Marker::Current)
        .marker(Marker::Max)
        .marker(Marker::Min);
    assert_eq!(
        marker_points(&s),
        vec![(Marker::Current, 3), (Marker::Max, 3), (Marker::Min, 2)]
    );
    let empty = Sparkline::new(vec![None]).marker(Marker::Min);
    assert!(marker_points(&empty).is_empty());
}

#[test]
fn range_fit_makes_room_for_reference() {
    let s = Sparkline::from_values(&[2, 6]);
    assert_eq!(range_fit(&s), Some((2, 6, RangeFit::Keep)));
    assert_eq!(range_fit(&Sparkline::from_values(&[2, 6]).reference_line(4)), Some((2, 6, RangeFit::Keep)));
    assert_eq!(range_fit(&Sparkline::from_values(&[2, 6]).reference_line(10)), Some((2, 6, RangeFit::RaiseTop)));
    assert_eq!(range_fit(&Sparkline::from_values(&[2, 6]).reference_line(-1)), Some((2, 6, RangeFit::LowerBottom)));
    assert_eq!(range_fit(&Sparkline::new(vec![None]).reference_line(1)), None);
}

#[test]
fn nan_reference_keeps_the_range() {
    let nan = sample_of_bits(f64::NAN.to_bits());
    let s = Sparkline::from_values(&[2, 6]).reference_line(nan);
    assert_eq!(range_fit(&s), Some((2, 6, RangeFit::Keep)));
    let all_nan = Sparkline::new(vec![Some(nan)]).reference_line(1);
    assert_eq!(range_fit(&all_nan), Some((nan, nan, RangeFit::Keep)));
}
