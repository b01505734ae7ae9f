use sparkline::{sample_of_bits, bars_picture, widget_picture, winloss_picture, Area, Marker, Paint, SparkStyle, Sparkline};

const FULL: char = '\u{2588}';

fn cell(symbol: Option<char>, data: bool, marker: bool, absent: bool, reference: bool) -> Paint {
    Paint { symbol, data, marker, absent, reference }
}

fn untouched() -> Paint {
    cell(None, false, false, false, false)
}

fn filled() -> Paint {
    cell(Some(FULL), true, false, false, false)
}

fn absent() -> Paint {
    cell(None, false, false, true, false)
}

#[test]
fn area_edges_saturate() {
    let a = Area { x: 65530, y: 3, width: 10, height: 4 };
    assert_eq!(a.right(), 65535);
    assert_eq!(a.bottom(), 7);
    assert!(!a.is_empty());
    assert!(Area { x: 0, y: 0, width: 0, height: 5 }.is_empty());
}

#[test]
fn bars_rise_from_the_bottom() {
    // Two rows: 16 eighths is a full column, 12 a full cell and a half block.
    let s = Sparkline::from_values(&[0, 10, 5]);
    let area = Area { x: 0, y: 0, width: 10, height: 2 };
    let pic = bars_picture(&s, area, &[0, 16, 12], 0);
    assert_eq!(pic.len(), 3);
    // The minimum still shows one eighth.
    assert_eq!(pic[0], vec![untouched(), cell(Some('\u{2581}'), true, false, false, false)]);
    assert_eq!(pic[1], vec![filled(), filled()]);
    assert_eq!(pic[2], vec![cell(Some('\u{2584}'), true, false, false, false), filled()]);
}

#[test]
fn flat_data_draws_half_height() {
    let s = Sparkline::from_values(&[3, 3]);
    let area = Area { x: 0, y: 0, width: 5, height: 4 };
    // 4 * 4 = 16 eighths: the two bottom rows; the scaled heights are ignored.
    let pic = bars_picture(&s, area, &[99, 0], 0);
    assert_eq!(pic.len(), 2);
    for column in &pic {
        assert_eq!(column, &vec![untouched(), untouched(), filled(), filled()]);
    }
}

#[test]
fn gaps_are_shaded_and_columns_clip_to_area() {
    let s = Sparkline::new(vec![Some(1), None, Some(2), Some(3)]);
    let area = Area { x: 2, y: 1, width: 3, height: 1 };
    let pic = bars_picture(&s, area, &[0, 0, 4, 8], 0);
    assert_eq!(pic.len(), 3);
    assert_eq!(pic[1], vec![absent()]);
}

#[test]
fn no_present_sample_paints_nothing() {
    let s = Sparkline::new(vec![None, None]);
    let area = Area { x: 0, y: 0, width: 5, height: 3 };
    assert!(bars_picture(&s, area, &[0, 0], 0).is_empty());
}

#[test]
fn marker_columns_are_highlighted() {
    let s = Sparkline::from_values(&[4, 1, 9, 1]).marker(Marker::Min).marker(Marker::Max);
    let area = Area { x: 0, y: 0, width: 4, height: 1 };
    let pic = bars_picture(&s, area, &[5, 0, 8, 0], 0);
    assert!(!pic[0][0].marker);
    assert!(pic[1][0].marker); // first minimum
    assert!(pic[2][0].marker); // maximum
    assert!(!pic[3][0].marker); // a later equal minimum is not marked
}

#[test]
fn reference_line_crosses_the_drawn_columns() {
    let s = Sparkline::new(vec![Some(0), None, Some(10)]).reference_line(5);
    let area = Area { x: 0, y: 0, width: 10, height: 3 };
    let pic = bars_picture(&s, area, &[0, 0, 24], 1);
    for column in &pic {
        assert_eq!(column[1].symbol, Some('\u{2500}'));
        assert!(column[1].reference);
    }
    // The gap keeps its shading under the line.
    assert!(pic[1][1].absent);
    // No reference line for flat data.
    let flat = Sparkline::from_values(&[2, 2]).reference_line(5);
    let pic = bars_picture(&flat, area, &[0, 0], 1);
    assert!(pic.iter().all(|c| c.iter().all(|p| !p.reference)));
}

#[test]
fn winloss_fills_halves() {
    let s = Sparkline::new(vec![Some(3), Some(-3), Some(0), None]).style(SparkStyle::WinLoss);
    let area = Area { x: 0, y: 0, width: 10, height: 5 };
    let pic = winloss_picture(&s, area);
    assert_eq!(pic.len(), 4);
    // height 5: half = 2 rows on top for a win, the next 2 for a loss.
    assert_eq!(pic[0], vec![filled(), filled(), untouched(), untouched(), untouched()]);
    assert_eq!(pic[1], vec![untouched(), untouched(), filled(), filled(), untouched()]);
    assert_eq!(pic[2], vec![absent(); 5]);
    assert_eq!(pic[3], vec![absent(); 5]);
}

#[test]
fn winloss_uses_reference_threshold() {
    let s = Sparkline::from_values(&[5, 3, 4]).style(SparkStyle::WinLoss).reference_line(4);
    let area = Area { x: 0, y: 0, width: 3, height: 2 };
    let pic = winloss_picture(&s, area);
    assert_eq!(pic[0], vec![filled(), untouched()]);
    assert_eq!(pic[1], vec![untouched(), filled()]);
    assert_eq!(pic[2], vec![absent(), absent()]);
}

#[test]
fn widget_paints_nothing_in_empty_area() {
    let s = Sparkline::from_values(&[1, 2]);
    assert!(widget_picture(&s, Area { x: 0, y: 0, width: 0, height: 3 }, &[0, 8], 0).is_empty());
    assert!(widget_picture(&s, Area { x: 0, y: 0, width: 3, height: 0 }, &[0, 8], 0).is_empty());
}

#[test]
fn widget_picks_picture_by_style() {
    let area = Area { x: 1, y: 1, width: 4, height: 2 };
    let line = Sparkline::from_values(&[1, -1]);
    assert_eq!(widget_picture(&line, area, &[16, 0], 0), bars_picture(&line, area, &[16, 0], 0));
    let bar = Sparkline::from_values(&[1, -1]).style(SparkStyle::Bar);
    assert_eq!(widget_picture(&bar, area, &[16, 0], 0), bars_picture(&bar, area, &[16, 0], 0));
    let wl = Sparkline::from_values(&[1, -1]).style(SparkStyle::WinLoss);
    assert_eq!(widget_picture(&wl, area, &[16, 0], 0), winloss_picture(&wl, area));
    // Win/loss shades gaps even when no sample is present; bars paint nothing.
    let gaps = Sparkline::new(vec![None]).style(SparkStyle::WinLoss);
    assert_eq!(widget_picture(&gaps, area, &[0], 0), vec![vec![absent(), absent()]]);
    let gaps = Sparkline::new(vec![None]);
    assert!(widget_picture(&gaps, area, &[0], 0).is_empty());
}

#[test]
fn winloss_nan_column_is_shaded() {
    let nan = sample_of_bits(f64::NAN.to_bits());
    let s = Sparkline::new(vec![Some(nan), Some(2)]).style(SparkStyle::WinLoss);
    let area = Area { x: 0, y: 0, width: 4, height: 2 };
    let pic = winloss_picture(&s, area);
    assert_eq!(pic[0], vec![absent(), absent()]);
    assert_eq!(pic[1], vec![filled(), untouched()]);
}

#[test]
fn infinite_data_is_not_flat() {
    let inf = sample_of_bits(f64::INFINITY.to_bits());
    let s = Sparkline::from_values(&[inf, inf]).reference_line(0);
    let area = Area { x: 0, y: 0, width: 4, height: 2 };
    // Not flat: the scaled height (at least one eighth) counts, and the
    // reference line is drawn on the row given.
    let pic = bars_picture(&s, area, &[0, 0], 0);
    assert_eq!(pic[0][1], cell(Some('\u{2581}'), true, false, false, false));
    assert!(pic[0][0].reference);
}
