//! What a terminal widget paints, cell by cell, for a sparkline.
//!
//! A picture is a list of columns, left to right, one per drawn sample; each
//! column lists its cells from the top row of the area down. A [`Paint`] says
//! what happens to one cell; a widget applies each one to the cell at
//! `(area.x + column, area.y + row)`.
use vstd::prelude::*;
use crate::model::{
    comparable, has_present, is_first_min, is_flat, is_last_max, lemma_flat_iff_flat_range,
    lemma_first_min_unique, lemma_last_max_unique, outcome_of, sample_gt, sample_lt, threshold_of,
    Marker, Outcome,
    SparkStyle, Sparkline, SparklineView, INFINITY_SAMPLE,
};
use crate::text::{block_at, block_glyph};

verus! {

/// Full block: a filled cell.
pub const FULL_BLOCK: char = '\u{2588}';

/// Horizontal line: the reference line.
pub const HLINE: char = '\u{2500}';

/// A rectangle of terminal cells. Its right and bottom edges are clamped to
/// the largest coordinate, as a terminal layout clamps them.
#[derive(Debug, Clone, Copy, PartialEq, Eq, Structural)]
pub struct Area {
    pub x: u16,
    pub y: u16,
    pub width: u16,
    pub height: u16,
}

pub open spec fn saturating_end(start: u16, len: u16) -> int {
    if start + len > 65535 {
        65535
    } else {
        start + len
    }
}

impl Area {
    /// The first column right of the area.
    pub open spec fn right_edge(self) -> int {
        saturating_end(self.x, self.width)
    }

    /// The first row below the area.
    pub open spec fn bottom_edge(self) -> int {
        saturating_end(self.y, self.height)
    }

    /// How many columns of the area there are.
    pub open spec fn columns(self) -> int {
        self.right_edge() - self.x
    }

    /// How many rows of the area there are.
    pub open spec fn rows(self) -> int {
        self.bottom_edge() - self.y
    }

    pub fn right(&self) -> (r: u16)
        ensures
            r == self.right_edge(),
    {
        self.x.saturating_add(self.width)
    }

    pub fn bottom(&self) -> (b: u16)
        ensures
            b == self.bottom_edge(),
    {
        self.y.saturating_add(self.height)
    }

    pub fn is_empty(&self) -> (e: bool)
        ensures
            e == (self.width == 0 || self.height == 0),
    {
        self.width == 0 || self.height == 0
    }
}

/// What is done to one cell: its symbol is set if there is one, then its
/// style is patched with the data, marker, absent-value and reference-line
/// styles that are flagged, in that order.
#[derive(Debug, Clone, Copy, PartialEq, Eq, Structural)]
pub struct Paint {
    pub symbol: Option<char>,
    pub data: bool,
    pub marker: bool,
    pub absent: bool,
    pub reference: bool,
}

/// A cell that is left as it is.
pub open spec fn untouched() -> Paint {
    Paint { symbol: None, data: false, marker: false, absent: false, reference: false }
}

/// A cell of a column whose sample is a gap.
pub open spec fn absent_cell() -> Paint {
    Paint { symbol: None, data: false, marker: false, absent: true, reference: false }
}

/// A cell filled with the full block in the data style.
pub open spec fn filled_cell() -> Paint {
    Paint { symbol: Some(FULL_BLOCK), data: true, marker: false, absent: false, reference: false }
}

/// How many columns a picture of `n` samples has in `area`.
pub open spec fn picture_columns(area: Area, n: int) -> int {
    if n < area.columns() {
        n
    } else {
        area.columns()
    }
}

// ---------------------------------------------------------------------------
// Bars (Line and Bar styles)
// ---------------------------------------------------------------------------

/// The height of a bar, in eighths of a cell. Flat data (present numbers
/// all one finite value) draws half the area's height; otherwise the scaled
/// height counts, and at least one eighth.
pub open spec fn bar_eighths(flat: bool, height: u16, scaled: u16) -> int {
    if flat {
        if 4 * height > 65535 {
            65535
        } else {
            4 * height
        }
    } else if scaled < 1 {
        1
    } else {
        scaled as int
    }
}

/// The symbol of the cell `depth` rows above the bottom row, in a bar of
/// `eighths` eighths: full blocks, then one partial block on top.
pub open spec fn bar_symbol(eighths: int, depth: int) -> Option<char> {
    if depth < eighths / 8 {
        Some(FULL_BLOCK)
    } else if depth == eighths / 8 && eighths % 8 > 0 {
        Some(block_at(eighths % 8 - 1))
    } else {
        None
    }
}

/// Column `c` is highlighted: it holds the first minimum and the sparkline
/// has a Min marker, or the last maximum and it has a Max marker.
pub open spec fn is_marked(s: SparklineView, c: int) -> bool {
    ||| s.markers.contains(Marker::Min) && is_first_min(s.data, c)
    ||| s.markers.contains(Marker::Max) && is_last_max(s.data, c)
}

/// The reference line is drawn on row `ref_row`: there is a reference value,
/// the data is not flat, and the row lies inside the area.
pub open spec fn draws_reference(s: SparklineView, area: Area, ref_row: u16) -> bool {
    &&& s.reference is Some
    &&& !is_flat(s.data)
    &&& ref_row < area.rows()
}

/// How many columns, from the left, the reference line spans: one per sample
/// (the count taken modulo 2^16), within the area.
pub open spec fn reference_columns(area: Area, n: int) -> int {
    let m = n % 65536;
    if area.x + m < area.right_edge() {
        m
    } else {
        area.columns()
    }
}

/// The cell at column `c`, row `r` of the bar picture. `scaled[c]` is the
/// height of sample `c` in eighths of a cell (scaled from the least to the
/// greatest present sample over the area's height), `ref_row` the row of the
/// reference line.
pub open spec fn bar_paint(
    s: SparklineView,
    area: Area,
    scaled: Seq<u16>,
    ref_row: u16,
    c: int,
    r: int,
) -> Paint {
    let base = match s.data[c] {
        None => absent_cell(),
        Some(_) => {
            let sym = bar_symbol(
                bar_eighths(is_flat(s.data), area.height, scaled[c]),
                area.rows() - 1 - r,
            );
            Paint {
                symbol: sym,
                data: sym is Some,
                marker: is_marked(s, c),
                absent: false,
                reference: false,
            }
        },
    };
    if draws_reference(s, area, ref_row) && r == ref_row && c < reference_columns(
        area,
        s.data.len() as int,
    ) {
        Paint { symbol: Some(HLINE), reference: true, ..base }
    } else {
        base
    }
}

fn lists_marker(markers: &[Marker], m: Marker) -> (b: bool)
    ensures
        b == markers@.contains(m),
{
    let mut i: usize = 0;
    while i < markers.len()
        invariant
            i <= markers@.len(),
            forall|j: int| 0 <= j < i ==> markers@[j] != m,
        decreases markers@.len() - i,
    {
        if markers[i] == m {
            return true;
        }
        i += 1;
    }
    false
}

/// One cell of a bar column.
fn bar_cell(
    present: bool,
    eighths: u16,
    depth: u16,
    marked: bool,
    reference: bool,
) -> (p: Paint)
    ensures
        p == ({
            let base = if !present {
                absent_cell()
            } else {
                let sym = bar_symbol(eighths as int, depth as int);
                Paint { symbol: sym, data: sym is Some, marker: marked, absent: false, reference: false }
            };
            if reference {
                Paint { symbol: Some(HLINE), reference: true, ..base }
            } else {
                base
            }
        }),
{
    let base = if !present {
        Paint { symbol: None, data: false, marker: false, absent: true, reference: false }
    } else {
        let full = eighths / 8;
        let rem = eighths % 8;
        let sym = if depth < full {
            Some(FULL_BLOCK)
        } else if depth == full && rem > 0 {
            Some(block_glyph((rem - 1) as usize))
        } else {
            None
        };
        Paint { symbol: sym, data: sym.is_some(), marker: marked, absent: false, reference: false }
    };
    if reference {
        Paint { symbol: Some(HLINE), reference: true, ..base }
    } else {
        base
    }
}

/// The picture of the Line and Bar styles: a bar per sample, rising from the
/// bottom row, with highlighted marker columns, shaded gaps and the reference
/// line. Nothing is painted when no sample is present.
pub fn bars_picture(s: &Sparkline, area: Area, scaled: &[u16], ref_row: u16) -> (pic: Vec<
    Vec<Paint>,
>)
    requires
        scaled@.len() == s@.data.len(),
        comparable(s@.data),
    ensures
        !has_present(s@.data) ==> pic@.len() == 0,
        has_present(s@.data) ==> pic@.len() == picture_columns(area, s@.data.len() as int),
        forall|c: int|
            0 <= c < pic@.len() ==> #[trigger] pic@[c]@ == Seq::new(
                area.rows() as nat,
                |r: int| bar_paint(s@, area, scaled@, ref_row, c, r),
            ),
{
    let mut pic: Vec<Vec<Paint>> = Vec::new();
    let d = s.data();
    let range = s.data_range();
    let (lo, hi) = match range {
        None => {
            return pic;
        },
        Some(p) => p,
    };
    proof {
        lemma_flat_iff_flat_range(d@, lo, hi);
    }
    let flat = lo == hi && -INFINITY_SAMPLE < lo && lo < INFINITY_SAMPLE;
    let min_idx = s.min_index();
    let max_idx = s.max_index();
    let has_min = lists_marker(s.markers(), Marker::Min);
    let has_max = lists_marker(s.markers(), Marker::Max);
    let right = area.right();
    let bottom = area.bottom();
    let avail = right - area.x;
    let rows = bottom - area.y;
    let n = d.len();
    let ncols: usize = if n < avail as usize {
        n
    } else {
        avail as usize
    };
    let m = n % 65536;
    let ref_cols: usize = if (area.x as usize) + m < right as usize {
        m
    } else {
        avail as usize
    };
    let show_ref = s.reference_value().is_some() && !flat && ref_row < rows;
    let flat_eighths: u16 = if area.height > 16383 {
        65535
    } else {
        4 * area.height
    };
    let mut c: usize = 0;
    while c < ncols
        invariant
            c <= ncols,
            ncols == picture_columns(area, s@.data.len() as int),
            d@ == s@.data,
            scaled@.len() == d@.len(),
            rows == area.rows(),
            flat == is_flat(d@),
            show_ref == draws_reference(s@, area, ref_row),
            ref_cols == reference_columns(area, d@.len() as int),
            flat_eighths == bar_eighths(true, area.height, 0),
            has_min == s@.markers.contains(Marker::Min),
            has_max == s@.markers.contains(Marker::Max),
            min_idx matches Some(i) && is_first_min(d@, i as int),
            max_idx matches Some(i) && is_last_max(d@, i as int),
            pic@.len() == c,
            forall|k: int|
                0 <= k < c ==> #[trigger] pic@[k]@ == Seq::new(
                    area.rows() as nat,
                    |r: int| bar_paint(s@, area, scaled@, ref_row, k, r),
                ),
        decreases ncols - c,
    {
        let present = d[c].is_some();
        let eighths: u16 = if flat {
            flat_eighths
        } else if scaled[c] < 1 {
            1
        } else {
            scaled[c]
        };
        let marked = (has_min && min_idx == Some(c)) || (has_max && max_idx == Some(c));
        proof {
            let i = min_idx->0;
            if is_first_min(d@, c as int) {
                lemma_first_min_unique(d@, i as int, c as int);
            }
            let j = max_idx->0;
            if is_last_max(d@, c as int) {
                lemma_last_max_unique(d@, j as int, c as int);
            }
            assert(marked == is_marked(s@, c as int));
            assert(eighths == bar_eighths(flat, area.height, scaled@[c as int]));
        }
        let mut col: Vec<Paint> = Vec::new();
        let mut r: u16 = 0;
        while r < rows
            invariant
                r <= rows,
                c < ncols,
                ncols == picture_columns(area, s@.data.len() as int),
                d@ == s@.data,
                scaled@.len() == d@.len(),
                rows == area.rows(),
                flat == is_flat(d@),
                show_ref == draws_reference(s@, area, ref_row),
                ref_cols == reference_columns(area, d@.len() as int),
                present == d@[c as int] is Some,
                eighths == bar_eighths(flat, area.height, scaled@[c as int]),
                marked == is_marked(s@, c as int),
                col@ == Seq::new(r as nat, |k: int| bar_paint(s@, area, scaled@, ref_row, c as int, k)),
            decreases rows - r,
        {
            let depth = rows - 1 - r;
            let on_ref = show_ref && r == ref_row && c < ref_cols;
            let p = bar_cell(present, eighths, depth, marked, on_ref);
            col.push(p);
            proof {
                assert(col@ =~= Seq::new(
                    (r + 1) as nat,
                    |k: int| bar_paint(s@, area, scaled@, ref_row, c as int, k),
                ));
            }
            r += 1;
        }
        let ghost prev = pic@;
        pic.push(col);
        proof {
            assert forall|k: int| 0 <= k < c + 1 implies #[trigger] pic@[k]@ == Seq::new(
                area.rows() as nat,
                |r: int| bar_paint(s@, area, scaled@, ref_row, k, r),
            ) by {
                if k < c {
                    assert(pic@[k] == prev[k]);
                }
            }
        }
        c += 1;
    }
    pic
}

// ---------------------------------------------------------------------------
// Win/loss
// ---------------------------------------------------------------------------

/// The cell at column `c`, row `r` of the win/loss picture: a win fills the
/// upper half of the area (`height / 2` rows from the top), a loss the
/// `height / 2` rows below it, and a sample at the threshold or a gap shades
/// the whole column.
pub open spec fn winloss_paint(s: SparklineView, area: Area, c: int, r: int) -> Paint {
    let half = area.height / 2;
    match outcome_of(s.data[c], threshold_of(s.reference)) {
        Outcome::Above => if r < half {
            filled_cell()
        } else {
            untouched()
        },
        Outcome::Below => if half <= r < 2 * half {
            filled_cell()
        } else {
            untouched()
        },
        _ => absent_cell(),
    }
}

/// The picture of the WinLoss style.
pub fn winloss_picture(s: &Sparkline, area: Area) -> (pic: Vec<Vec<Paint>>)
    ensures
        pic@.len() == picture_columns(area, s@.data.len() as int),
        forall|c: int|
            0 <= c < pic@.len() ==> #[trigger] pic@[c]@ == Seq::new(
                area.rows() as nat,
                |r: int| winloss_paint(s@, area, c, r),
            ),
{
    let mut pic: Vec<Vec<Paint>> = Vec::new();
    let outcomes = s.outcomes();
    let right = area.right();
    let bottom = area.bottom();
    let avail = right - area.x;
    let rows = bottom - area.y;
    let n = outcomes.len();
    let ncols: usize = if n < avail as usize {
        n
    } else {
        avail as usize
    };
    let half = area.height / 2;
    let mut c: usize = 0;
    while c < ncols
        invariant
            c <= ncols,
            ncols == picture_columns(area, s@.data.len() as int),
            outcomes@.len() == s@.data.len(),
            forall|j: int| 0 <= j < outcomes@.len() ==> #[trigger] outcomes@[j]
                == outcome_of(s@.data[j], threshold_of(s@.reference)),
            rows == area.rows(),
            half == area.height / 2,
            pic@.len() == c,
            forall|k: int|
                0 <= k < c ==> #[trigger] pic@[k]@ == Seq::new(
                    area.rows() as nat,
                    |r: int| winloss_paint(s@, area, k, r),
                ),
        decreases ncols - c,
    {
        let o = outcomes[c];
        let mut col: Vec<Paint> = Vec::new();
        let mut r: u16 = 0;
        while r < rows
            invariant
                r <= rows,
                c < ncols,
                ncols == picture_columns(area, s@.data.len() as int),
                outcomes@.len() == s@.data.len(),
                o == outcome_of(s@.data[c as int], threshold_of(s@.reference)),
                rows == area.rows(),
                half == area.height / 2,
                col@ == Seq::new(r as nat, |k: int| winloss_paint(s@, area, c as int, k)),
            decreases rows - r,
        {
            let filled = Paint {
                symbol: Some(FULL_BLOCK),
                data: true,
                marker: false,
                absent: false,
                reference: false,
            };
            let untouched = Paint {
                symbol: None,
                data: false,
                marker: false,
                absent: false,
                reference: false,
            };
            let p = match o {
                Outcome::Above => if r < half {
                    filled
                } else {
                    untouched
                },
                Outcome::Below => if half <= r && (r as u32) < 2 * (half as u32) {
                    filled
                } else {
                    untouched
                },
                _ => Paint { symbol: None, data: false, marker: false, absent: true, reference: false },
            };
            col.push(p);
            proof {
                assert(col@ =~= Seq::new(
                    (r + 1) as nat,
                    |k: int| winloss_paint(s@, area, c as int, k),
                ));
            }
            r += 1;
        }
        let ghost prev = pic@;
        pic.push(col);
        proof {
            assert forall|k: int| 0 <= k < c + 1 implies #[trigger] pic@[k]@ == Seq::new(
                area.rows() as nat,
                |r: int| winloss_paint(s@, area, k, r),
            ) by {
                if k < c {
                    assert(pic@[k] == prev[k]);
                }
            }
        }
        c += 1;
    }
    pic
}

// ---------------------------------------------------------------------------
// The widget
// ---------------------------------------------------------------------------

/// The cell at column `c`, row `r` of what the widget paints for the style.
pub open spec fn widget_paint(
    s: SparklineView,
    area: Area,
    scaled: Seq<u16>,
    ref_row: u16,
    c: int,
    r: int,
) -> Paint {
    match s.style {
        SparkStyle::WinLoss => winloss_paint(s, area, c, r),
        _ => bar_paint(s, area, scaled, ref_row, c, r),
    }
}

/// What the widget paints inside its area: nothing in an empty area, else
/// the bar picture for the Line and Bar styles and the win/loss picture for
/// the WinLoss style. `scaled` and `ref_row` are read as [`bars_picture`]
/// reads them.
pub fn widget_picture(s: &Sparkline, area: Area, scaled: &[u16], ref_row: u16) -> (pic: Vec<
    Vec<Paint>,
>)
    requires
        scaled@.len() == s@.data.len(),
        s@.style != SparkStyle::WinLoss ==> comparable(s@.data),
    ensures
        (area.width == 0 || area.height == 0) ==> pic@.len() == 0,
        !(area.width == 0 || area.height == 0) ==> pic@.len() == if s@.style == SparkStyle::WinLoss
            || has_present(s@.data) {
            picture_columns(area, s@.data.len() as int)
        } else {
            0
        },
        forall|c: int|
            0 <= c < pic@.len() ==> #[trigger] pic@[c]@ == Seq::new(
                area.rows() as nat,
                |r: int| widget_paint(s@, area, scaled@, ref_row, c, r),
            ),
{
    if area.is_empty() {
        return Vec::new();
    }
    match s.spark_style() {
        SparkStyle::WinLoss => winloss_picture(s, area),
        _ => bars_picture(s, area, scaled, ref_row),
    }
}

// ---------------------------------------------------------------------------
// Laws
// ---------------------------------------------------------------------------

/// A bar rises from the bottom: wherever a bar has a symbol, every cell below
/// it holds the full block.
pub proof fn law_bars_rise_from_bottom(eighths: int, depth: int, below: int)
    requires
        0 <= below < depth,
        bar_symbol(eighths, depth) is Some,
    ensures
        bar_symbol(eighths, below) == Some(FULL_BLOCK),
{
}

/// A present sample always shows: the bottom cell of its column holds a
/// symbol (at least one eighth of a cell, or the reference line).
pub proof fn law_present_sample_shows(
    s: SparklineView,
    area: Area,
    scaled: Seq<u16>,
    ref_row: u16,
    c: int,
)
    requires
        0 <= c < s.data.len(),
        s.data[c] is Some,
        area.rows() >= 1,
    ensures
        bar_paint(s, area, scaled, ref_row, c, area.rows() - 1).symbol is Some,
{
    let e = bar_eighths(is_flat(s.data), area.height, scaled[c]);
    assert(area.height >= 1);
    assert(e >= 1);
    if e / 8 == 0 {
        assert(e % 8 == e);
    }
}

/// The column of a gap is shaded with the absent-value style and gets no
/// symbol, but where the reference line crosses it.
pub proof fn law_gap_column_is_shaded(
    s: SparklineView,
    area: Area,
    scaled: Seq<u16>,
    ref_row: u16,
    c: int,
    r: int,
)
    requires
        0 <= c < s.data.len(),
        s.data[c] is None,
    ensures
        bar_paint(s, area, scaled, ref_row, c, r).absent,
        !bar_paint(s, area, scaled, ref_row, c, r).data,
        !bar_paint(s, area, scaled, ref_row, c, r).marker,
        bar_paint(s, area, scaled, ref_row, c, r).symbol is Some ==> bar_paint(
            s,
            area,
            scaled,
            ref_row,
            c,
            r,
        ).reference,
{
}

/// A cell of the bar picture carries the marker style exactly when its
/// column holds the first minimum and a Min marker was added, or holds the
/// last maximum and a Max marker was added.
pub proof fn law_marked_column(
    s: SparklineView,
    area: Area,
    scaled: Seq<u16>,
    ref_row: u16,
    c: int,
    r: int,
)
    requires
        0 <= c < s.data.len(),
    ensures
        bar_paint(s, area, scaled, ref_row, c, r).marker <==> ((s.markers.contains(Marker::Min)
            && is_first_min(s.data, c)) || (s.markers.contains(Marker::Max) && is_last_max(
            s.data,
            c,
        ))),
{
}

/// A win and a loss never fill the same row.
pub proof fn law_wins_and_losses_apart(s: SparklineView, area: Area, c1: int, c2: int, r: int)
    requires
        outcome_of(s.data[c1], threshold_of(s.reference)) == Outcome::Above,
        outcome_of(s.data[c2], threshold_of(s.reference)) == Outcome::Below,
    ensures
        !(winloss_paint(s, area, c1, r).data && winloss_paint(s, area, c2, r).data),
{
}

/// The reference line crosses exactly the cells of row `ref_row` (inside the
/// area) in the first `n mod 2^16` columns that fit, when there is a
/// reference value and the data is not flat; it draws the horizontal line.
pub proof fn law_reference_line_cells(
    s: SparklineView,
    area: Area,
    scaled: Seq<u16>,
    ref_row: u16,
    c: int,
    r: int,
)
    requires
        0 <= c < s.data.len(),
    ensures
        bar_paint(s, area, scaled, ref_row, c, r).reference <==> (s.reference is Some && !is_flat(
            s.data,
        ) && r == ref_row && ref_row < area.rows() && c < s.data.len() % 65536 && area.x + c
            < area.right_edge()),
        bar_paint(s, area, scaled, ref_row, c, r).reference ==> bar_paint(
            s,
            area,
            scaled,
            ref_row,
            c,
            r,
        ).symbol == Some('\u{2500}'),
{
}

/// Off the reference line, the column of a present sample holds a bar of
/// `e` eighths: `e / 8` full blocks from the bottom up, then the partial
/// block of `e mod 8` eighths (if any), then nothing. `e` is half the area's
/// height for flat data, else the scaled height, but at least one eighth.
pub proof fn law_bar_height(
    s: SparklineView,
    area: Area,
    scaled: Seq<u16>,
    ref_row: u16,
    c: int,
    r: int,
)
    requires
        0 <= c < s.data.len(),
        s.data[c] is Some,
        !bar_paint(s, area, scaled, ref_row, c, r).reference,
    ensures
        ({
            let e: int = if is_flat(s.data) {
                if 4 * area.height > 65535 {
                    65535
                } else {
                    4 * area.height
                }
            } else if scaled[c] == 0 {
                1
            } else {
                scaled[c] as int
            };
            let k = area.rows() - 1 - r;
            let p = bar_paint(s, area, scaled, ref_row, c, r);
            &&& p.symbol == Some('\u{2588}') <==> k < e / 8
            &&& (k == e / 8 && e % 8 > 0) ==> p.symbol == Some(block_at(e % 8 - 1))
            &&& (k > e / 8 || (k == e / 8 && e % 8 == 0)) ==> p.symbol is None
            &&& p.data <==> p.symbol is Some
            &&& !p.absent
        }),
{
}

/// In the win/loss picture, a sample above the threshold (the reference
/// value, or zero) fills the top `height / 2` rows of its column with full
/// blocks, one below it the next `height / 2` rows, and anything else (a
/// gap, a sample at the threshold, a NaN) shades the whole column with the
/// absent-value style without a symbol.
pub proof fn law_winloss_columns(s: SparklineView, area: Area, c: int, r: int)
    requires
        0 <= c < s.data.len(),
    ensures
        ({
            let t = threshold_of(s.reference);
            let half = area.height / 2;
            let p = winloss_paint(s, area, c, r);
            &&& (s.data[c] matches Some(v) && sample_gt(v, t)) ==> {
                &&& p.data <==> r < half
                &&& p.symbol == (if r < half {
                    Some('\u{2588}')
                } else {
                    None
                })
                &&& !p.absent && !p.marker && !p.reference
            }
            &&& (s.data[c] matches Some(v) && sample_lt(v, t)) ==> {
                &&& p.data <==> half <= r < 2 * half
                &&& p.symbol == (if half <= r < 2 * half {
                    Some('\u{2588}')
                } else {
                    None
                })
                &&& !p.absent && !p.marker && !p.reference
            }
            &&& !(s.data[c] matches Some(v) && (sample_gt(v, t) || sample_lt(v, t))) ==> {
                &&& p.absent
                &&& !p.data && !p.marker && !p.reference
                &&& p.symbol is None
            }
        }),
{
}

/// The widget paints the win/loss picture in the WinLoss style and the bar
/// picture in the Line and Bar styles.
pub proof fn law_widget_picture_by_style(
    s: SparklineView,
    area: Area,
    scaled: Seq<u16>,
    ref_row: u16,
    c: int,
    r: int,
)
    ensures
        s.style == SparkStyle::WinLoss ==> widget_paint(s, area, scaled, ref_row, c, r)
            == winloss_paint(s, area, c, r),
        s.style == SparkStyle::Line ==> widget_paint(s, area, scaled, ref_row, c, r) == bar_paint(
            s,
            area,
            scaled,
            ref_row,
            c,
            r,
        ),
        s.style == SparkStyle::Bar ==> widget_paint(s, area, scaled, ref_row, c, r) == bar_paint(
            s,
            area,
            scaled,
            ref_row,
            c,
            r,
        ),
{
}

} // verus!
