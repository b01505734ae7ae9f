# sparkline

Sparklines (small inline charts) as text, terminal cells and pixel paths.

- `src/` is the verified library. A sparkline holds `i64` samples that stand
  for values by their order (`sample_of_bits` gives the sample of an IEEE-754
  double, `bits_of_sample` the way back), gaps, a style, markers and an
  optional reference line. Samples beyond the infinities' are NaNs: they
  compare with nothing, the data range passes over them, and no function
  that looks up the minimum or maximum may compare one.
  - `model`: the sparkline, its builders and accessors, the first minimum,
    last maximum, last present sample, data range and win/loss outcomes.
  - `text`: the one-line block-character rendering.
  - `tui`: the cell-by-cell picture a terminal widget paints.
  - `pixel`: the polyline, area fill and marker points of the pixel renderer,
    and how its range makes room for the reference line.
- `app/` holds the floating-point front end: the `f64` sparkline built on the
  library, its `Display`, the `ratatui` widget and the `tiny-skia` renderer.
  It scales values into levels, eighths and coordinates and draws what the
  library lays out.
- `tests/` runs the library on concrete data.
