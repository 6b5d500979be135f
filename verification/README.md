# strategy-ci-core

Golden, property and fuzz testing for trading strategies run through the
`wickra-backtest` engine, with the test logic verified in Verus. The engine
gives the same report for the same request on one machine; across platforms a
report can differ in its last digits where a strategy's indicators call the
platform's math library, which is why goldens are compared after rounding and
under tolerances.

A strategy test pins the engine's report for a strategy over a candle series,
diffs later reports against it under per-field tolerances, checks invariant
properties of every report, and re-checks those properties on perturbed data.

## Layout

- `src/` — the verified library.
  - `json.rs`: the JSON model and the flattening of a report into its numeric
    leaves (`a.b`, `curve[3]`).
  - `keymap.rs`: a string-keyed map iterated in key order.
  - `tolerance.rs`: tolerance resolution and the golden diff.
  - `property.rs`: the property checks.
  - `runner.rs`: engine requests, running a test (its report, its fuzz runs
    and its verdict), blessing goldens, dropout, and suites.
  - `session.rs`: the command boundary's commands and JSON responses.
  - `csv.rs`: lines, cells and timestamps of a candle CSV.
  - `render.rs`: the text report.
  - `cli.rs`, `model.rs`, `text.rs`: the command line, the data model, and
    string helpers.
- `tests/` — tests of the library, including runs through the real engine.
- `app/` — the `wickra-strategy-ci` command line: file I/O, JSON reading and
  writing, the fuzz draws and the `f64` arithmetic, around the library.

Numbers are carried in the library as the bit patterns of their `f64` values;
the comparisons on them (tolerances, property bounds, rounding) are supplied by
the caller as closures, so every decision around them is verified while the
floating-point arithmetic stays in ordinary Rust.
