//! Flattening, diffing and property checks on reports built by hand.

use strategy_ci_core::json::{flatten_report, Json};
use strategy_ci_core::keymap::KeyMap;
use strategy_ci_core::model::{Comparison, DiffKind, Property, PropertyResult, Tolerance};
use strategy_ci_core::property::{check, check_all, is_finite, is_nan, resolve_metric};
use strategy_ci_core::tolerance::{diff_reports, resolve};

fn num(x: f64) -> Json {
    Json::Number(x.to_bits())
}

fn obj(members: Vec<(&str, Json)>) -> Json {
    Json::Object(members.into_iter().map(|(k, v)| (k.to_string(), v)).collect())
}

fn arr(items: Vec<f64>) -> Json {
    Json::Array(items.into_iter().map(num).collect())
}

fn round8(x: f64) -> f64 {
    (x * 1e8).round() / 1e8
}

fn round8_bits(b: u64) -> u64 {
    round8(f64::from_bits(b)).to_bits()
}

/// The numeric judgement of the diff: NaN is never within tolerance.
fn within(expected: u64, actual: u64, tol: Tolerance) -> bool {
    let e = f64::from_bits(expected);
    let a = f64::from_bits(actual);
    if e.is_nan() || a.is_nan() {
        return false;
    }
    let d = (a - e).abs();
    match tol {
        Tolerance::Abs { value } => d <= f64::from_bits(value),
        Tolerance::Rel { value } => {
            let scale = e.abs().max(a.abs()).max(1.0);
            d <= f64::from_bits(value) * scale
        }
    }
}

/// The numeric judgement of the property checks.
fn judge(c: Comparison) -> bool {
    match c {
        Comparison::AtLeast { value, bound } => f64::from_bits(value) >= f64::from_bits(bound),
        Comparison::DrawdownWithin { drawdown, bound } => {
            f64::from_bits(drawdown) >= -f64::from_bits(bound).abs()
        }
        Comparison::Between { value, min, max } => {
            let v = f64::from_bits(value);
            v >= f64::from_bits(min) && v <= f64::from_bits(max)
        }
        Comparison::Falls { prev, cur } => f64::from_bits(cur) < f64::from_bits(prev) - 1e-9,
    }
}

fn abs(x: f64) -> Tolerance {
    Tolerance::Abs { value: x.to_bits() }
}

fn tolerances(entries: Vec<(&str, Tolerance)>) -> KeyMap<Tolerance> {
    let mut m = KeyMap::new();
    for (k, t) in entries {
        m.insert(k.to_string(), t);
    }
    m
}

fn field_of(diffs: &[strategy_ci_core::model::FieldDiff], name: &str) -> DiffKind {
    diffs.iter().find(|d| d.field == name).unwrap().kind
}

#[test]
fn flatten_walks_scalars_arrays_and_objects() {
    let report = obj(vec![
        ("pnl", num(12.5)),
        ("equity_curve", arr(vec![1.0, 2.0, 3.0])),
        ("nested", obj(vec![("a", num(4.0))])),
        ("label", Json::Str("ignored".to_string())),
    ]);
    let flat = flatten_report(&report);
    assert_eq!(flat.get("pnl").map(|b| f64::from_bits(*b)), Some(12.5));
    assert_eq!(flat.get("equity_curve[1]").map(|b| f64::from_bits(*b)), Some(2.0));
    assert_eq!(flat.get("nested.a").map(|b| f64::from_bits(*b)), Some(4.0));
    assert!(!flat.contains_key("label"));
}

#[test]
fn flatten_report_produces_dotted_keys() {
    let report = obj(vec![
        ("pnl", num(12.5)),
        ("metrics", obj(vec![("max_drawdown", num(-0.2)), ("num_trades", num(8.0))])),
        ("equity_curve", arr(vec![10.0, 11.0, 10.5])),
        ("note", Json::Str("ignored".to_string())),
        ("ok", Json::Bool(true)),
    ]);
    let flat = flatten_report(&report);
    assert_eq!(flat.get("pnl").map(|b| f64::from_bits(*b)), Some(12.5));
    assert_eq!(flat.get("metrics.max_drawdown").map(|b| f64::from_bits(*b)), Some(-0.2));
    assert_eq!(flat.get("metrics.num_trades").map(|b| f64::from_bits(*b)), Some(8.0));
    assert_eq!(flat.get("equity_curve[0]").map(|b| f64::from_bits(*b)), Some(10.0));
    assert_eq!(flat.get("equity_curve[2]").map(|b| f64::from_bits(*b)), Some(10.5));
    assert!(!flat.contains_key("note"));
    assert!(!flat.contains_key("ok"));
}

#[test]
fn flatten_orders_keys_and_numbers_indices_in_decimal() {
    let report = obj(vec![
        ("b", num(1.0)),
        ("a", arr((0..12).map(|i| i as f64).collect())),
    ]);
    let flat = flatten_report(&report);
    assert_eq!(flat.len(), 13);
    let keys: Vec<String> = (0..flat.len()).map(|i| flat.entry(i).0.clone()).collect();
    assert_eq!(keys[0], "a[0]");
    assert_eq!(keys[1], "a[10]");
    assert_eq!(keys[2], "a[11]");
    assert_eq!(keys[3], "a[1]");
    assert_eq!(keys[12], "b");
    assert_eq!(flat.get("a[11]").map(|b| f64::from_bits(*b)), Some(11.0));
}

#[test]
fn flatten_later_leaf_replaces_earlier_with_same_key() {
    let report = obj(vec![("x", num(1.0)), ("x", num(2.0))]);
    let flat = flatten_report(&report);
    assert_eq!(flat.len(), 1);
    assert_eq!(flat.get("x").map(|b| f64::from_bits(*b)), Some(2.0));
}

#[test]
fn flatten_of_a_scalar_report_uses_the_empty_key() {
    let flat = flatten_report(&num(3.0));
    assert_eq!(flat.len(), 1);
    assert_eq!(flat.get("").map(|b| f64::from_bits(*b)), Some(3.0));
    assert_eq!(flatten_report(&Json::Null).len(), 0);
}

#[test]
fn diff_reports_respects_tolerances_and_kinds() {
    let expected = obj(vec![("pnl", num(100.0)), ("sharpe", num(1.0)), ("only_expected", num(5.0))]);
    let actual = obj(vec![("pnl", num(100.05)), ("sharpe", num(2.0)), ("only_actual", num(7.0))]);
    let tols = tolerances(vec![("pnl", abs(0.1)), ("sharpe", abs(0.0))]);
    let diffs = diff_reports(&expected, &actual, &tols, &round8_bits, within);
    let fields: Vec<&str> = diffs.iter().map(|d| d.field.as_str()).collect();
    assert_eq!(fields, ["only_actual", "only_expected", "sharpe"]);
    assert_eq!(field_of(&diffs, "sharpe"), DiffKind::Mismatch);
    assert_eq!(field_of(&diffs, "only_expected"), DiffKind::Missing);
    assert_eq!(field_of(&diffs, "only_actual"), DiffKind::Extra);
}

#[test]
fn diff_entries_carry_the_values_of_each_side() {
    let expected = obj(vec![("sharpe", num(1.0)), ("only_expected", num(5.0))]);
    let actual = obj(vec![("sharpe", num(2.0)), ("only_actual", num(7.0))]);
    let diffs = diff_reports(&expected, &actual, &KeyMap::new(), &round8_bits, within);
    assert_eq!(diffs.len(), 3);
    assert_eq!(diffs[0].field, "only_actual");
    assert_eq!(diffs[0].expected, None);
    assert_eq!(diffs[0].actual, Some(7.0f64.to_bits()));
    assert_eq!(diffs[1].field, "only_expected");
    assert_eq!(diffs[1].expected, Some(5.0f64.to_bits()));
    assert_eq!(diffs[1].actual, None);
    assert_eq!(diffs[2].expected, Some(1.0f64.to_bits()));
    assert_eq!(diffs[2].actual, Some(2.0f64.to_bits()));
    assert!(diffs.iter().all(|d| !d.within_tolerance));
}

#[test]
fn self_diff_of_overflowing_field_is_empty() {
    assert!(round8(1e308).is_infinite());
    let report = obj(vec![("huge", num(1e308)), ("neg", num(-1e308)), ("ok", num(1.5))]);
    assert!(diff_reports(&report, &report, &KeyMap::new(), &round8_bits, within).is_empty());
}

#[test]
fn equal_values_under_a_negative_tolerance_are_listed() {
    let report = obj(vec![("pnl", num(1.0)), ("sharpe", num(2.0))]);
    let tols = tolerances(vec![("pnl", abs(-1.0))]);
    let diffs = diff_reports(&report, &report, &tols, &round8_bits, within);
    assert_eq!(diffs.len(), 1);
    assert_eq!(diffs[0].field, "pnl");
    assert_eq!(diffs[0].kind, DiffKind::Mismatch);
}

#[test]
fn self_diff_of_nan_field_is_empty() {
    let report = obj(vec![("bad", num(f64::NAN)), ("curve", arr(vec![1.0, f64::NAN]))]);
    assert!(diff_reports(&report, &report, &KeyMap::new(), &round8_bits, within).is_empty());
}

#[test]
fn nan_against_a_number_is_a_mismatch() {
    let expected = obj(vec![("x", num(f64::NAN))]);
    let actual = obj(vec![("x", num(1.0))]);
    let tols = tolerances(vec![("*", abs(1e9))]);
    let diffs = diff_reports(&expected, &actual, &tols, &round8_bits, within);
    assert_eq!(diffs.len(), 1);
    assert_eq!(diffs[0].kind, DiffKind::Mismatch);
}

#[test]
fn diff_star_prefix_tolerance_matches_indexed_keys() {
    let expected = obj(vec![("equity_curve", arr(vec![1.0, 2.0, 3.0]))]);
    let actual = obj(vec![("equity_curve", arr(vec![1.0001, 2.0001, 3.0001]))]);
    let tols = tolerances(vec![("equity_curve[*]", abs(1e-3))]);
    assert!(diff_reports(&expected, &actual, &tols, &round8_bits, within).is_empty());
}

#[test]
fn diff_without_tolerance_requires_an_exact_match() {
    let expected = obj(vec![("pnl", num(1.0))]);
    let actual = obj(vec![("pnl", num(1.000001))]);
    let diffs = diff_reports(&expected, &actual, &KeyMap::new(), &round8_bits, within);
    assert_eq!(diffs.len(), 1);
    assert_eq!(diffs[0].kind, DiffKind::Mismatch);
    // Below the eighth decimal the two sides agree.
    let close = obj(vec![("pnl", num(1.000000001))]);
    assert!(diff_reports(&expected, &close, &KeyMap::new(), &round8_bits, within).is_empty());
}

#[test]
fn relative_tolerance_scales_with_the_larger_value() {
    let expected = obj(vec![("pnl", num(1000.0))]);
    let actual = obj(vec![("pnl", num(1009.0))]);
    let loose = tolerances(vec![("pnl", Tolerance::Rel { value: 0.01f64.to_bits() })]);
    assert!(diff_reports(&expected, &actual, &loose, &round8_bits, within).is_empty());
    let tight = tolerances(vec![("pnl", Tolerance::Rel { value: 0.001f64.to_bits() })]);
    assert_eq!(diff_reports(&expected, &actual, &tight, &round8_bits, within).len(), 1);
}

#[test]
fn resolve_prefers_exact_then_longest_pattern_then_default() {
    let tols = tolerances(vec![
        ("*", abs(9.0)),
        ("a[*]", abs(1.0)),
        ("a.b[*]", abs(2.0)),
        ("a.b[3]", abs(3.0)),
    ]);
    assert_eq!(resolve("a.b[3]", &tols), abs(3.0));
    assert_eq!(resolve("a.b[4]", &tols), abs(2.0));
    assert_eq!(resolve("a.b", &tols), abs(2.0));
    assert_eq!(resolve("a[0]", &tols), abs(1.0));
    assert_eq!(resolve("a", &tols), abs(1.0));
    assert_eq!(resolve("ab", &tols), abs(9.0));
    assert_eq!(resolve("zzz", &tols), abs(9.0));
    assert_eq!(resolve("zzz", &KeyMap::new()), Tolerance::Abs { value: 0 });
}

#[test]
fn resolve_prefers_the_first_pattern_of_equal_length() {
    let tols = tolerances(vec![("x[*]", abs(1.0)), ("x[*]y", abs(2.0))]);
    assert_eq!(resolve("x[0]", &tols), abs(1.0));
}

fn sample_report() -> Json {
    obj(vec![
        ("pnl", num(50.0)),
        ("sharpe", num(1.5)),
        ("max_drawdown", num(-0.2)),
        ("num_trades", num(8.0)),
        ("win_rate", num(0.6)),
        ("equity_curve", arr(vec![100.0, 101.0, 101.0, 102.0])),
    ])
}

#[test]
fn properties_evaluate_against_flat_report() {
    let report = sample_report();
    let props = vec![
        Property::NoNaN,
        Property::MonotoneEquity,
        Property::MaxDrawdownLe { value: 0.5f64.to_bits() },
        Property::MinTradesGe { value: 5.0f64.to_bits() },
        Property::SharpeGe { value: 1.0f64.to_bits() },
        Property::PnlGe { value: 0.0f64.to_bits() },
        Property::FieldInRange {
            field: "win_rate".to_string(),
            min: 0.0f64.to_bits(),
            max: 1.0f64.to_bits(),
        },
    ];
    let results = check_all(&props, &report, &judge);
    assert!(results.iter().all(|r| r.passed), "{results:?}");

    let bad = obj(vec![("equity_curve", arr(vec![100.0, 90.0]))]);
    let r = check_all(&vec![Property::MonotoneEquity], &bad, &judge);
    assert!(!r[0].passed);
    let missing = check_all(&vec![Property::SharpeGe { value: 1.0f64.to_bits() }], &obj(vec![]), &judge);
    assert!(!missing[0].passed);
}

#[test]
fn check_all_gives_one_result_per_property_in_order() {
    let report = sample_report();
    let props = vec![
        Property::PnlGe { value: 100.0f64.to_bits() },
        Property::NoNaN,
        Property::SharpeGe { value: 2.0f64.to_bits() },
    ];
    let results = check_all(&props, &report, &judge);
    assert_eq!(results.len(), 3);
    assert!(matches!(results[0].property, Property::PnlGe { .. }));
    assert!(!results[0].passed);
    assert_eq!(results[0].detail.as_deref(), Some("out of bound: pnl"));
    assert_eq!(results[1].detail, None);
    assert!(results[1].passed);
    assert!(!results[2].passed);
}

#[test]
fn a_missing_metric_fails_with_its_name() {
    let r = check_all(&vec![Property::SharpeGe { value: 1.0f64.to_bits() }], &obj(vec![]), &judge);
    assert_eq!(r[0].detail.as_deref(), Some("missing: sharpe"));
    let ranged = Property::FieldInRange { field: "beta".to_string(), min: 0, max: 0 };
    let r = check_all(&vec![ranged], &obj(vec![]), &judge);
    assert!(!r[0].passed);
    assert_eq!(r[0].detail.as_deref(), Some("missing: beta"));
    let dd = check_all(&vec![Property::MaxDrawdownLe { value: 1.0f64.to_bits() }], &obj(vec![]), &judge);
    assert_eq!(dd[0].detail.as_deref(), Some("missing: max_drawdown"));
}

#[test]
fn a_nan_metric_reads_as_missing() {
    let report = obj(vec![("pnl", num(f64::NAN))]);
    let r = check_all(&vec![Property::PnlGe { value: 0 }], &report, &judge);
    assert!(!r[0].passed);
    assert_eq!(r[0].detail.as_deref(), Some("missing: pnl"));
}

#[test]
fn metrics_resolve_under_the_metrics_object() {
    let report = obj(vec![("metrics", obj(vec![("sharpe", num(2.5)), ("num_trades", num(3.0))]))]);
    let flat = flatten_report(&report);
    assert_eq!(resolve_metric(&flat, "sharpe"), Some(2.5f64.to_bits()));
    assert_eq!(resolve_metric(&flat, "pnl"), None);
    let r = check_all(
        &vec![
            Property::SharpeGe { value: 2.0f64.to_bits() },
            Property::MinTradesGe { value: 5.0f64.to_bits() },
        ],
        &report,
        &judge,
    );
    assert!(r[0].passed);
    assert!(!r[1].passed);
    assert_eq!(r[1].detail.as_deref(), Some("out of bound: num_trades"));
    assert_eq!(r[0].detail, None);
}

#[test]
fn a_bare_metric_wins_over_the_nested_one() {
    let report = obj(vec![
        ("pnl", num(-1.0)),
        ("metrics", obj(vec![("pnl", num(10.0))])),
    ]);
    let r = check_all(&vec![Property::PnlGe { value: 0 }], &report, &judge);
    assert!(!r[0].passed);
}

#[test]
fn drawdown_is_judged_against_the_magnitude_of_the_bound() {
    let report = obj(vec![("max_drawdown", num(-0.3))]);
    let within_bound = check_all(&vec![Property::MaxDrawdownLe { value: (-0.5f64).to_bits() }], &report, &judge);
    assert!(within_bound[0].passed);
    let beyond = check_all(&vec![Property::MaxDrawdownLe { value: 0.2f64.to_bits() }], &report, &judge);
    assert!(!beyond[0].passed);
}

#[test]
fn monotone_equity_sorts_points_by_index_and_names_the_fall() {
    // Twelve points: a lexical order would put [10] before [2].
    let mut curve: Vec<f64> = (0..12).map(|i| 100.0 + i as f64).collect();
    curve[10] = 50.0;
    let report = obj(vec![("equity_curve", arr(curve))]);
    let r = check_all(&vec![Property::MonotoneEquity], &report, &judge);
    assert!(!r[0].passed);
    assert_eq!(r[0].detail.as_deref(), Some("equity_curve[10] < [9]"));

    let flat_noise = obj(vec![("equity_curve", arr(vec![1.0, 1.0 - 1e-12, 1.0]))]);
    let r = check_all(&vec![Property::MonotoneEquity], &flat_noise, &judge);
    assert!(r[0].passed);
}

#[test]
fn monotone_equity_without_a_curve_fails() {
    let r = check_all(&vec![Property::MonotoneEquity], &obj(vec![("pnl", num(1.0))]), &judge);
    assert!(!r[0].passed);
    assert_eq!(r[0].detail.as_deref(), Some("no equity_curve"));
}

#[test]
fn no_nan_names_the_first_bad_field() {
    let report = obj(vec![
        ("z", num(f64::INFINITY)),
        ("a", num(1.0)),
        ("m", num(f64::NAN)),
    ]);
    let r = check_all(&vec![Property::NoNaN], &report, &judge);
    assert!(!r[0].passed);
    assert_eq!(r[0].detail.as_deref(), Some("m"));
}

#[test]
fn check_on_a_flat_map_reports_the_property() {
    let flat = flatten_report(&sample_report());
    let r: PropertyResult = check(&Property::PnlGe { value: 10.0f64.to_bits() }, &flat, &judge);
    assert!(r.passed);
    assert!(matches!(r.property, Property::PnlGe { value } if value == 10.0f64.to_bits()));
}

#[test]
fn nan_and_finite_read_from_the_bits() {
    assert!(is_nan(f64::NAN.to_bits()));
    assert!(is_nan((-f64::NAN).to_bits()));
    assert!(!is_nan(f64::INFINITY.to_bits()));
    assert!(!is_nan(1.0f64.to_bits()));
    assert!(is_finite(1.0f64.to_bits()));
    assert!(is_finite((-0.0f64).to_bits()));
    assert!(!is_finite(f64::NEG_INFINITY.to_bits()));
    assert!(!is_finite(f64::NAN.to_bits()));
}

#[test]
fn a_failing_check_carries_a_detail() {
    let report = obj(vec![("sharpe", num(0.5)), ("win_rate", num(2.0))]);
    let r = check_all(
        &vec![
            Property::SharpeGe { value: 1.0f64.to_bits() },
            Property::FieldInRange { field: "win_rate".to_string(), min: 0, max: 1.0f64.to_bits() },
        ],
        &report,
        &judge,
    );
    assert!(!r[0].passed);
    assert_eq!(r[0].detail.as_deref(), Some("out of bound: sharpe"));
    assert_eq!(r[1].detail.as_deref(), Some("out of bound: win_rate"));
    assert!(r.iter().all(|x| x.passed == x.detail.is_none()));
}

#[test]
fn swapping_the_reports_mirrors_the_diff() {
    let expected = obj(vec![("pnl", num(100.0)), ("sharpe", num(1.0)), ("only_expected", num(5.0))]);
    let actual = obj(vec![("pnl", num(100.05)), ("sharpe", num(2.0)), ("only_actual", num(7.0))]);
    let tols = tolerances(vec![("pnl", abs(0.1)), ("sharpe", abs(0.5))]);
    let forward = diff_reports(&expected, &actual, &tols, &round8_bits, within);
    let backward = diff_reports(&actual, &expected, &tols, &round8_bits, within);
    assert_eq!(forward.len(), backward.len());
    for (f, b) in forward.iter().zip(backward.iter()) {
        assert_eq!(f.field, b.field);
        assert_eq!(f.expected, b.actual);
        assert_eq!(f.actual, b.expected);
        let mirrored = match f.kind {
            DiffKind::Missing => DiffKind::Extra,
            DiffKind::Extra => DiffKind::Missing,
            DiffKind::Mismatch => DiffKind::Mismatch,
        };
        assert_eq!(b.kind, mirrored);
    }
}

#[test]
fn diff_entries_carry_the_rounded_values() {
    let expected = obj(vec![("pnl", num(1.123456789))]);
    let actual = obj(vec![("pnl", num(2.0)), ("extra", num(0.000000004))]);
    let diffs = diff_reports(&expected, &actual, &KeyMap::new(), &round8_bits, within);
    assert_eq!(diffs.len(), 2);
    assert_eq!(diffs[0].field, "extra");
    assert_eq!(diffs[0].actual, Some(0.0f64.to_bits()));
    assert_eq!(diffs[1].expected, Some(round8(1.123456789).to_bits()));
    assert_eq!(diffs[1].expected, Some(1.12345679f64.to_bits()));
}
