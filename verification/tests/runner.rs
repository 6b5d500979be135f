//! Engine requests, verdicts, suites, fuzz bookkeeping and blessing.

use strategy_ci_core::json::Json;
use strategy_ci_core::keymap::KeyMap;
use strategy_ci_core::model::{
    Comparison, DiffKind, Error, FieldDiff, FuzzFailure, FuzzSpec, Perturbation, Property,
    PropertyResult, StrategyTest, TestResult, Tolerance,
};
use strategy_ci_core::render::render_text;
use strategy_ci_core::runner::{
    assemble_suite, assess, backtest_request, bless, data, dropout_survivors, find_dataset,
    fuzz_failures, round_report, run_backtest, run_suite, run_test, test_result,
};

fn num(x: f64) -> Json {
    Json::Number(x.to_bits())
}

fn obj(members: Vec<(&str, Json)>) -> Json {
    Json::Object(members.into_iter().map(|(k, v)| (k.to_string(), v)).collect())
}

fn round8_bits(b: u64) -> u64 {
    let x = f64::from_bits(b);
    ((x * 1e8).round() / 1e8).to_bits()
}

fn within(expected: u64, actual: u64, tol: Tolerance) -> bool {
    let e = f64::from_bits(expected);
    let a = f64::from_bits(actual);
    if e.is_nan() || a.is_nan() {
        return false;
    }
    let d = (a - e).abs();
    match tol {
        Tolerance::Abs { value } => d <= f64::from_bits(value),
        Tolerance::Rel { value } => d <= f64::from_bits(value) * e.abs().max(a.abs()).max(1.0),
    }
}

fn judge(c: Comparison) -> bool {
    match c {
        Comparison::AtLeast { value, bound } => f64::from_bits(value) >= f64::from_bits(bound),
        Comparison::DrawdownWithin { drawdown, bound } => {
            f64::from_bits(drawdown) >= -f64::from_bits(bound).abs()
        }
        Comparison::Between { value, min, max } => {
            let v = f64::from_bits(value);
            v >= f64::from_bits(min) && v <= f64::from_bits(max)
        }
        Comparison::Falls { prev, cur } => f64::from_bits(cur) < f64::from_bits(prev) - 1e-9,
    }
}

fn base_test(id: &str) -> StrategyTest {
    StrategyTest {
        id: id.to_string(),
        strategy: r#"{"symbol":"TEST"}"#.to_string(),
        dataset_ref: "sym-01".to_string(),
        expected: None,
        tolerances: KeyMap::new(),
        property_checks: vec![],
        fuzz: None,
    }
}

fn result(id: &str, passed: bool) -> TestResult {
    TestResult {
        id: id.to_string(),
        passed,
        diff: vec![],
        property_results: vec![],
        fuzz_failures: vec![],
        report_hash: None,
        error: None,
    }
}

fn prop_result(property: Property, passed: bool, detail: Option<&str>) -> PropertyResult {
    PropertyResult { property, passed, detail: detail.map(|d| d.to_string()) }
}

const REQUEST_CANDLES: &str = r#"[
    {"time":0,"open":100,"high":101,"low":100,"close":101},
    {"time":1,"open":102,"high":103,"low":102,"close":103},
    {"time":2,"open":104,"high":104,"low":99,"close":99},
    {"time":3,"open":98,"high":98,"low":97,"close":97}
]"#;

const REQUEST_SPEC: &str = r#"{"symbol":"x","timeframe":"1h","indicators":{},
    "entry":{"gt":[{"price":"close"},100]},
    "exit":{"lt":[{"price":"close"},100]},
    "sizing":{"type":"fixed_qty","qty":1}}"#;

#[test]
fn backtest_request_frames_spec_and_candles() {
    assert_eq!(backtest_request("{}", "[]"), r#"{"spec":{},"candles":[]}"#);
}

#[test]
fn run_backtest_returns_the_engine_report() {
    let request = backtest_request(REQUEST_SPEC, REQUEST_CANDLES);
    let report = run_backtest(&request).expect("the engine accepts this request");
    assert!(report.contains("\"num_trades\":1"));
    assert!(report.contains("\"entry_price\":102.0"));
    assert!(report.contains("\"exit_price\":98.0"));
}

#[test]
fn run_backtest_is_deterministic() {
    let request = backtest_request(REQUEST_SPEC, REQUEST_CANDLES);
    assert_eq!(run_backtest(&request).unwrap(), run_backtest(&request).unwrap());
}

#[test]
fn run_backtest_maps_an_engine_rejection_to_a_backtest_error() {
    match run_backtest("not json") {
        Err(Error::Backtest(m)) => assert!(m.starts_with("invalid strategy spec")),
        other => panic!("expected a backtest error, got {other:?}"),
    }
    let no_candles = backtest_request(REQUEST_SPEC, "[]");
    match run_backtest(&no_candles) {
        Err(e @ Error::Backtest(_)) => assert!(e.message().starts_with("backtest error: ")),
        other => panic!("expected a backtest error, got {other:?}"),
    }
}

#[test]
fn find_dataset_names_the_missing_dataset() {
    let d = data(vec![1u8, 2]);
    assert_eq!(find_dataset(&d, "sym-01").unwrap(), &vec![1u8, 2]);
    match find_dataset(&d, "btc") {
        Err(Error::Data(m)) => assert_eq!(m, "missing dataset: btc"),
        other => panic!("expected a data error, got {other:?}"),
    }
    let e = find_dataset(&d, "btc").unwrap_err();
    assert_eq!(e.message(), "data error: missing dataset: btc");
}

#[test]
fn data_holds_one_series_under_sym_01() {
    let d = data(7u32);
    assert_eq!(d.len(), 1);
    assert_eq!(d.get("sym-01"), Some(&7));
    assert!(!d.contains_key("sym-02"));
}

#[test]
fn is_pass_needs_all_three_axes_clean() {
    let ok = prop_result(Property::NoNaN, true, None);
    let bad = prop_result(Property::NoNaN, false, Some("x"));
    let diff = FieldDiff {
        field: "pnl".to_string(),
        expected: Some(1),
        actual: None,
        within_tolerance: false,
        kind: DiffKind::Missing,
    };
    let failure = FuzzFailure { run: 0, property: Property::NoNaN, detail: None };
    assert!(TestResult::is_pass(&[], &[], &[]));
    assert!(TestResult::is_pass(&[], &[ok], &[]));
    assert!(!TestResult::is_pass(&[], &[prop_result(Property::NoNaN, true, None), bad], &[]));
    assert!(!TestResult::is_pass(&[diff], &[], &[]));
    assert!(!TestResult::is_pass(&[], &[], &[failure]));
}

#[test]
fn fuzz_failures_keep_failed_results_in_order() {
    let results = vec![
        prop_result(Property::NoNaN, false, Some("a")),
        prop_result(Property::MonotoneEquity, true, None),
        prop_result(Property::PnlGe { value: 0 }, false, Some("missing: pnl")),
    ];
    let f = fuzz_failures(3, results);
    assert_eq!(f.len(), 2);
    assert_eq!(f[0].run, 3);
    assert!(matches!(f[0].property, Property::NoNaN));
    assert_eq!(f[0].detail.as_deref(), Some("a"));
    assert!(matches!(f[1].property, Property::PnlGe { .. }));
    assert_eq!(f[1].detail.as_deref(), Some("missing: pnl"));
    assert!(fuzz_failures(0, vec![prop_result(Property::NoNaN, true, None)]).is_empty());
}

#[test]
fn test_result_takes_its_verdict_from_the_axes() {
    let id = "momentum".to_string();
    let t = test_result(&id, vec![], vec![prop_result(Property::NoNaN, true, None)], vec![]);
    assert_eq!(t.id, "momentum");
    assert!(t.passed);
    assert!(t.report_hash.is_none());
    let t = test_result(&id, vec![], vec![prop_result(Property::NoNaN, false, None)], vec![]);
    assert!(!t.passed);
}

#[test]
fn suite_is_sorted_by_id_and_counts_verdicts() {
    let suite = assemble_suite(vec![result("c", true), result("a", false), result("b", true)]);
    let ids: Vec<&str> = suite.results.iter().map(|r| r.id.as_str()).collect();
    assert_eq!(ids, ["a", "b", "c"]);
    assert_eq!(suite.passed, 2);
    assert_eq!(suite.failed, 1);
}

#[test]
fn suite_sort_is_stable_for_equal_ids() {
    let mut first = result("same", true);
    first.report_hash = Some("first".to_string());
    let mut second = result("same", true);
    second.report_hash = Some("second".to_string());
    let suite = assemble_suite(vec![result("z", false), first, second, result("a", true)]);
    let ids: Vec<&str> = suite.results.iter().map(|r| r.id.as_str()).collect();
    assert_eq!(ids, ["a", "same", "same", "z"]);
    assert_eq!(suite.results[1].report_hash.as_deref(), Some("first"));
    assert_eq!(suite.results[2].report_hash.as_deref(), Some("second"));
    assert_eq!(suite.passed + suite.failed, 4);
}

#[test]
fn empty_suite_counts_nothing() {
    let suite = assemble_suite(vec![]);
    assert!(suite.results.is_empty());
    assert_eq!((suite.passed, suite.failed), (0, 0));
}

#[test]
fn dropout_keeps_the_drawn_candles_or_the_first_two() {
    let candles = vec![10, 11, 12, 13, 14];
    assert_eq!(dropout_survivors(&candles, &vec![true, false, true, false, true]), vec![10, 12, 14]);
    assert_eq!(dropout_survivors(&candles, &vec![false, false, false, true, false]), vec![10, 11]);
    assert_eq!(dropout_survivors(&candles, &vec![false; 5]), vec![10, 11]);
    assert_eq!(dropout_survivors(&vec![7], &vec![false]), vec![7]);
    assert_eq!(dropout_survivors(&Vec::<i32>::new(), &vec![]), Vec::<i32>::new());
    assert_eq!(dropout_survivors(&vec![1, 2], &vec![true, true]), vec![1, 2]);
}

#[test]
fn round_report_rounds_numbers_and_keeps_the_rest() {
    let report = obj(vec![
        ("pnl", num(1.123456789)),
        ("label", Json::Str("x".to_string())),
        ("curve", Json::Array(vec![num(0.000000004), Json::Null, Json::Bool(true)])),
    ]);
    let rounded = round_report(&report, &round8_bits);
    match rounded {
        Json::Object(members) => {
            assert_eq!(members.len(), 3);
            assert_eq!(members[0].0, "pnl");
            assert!(matches!(members[0].1, Json::Number(b) if f64::from_bits(b) == 1.12345679));
            assert!(matches!(&members[1].1, Json::Str(s) if s == "x"));
            match &members[2].1 {
                Json::Array(items) => {
                    assert!(matches!(items[0], Json::Number(b) if f64::from_bits(b) == 0.0));
                    assert!(matches!(items[1], Json::Null));
                    assert!(matches!(items[2], Json::Bool(true)));
                }
                other => panic!("expected an array, got {other:?}"),
            }
        }
        other => panic!("expected an object, got {other:?}"),
    }
}

#[test]
fn assess_skips_the_diff_without_a_golden() {
    let mut test = base_test("t");
    test.property_checks = vec![Property::NoNaN];
    let report = obj(vec![("pnl", num(1.0))]);
    let t = assess(&test, &report, vec![], &round8_bits, within, &judge);
    assert!(t.diff.is_empty());
    assert_eq!(t.property_results.len(), 1);
    assert!(t.passed);
}

#[test]
fn assess_diffs_the_rounded_golden_against_the_rounded_report() {
    let mut test = base_test("t");
    test.expected = Some(obj(vec![("pnl", num(1.0)), ("sharpe", num(2.0))]));
    let report = obj(vec![("pnl", num(1.000000001)), ("sharpe", num(2.5))]);
    let t = assess(&test, &report, vec![], &round8_bits, within, &judge);
    assert_eq!(t.diff.len(), 1);
    assert_eq!(t.diff[0].field, "sharpe");
    assert_eq!(t.diff[0].kind, DiffKind::Mismatch);
    assert!(!t.passed);
}

#[test]
fn assess_fails_a_test_with_fuzz_failures() {
    let test = base_test("t");
    let report = obj(vec![]);
    let failure = FuzzFailure { run: 2, property: Property::NoNaN, detail: Some("pnl".to_string()) };
    let t = assess(&test, &report, vec![failure], &round8_bits, within, &judge);
    assert!(!t.passed);
    assert_eq!(t.fuzz_failures.len(), 1);
}

#[test]
fn a_blessed_test_passes_against_its_own_report() {
    let mut test = base_test("momentum");
    test.property_checks = vec![Property::NoNaN];
    let report = obj(vec![("pnl", num(12.345678912)), ("equity_curve", Json::Array(vec![num(1.0), num(2.0)]))]);
    let fixed = |_: &String, _: &Vec<f64>| -> Result<Json, Error> {
        Ok(obj(vec![("pnl", num(12.345678912)), ("equity_curve", Json::Array(vec![num(1.0), num(2.0)]))]))
    };
    let blessed = bless(test, &data(vec![0.0]), &fixed, &round8_bits).unwrap();
    assert_eq!(blessed.id, "momentum");
    assert!(blessed.expected.is_some());
    let rerun = assess(&blessed, &report, vec![], &round8_bits, within, &judge);
    assert!(rerun.diff.is_empty(), "{:?}", rerun.diff);
    assert!(rerun.passed);
}

fn show_value(v: Option<u64>) -> String {
    format!("{:?}", v.map(f64::from_bits))
}

fn show_property(p: Property) -> String {
    match p {
        Property::NoNaN => "NoNaN".to_string(),
        Property::PnlGe { value } => format!("PnlGe {{ value: {:?} }}", f64::from_bits(value)),
        _ => "other".to_string(),
    }
}

fn failing(id: &str) -> TestResult {
    let mut r = result(id, false);
    r.diff.push(FieldDiff {
        field: "pnl".to_string(),
        expected: Some(1.0f64.to_bits()),
        actual: Some(2.0f64.to_bits()),
        within_tolerance: false,
        kind: DiffKind::Mismatch,
    });
    r.property_results.push(prop_result(Property::NoNaN, true, None));
    r.property_results.push(prop_result(Property::PnlGe { value: 0.5f64.to_bits() }, false, Some("missing: pnl")));
    r.fuzz_failures.push(FuzzFailure { run: 3, property: Property::NoNaN, detail: None });
    r
}

#[test]
fn render_text_lists_failures_and_totals() {
    let suite = assemble_suite(vec![result("a", true), failing("b"), result("c", false)]);
    let text = render_text(&suite, false, &show_value, &show_property);
    assert_eq!(
        text,
        "PASS a\n\
         FAIL b\n\
         \x20 diff Mismatch pnl: expected Some(1.0) actual Some(2.0)\n\
         \x20 property PnlGe { value: 0.5 } failed missing: pnl\n\
         \x20 fuzz run 3 NoNaN failed \n\
         FAIL c\n\
         \n1 passed, 2 failed\n"
    );
}

#[test]
fn render_text_stops_after_the_first_failure_when_fail_fast() {
    let suite = assemble_suite(vec![result("a", true), result("b", false), result("c", false)]);
    let text = render_text(&suite, true, &show_value, &show_property);
    assert_eq!(text, "PASS a\nFAIL b\n\n1 passed, 2 failed\n");
    let clean = assemble_suite(vec![result("a", true)]);
    assert_eq!(render_text(&clean, true, &show_value, &show_property), "PASS a\n\n1 passed, 0 failed\n");
}

#[test]
fn suite_order_does_not_depend_on_arrival_order() {
    let ids = |s: &strategy_ci_core::model::SuiteResult| -> Vec<String> {
        s.results.iter().map(|r| r.id.clone()).collect()
    };
    let a = assemble_suite(vec![result("m", true), result("b", false), result("x", true)]);
    let b = assemble_suite(vec![result("x", true), result("m", true), result("b", false)]);
    assert_eq!(ids(&a), ids(&b));
    assert_eq!((a.passed, a.failed), (b.passed, b.failed));
}

#[test]
fn run_suite_runs_every_test_and_sorts_the_results() {
    let mut c = base_test("c");
    c.property_checks = vec![Property::PnlGe { value: 100.0f64.to_bits() }];
    let tests = vec![base_test("b"), base_test("a"), c];
    let d = data(vec![1.0, 2.0]);
    let keep = |_: FuzzSpec, _: u32, series: &Vec<f64>| series.clone();
    let suite = run_suite(&tests, &d, &sum_report, &keep, &round8_bits, within, &judge).unwrap();
    let ids: Vec<&str> = suite.results.iter().map(|r| r.id.as_str()).collect();
    assert_eq!(ids, ["a", "b", "c"]);
    assert_eq!((suite.passed, suite.failed), (2, 1));
}

#[test]
fn a_test_that_cannot_run_fails_and_the_suite_reports_on_the_rest() {
    let broken = |id: &str| {
        let mut t = base_test(id);
        t.dataset_ref = id.to_string();
        t
    };
    let tests = vec![broken("bad1"), base_test("a"), broken("bad2"), base_test("b")];
    let d = data(vec![1.0, 2.0]);
    let keep = |_: FuzzSpec, _: u32, series: &Vec<f64>| series.clone();
    let suite = run_suite(&tests, &d, &sum_report, &keep, &round8_bits, within, &judge).unwrap();
    let ids: Vec<&str> = suite.results.iter().map(|r| r.id.as_str()).collect();
    assert_eq!(ids, ["a", "b", "bad1", "bad2"]);
    assert_eq!((suite.passed, suite.failed), (2, 2));
    let bad1 = &suite.results[2];
    assert!(!bad1.passed);
    assert_eq!(bad1.error.as_deref(), Some("data error: missing dataset: bad1"));
    assert!(bad1.diff.is_empty() && bad1.property_results.is_empty() && bad1.fuzz_failures.is_empty());
    assert_eq!(suite.results[3].error.as_deref(), Some("data error: missing dataset: bad2"));
    assert!(suite.results[0].passed && suite.results[0].error.is_none());
}

#[test]
fn an_engine_rejection_fails_only_its_own_test() {
    let mut d = KeyMap::new();
    d.insert("sym-01".to_string(), vec![1.0]);
    d.insert("empty".to_string(), Vec::<f64>::new());
    let keep = |_: FuzzSpec, _: u32, series: &Vec<f64>| series.clone();
    let engine = |strategy: &String, series: &Vec<f64>| -> Result<Json, Error> {
        if series.is_empty() { Err(Error::Backtest("no candles".to_string())) } else { sum_report(strategy, series) }
    };
    let mut starved = base_test("starved");
    starved.dataset_ref = "empty".to_string();
    let suite = run_suite(&vec![starved, base_test("ok")], &d, &engine, &keep, &round8_bits, within, &judge).unwrap();
    assert!(suite.results[0].passed && suite.results[0].id == "ok");
    assert_eq!(suite.results[1].error.as_deref(), Some("backtest error: no candles"));
    assert_eq!((suite.passed, suite.failed), (1, 1));
}

#[test]
fn render_text_names_the_reason_a_test_could_not_run() {
    let mut broken = result("z", false);
    broken.error = Some("data error: missing dataset: gone".to_string());
    let suite = assemble_suite(vec![broken, result("a", true)]);
    let text = render_text(&suite, false, &show_value, &show_property);
    assert_eq!(
        text,
        "PASS a\nFAIL z\n  error data error: missing dataset: gone\n\n1 passed, 1 failed\n"
    );
}

/// A stand-in engine: the report of a series is its sum as `pnl`.
fn sum_report(_strategy: &String, series: &Vec<f64>) -> Result<Json, Error> {
    Ok(obj(vec![("pnl", num(series.iter().sum()))]))
}

#[test]
fn run_test_runs_the_report_and_every_fuzz_run() {
    let mut test = base_test("t");
    test.property_checks = vec![Property::PnlGe { value: 0.0f64.to_bits() }];
    test.fuzz = Some(FuzzSpec { seed: 1, runs: 4, perturbation: Perturbation::Jitter { amount: 0 } });
    let d = data(vec![1.0, 2.0]);
    let draws = std::cell::Cell::new(0);
    // Every other run's draw turns the series negative.
    let perturb = |spec: FuzzSpec, k: u32, series: &Vec<f64>| {
        assert_eq!(spec.seed, 1);
        assert_eq!(k, draws.get());
        draws.set(k + 1);
        if k % 2 == 1 { series.iter().map(|x| -x).collect() } else { series.clone() }
    };
    let t = run_test(&test, &d, &sum_report, &perturb, &round8_bits, within, &judge).unwrap();
    assert_eq!(draws.get(), 4);
    assert!(t.property_results[0].passed);
    let runs: Vec<u32> = t.fuzz_failures.iter().map(|f| f.run).collect();
    assert_eq!(runs, [1, 3]);
    assert!(!t.passed);
}

#[test]
fn run_test_without_a_fuzz_axis_draws_nothing() {
    let test = base_test("t");
    let d = data(vec![1.0]);
    let draws = std::cell::Cell::new(0);
    let perturb = |_: FuzzSpec, _: u32, series: &Vec<f64>| {
        draws.set(draws.get() + 1);
        series.clone()
    };
    let t = run_test(&test, &d, &sum_report, &perturb, &round8_bits, within, &judge).unwrap();
    assert_eq!(draws.get(), 0);
    assert!(t.fuzz_failures.is_empty());
    assert!(t.passed);
}

#[test]
fn run_test_reports_a_missing_dataset_and_engine_errors() {
    let mut test = base_test("t");
    test.dataset_ref = "nope".to_string();
    let d = data(vec![1.0]);
    let keep = |_: FuzzSpec, _: u32, series: &Vec<f64>| series.clone();
    match run_test(&test, &d, &sum_report, &keep, &round8_bits, within, &judge) {
        Err(Error::Data(m)) => assert_eq!(m, "missing dataset: nope"),
        other => panic!("expected a data error, got {other:?}"),
    }
    let failing = |_: &String, _: &Vec<f64>| -> Result<Json, Error> { Err(Error::Backtest("no candles".to_string())) };
    match run_test(&base_test("t"), &d, &failing, &keep, &round8_bits, within, &judge) {
        Err(Error::Backtest(m)) => assert_eq!(m, "no candles"),
        other => panic!("expected a backtest error, got {other:?}"),
    }
}

#[test]
fn bless_reports_a_missing_dataset() {
    let mut test = base_test("t");
    test.dataset_ref = "gone".to_string();
    match bless(test, &data(vec![1.0]), &sum_report, &round8_bits) {
        Err(e) => assert_eq!(e.message(), "data error: missing dataset: gone"),
        Ok(_) => panic!("expected a data error"),
    }
}
