//! A strategy run through the real engine, judged, blessed and collected into
//! a suite with the library's own steps.

use serde_json::Value;
use strategy_ci_core::json::Json;
use strategy_ci_core::keymap::KeyMap;
use rand::{RngExt, SeedableRng};
use strategy_ci_core::model::{Comparison, Error, FuzzSpec, Perturbation, Property, StrategyTest, Tolerance};
use strategy_ci_core::runner::{
    assess, backtest_request, bless, data, find_dataset, run_backtest, run_suite, run_test,
};
use wickra_backtest_core::Candle;

fn to_json(value: &Value) -> Json {
    match value {
        Value::Null => Json::Null,
        Value::Bool(b) => Json::Bool(*b),
        Value::Number(n) => Json::Number(n.as_f64().unwrap().to_bits()),
        Value::String(s) => Json::Str(s.clone()),
        Value::Array(items) => Json::Array(items.iter().map(to_json).collect()),
        Value::Object(map) => Json::Object(map.iter().map(|(k, v)| (k.clone(), to_json(v))).collect()),
    }
}

fn round8_bits(b: u64) -> u64 {
    let x = f64::from_bits(b);
    ((x * 1e8).round() / 1e8).to_bits()
}

fn within(expected: u64, actual: u64, tol: Tolerance) -> bool {
    let e = f64::from_bits(expected);
    let a = f64::from_bits(actual);
    if e.is_nan() || a.is_nan() {
        return false;
    }
    let d = (a - e).abs();
    match tol {
        Tolerance::Abs { value } => d <= f64::from_bits(value),
        Tolerance::Rel { value } => d <= f64::from_bits(value) * e.abs().max(a.abs()).max(1.0),
    }
}

fn judge(c: Comparison) -> bool {
    match c {
        Comparison::AtLeast { value, bound } => f64::from_bits(value) >= f64::from_bits(bound),
        Comparison::DrawdownWithin { drawdown, bound } => {
            f64::from_bits(drawdown) >= -f64::from_bits(bound).abs()
        }
        Comparison::Between { value, min, max } => {
            let v = f64::from_bits(value);
            v >= f64::from_bits(min) && v <= f64::from_bits(max)
        }
        Comparison::Falls { prev, cur } => f64::from_bits(cur) < f64::from_bits(prev) - 1e-9,
    }
}

fn candle(time: i64, close: f64) -> Candle {
    Candle { time, open: close, high: close + 1.0, low: close - 1.0, close, volume: 100.0 }
}

/// A deterministic oscillating series long enough for a fast/slow SMA cross.
fn series() -> Vec<Candle> {
    (0..40).map(|i| candle(i, 100.0 + 10.0 * ((i as f64) * 0.5).sin())).collect()
}

fn strategy() -> Value {
    serde_json::from_str(
        r#"{
            "symbol": "TEST",
            "timeframe": "1h",
            "indicators": {
                "fast": { "type": "Sma", "params": [2] },
                "slow": { "type": "Sma", "params": [5] }
            },
            "entry": { "cross_above": ["fast", "slow"] },
            "exit": { "cross_below": ["fast", "slow"] },
            "sizing": { "type": "fixed_fraction", "fraction": 1.0 }
        }"#,
    )
    .unwrap()
}

fn base_test() -> StrategyTest {
    StrategyTest {
        id: "momentum".to_string(),
        strategy: serde_json::to_string(&strategy()).unwrap(),
        dataset_ref: "sym-01".to_string(),
        expected: None,
        tolerances: KeyMap::new(),
        property_checks: vec![],
        fuzz: None,
    }
}

/// The report the engine gives for the test's strategy over its dataset.
fn report_for(test: &StrategyTest, data: &KeyMap<Vec<Candle>>) -> Json {
    let candles = find_dataset(data, &test.dataset_ref).unwrap();
    let request = backtest_request(
        &serde_json::to_string(&strategy()).unwrap(),
        &serde_json::to_string(candles).unwrap(),
    );
    let text = run_backtest(&request).unwrap();
    to_json(&serde_json::from_str::<Value>(&text).unwrap())
}

#[test]
fn run_test_and_bless_and_suite_end_to_end() {
    let data = data(series());
    let keep = |_: FuzzSpec, _: u32, series: &Vec<Candle>| series.clone();
    let mut test = base_test();
    test.property_checks = vec![Property::NoNaN];

    // No golden yet: the diff axis is skipped, so pass depends on properties.
    let result = run_test(&test, &data, &engine, &keep, &round8_bits, within, &judge).unwrap();
    assert!(result.diff.is_empty());
    assert_eq!(result.property_results.len(), 1);
    assert!(result.passed);

    // Blessing pins the report; the blessed test then matches itself exactly.
    let blessed = bless(test, &data, &engine, &round8_bits).unwrap();
    assert!(blessed.expected.is_some());
    let rerun = run_test(&blessed, &data, &engine, &keep, &round8_bits, within, &judge).unwrap();
    assert!(rerun.diff.is_empty(), "{:?}", rerun.diff);
    assert!(rerun.passed);

    let suite = run_suite(&vec![blessed], &data, &engine, &keep, &round8_bits, within, &judge).unwrap();
    assert_eq!(suite.passed, 1);
    assert_eq!(suite.failed, 0);
}

#[test]
fn a_drifted_report_fails_its_golden() {
    let data = data(series());
    let test = base_test();
    let report = report_for(&test, &data);
    let mut blessed = bless(test, &data, &engine, &round8_bits).unwrap();
    // Move one pinned number: the rerun must report it.
    if let Some(Json::Object(members)) = blessed.expected.as_mut() {
        for (key, value) in members.iter_mut() {
            if key == "schema_version" || key == "metrics" {
                continue;
            }
            if let Json::Number(bits) = value {
                *bits = (f64::from_bits(*bits) + 1.0).to_bits();
                break;
            }
        }
        members.push(("only_in_golden".to_string(), Json::Number(1.0f64.to_bits())));
    }
    let rerun = assess(&blessed, &report, vec![], &round8_bits, within, &judge);
    assert!(!rerun.passed);
    assert!(rerun.diff.iter().any(|d| d.field == "only_in_golden"));
}

/// The engine's report for a strategy over a series.
fn engine(strategy: &String, series: &Vec<Candle>) -> Result<Json, Error> {
    let request = backtest_request(
        strategy,
        &serde_json::to_string(series).unwrap(),
    );
    let text = run_backtest(&request)?;
    Ok(to_json(&serde_json::from_str::<Value>(&text).unwrap()))
}

#[test]
fn fuzz_axis_runs_and_reports_clean() {
    let data = data(series());
    let mut test = base_test();
    test.property_checks = vec![Property::NoNaN];
    test.fuzz = Some(FuzzSpec {
        seed: 42,
        runs: 4,
        perturbation: Perturbation::Jitter { amount: 0.001f64.to_bits() },
    });
    let rng = std::cell::RefCell::new(rand_pcg::Pcg64::seed_from_u64(42));
    let jitter = |_: FuzzSpec, _: u32, series: &Vec<Candle>| -> Vec<Candle> {
        let mut rng = rng.borrow_mut();
        series
            .iter()
            .map(|c| {
                let mut scale = |x: f64| x * (1.0 + rng.random_range(-0.001..=0.001));
                Candle {
                    time: c.time,
                    open: scale(c.open),
                    high: scale(c.high),
                    low: scale(c.low),
                    close: scale(c.close),
                    volume: scale(c.volume),
                }
            })
            .collect()
    };
    let result = run_test(&test, &data, &engine, &jitter, &round8_bits, within, &judge).unwrap();
    assert!(result.fuzz_failures.is_empty());
    assert!(result.passed);
}

/// A small corpus over the one dataset: a blessed test, a test with property
/// checks only, and a test whose golden has drifted.
fn corpus(data: &KeyMap<Vec<Candle>>) -> Vec<StrategyTest> {
    let mut checked = base_test();
    checked.id = "checked".to_string();
    checked.property_checks = vec![Property::NoNaN];
    let mut pinned = base_test();
    pinned.id = "pinned".to_string();
    let pinned = bless(pinned, data, &engine, &round8_bits).unwrap();
    let mut drifted = bless(base_test(), data, &engine, &round8_bits).unwrap();
    drifted.id = "drifted".to_string();
    if let Some(Json::Object(members)) = drifted.expected.as_mut() {
        members.push(("only_in_golden".to_string(), Json::Number(1.0f64.to_bits())));
    }
    vec![pinned, checked, drifted]
}

#[test]
fn run_suite_is_deterministic() {
    let data = data(series());
    let keep = |_: FuzzSpec, _: u32, series: &Vec<Candle>| series.clone();
    let tests = corpus(&data);
    let a = run_suite(&tests, &data, &engine, &keep, &round8_bits, within, &judge).expect("run a");
    let b = run_suite(&tests, &data, &engine, &keep, &round8_bits, within, &judge).expect("run b");
    assert_eq!(format!("{a:?}"), format!("{b:?}"), "run_suite must be deterministic");
}

#[test]
fn suite_agrees_with_individual_runs() {
    let data = data(series());
    let keep = |_: FuzzSpec, _: u32, series: &Vec<Candle>| series.clone();
    let tests = corpus(&data);
    let run = |t: &StrategyTest| run_test(t, &data, &engine, &keep, &round8_bits, within, &judge);
    let suite = run_suite(&tests, &data, &engine, &keep, &round8_bits, within, &judge).expect("run suite");

    let mut individual: Vec<_> = tests.iter().map(|t| run(t).expect("run test")).collect();
    individual.sort_by(|x, y| x.id.cmp(&y.id));

    assert_eq!(
        format!("{:?}", suite.results),
        format!("{individual:?}"),
        "whole-suite path must equal the per-test path",
    );
    assert_eq!((suite.passed, suite.failed), (2, 1));
}

#[test]
fn reblessing_a_blessed_test_changes_nothing() {
    let data = data(series());
    let reference = bless(base_test(), &data, &engine, &round8_bits).unwrap();
    let once = bless(base_test(), &data, &engine, &round8_bits).unwrap();
    let twice = bless(once, &data, &engine, &round8_bits).unwrap();
    assert_eq!(twice.id, reference.id);
    assert_eq!(twice.dataset_ref, reference.dataset_ref);
    assert_eq!(format!("{:?}", twice.strategy), format!("{:?}", reference.strategy));
    assert_eq!(format!("{:?}", twice.expected), format!("{:?}", reference.expected));
    assert_eq!(format!("{:?}", twice.property_checks), format!("{:?}", reference.property_checks));
    assert_eq!(twice.fuzz, reference.fuzz);
}
