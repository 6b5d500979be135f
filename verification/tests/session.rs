//! The command boundary driven end to end, with envelopes read by hand.

use serde_json::Value;
use strategy_ci_core::json::Json;
use strategy_ci_core::keymap::KeyMap;
use strategy_ci_core::model::{Comparison, Error, Property, StrategyTest, Tolerance};
use strategy_ci_core::runner::{backtest_request, run_backtest, run_test};
use strategy_ci_core::model::{FuzzSpec, SuiteResult, TestResult};
use strategy_ci_core::session::{
    keep_report_hash, keep_report_hashes, read_cmd, list_json, quote_json, refusal_code, reply_fit, version_json, Request,
    Session, VERSION,
};
use wickra_backtest_core::Candle;

fn to_json(value: &Value) -> Json {
    match value {
        Value::Null => Json::Null,
        Value::Bool(b) => Json::Bool(*b),
        Value::Number(n) => Json::Number(n.as_f64().unwrap().to_bits()),
        Value::String(s) => Json::Str(s.clone()),
        Value::Array(items) => Json::Array(items.iter().map(to_json).collect()),
        Value::Object(map) => Json::Object(map.iter().map(|(k, v)| (k.clone(), to_json(v))).collect()),
    }
}

fn round8_bits(b: u64) -> u64 {
    let x = f64::from_bits(b);
    ((x * 1e8).round() / 1e8).to_bits()
}

fn within(expected: u64, actual: u64, tol: Tolerance) -> bool {
    let e = f64::from_bits(expected);
    let a = f64::from_bits(actual);
    if e.is_nan() || a.is_nan() {
        return false;
    }
    let d = (a - e).abs();
    match tol {
        Tolerance::Abs { value } => d <= f64::from_bits(value),
        Tolerance::Rel { value } => d <= f64::from_bits(value) * e.abs().max(a.abs()).max(1.0),
    }
}

fn judge(c: Comparison) -> bool {
    match c {
        Comparison::AtLeast { value, bound } => f64::from_bits(value) >= f64::from_bits(bound),
        Comparison::DrawdownWithin { drawdown, bound } => {
            f64::from_bits(drawdown) >= -f64::from_bits(bound).abs()
        }
        Comparison::Between { value, min, max } => {
            let v = f64::from_bits(value);
            v >= f64::from_bits(min) && v <= f64::from_bits(max)
        }
        Comparison::Falls { prev, cur } => f64::from_bits(cur) < f64::from_bits(prev) - 1e-9,
    }
}

fn candle(time: i64, close: f64) -> Candle {
    Candle { time, open: close, high: close + 1.0, low: close - 1.0, close, volume: 100.0 }
}

fn series() -> Vec<Candle> {
    (0..40).map(|i| candle(i, 100.0 + 10.0 * ((i as f64) * 0.5).sin())).collect()
}

const STRATEGY: &str = r#"{"symbol":"TEST","timeframe":"1h",
    "indicators":{"fast":{"type":"Sma","params":[2]},"slow":{"type":"Sma","params":[5]}},
    "entry":{"cross_above":["fast","slow"]},"exit":{"cross_below":["fast","slow"]},
    "sizing":{"type":"fixed_fraction","fraction":1.0}}"#;

fn test_json() -> String {
    format!(r#"{{"id":"momentum","strategy":{STRATEGY},"dataset_ref":"sym-01"}}"#)
}

fn data_json() -> String {
    format!(r#"{{"sym-01":{}}}"#, serde_json::to_string(&series()).unwrap())
}

fn json_error(e: serde_json::Error) -> Error {
    Error::Json(e.to_string())
}


fn test_of(value: &Value) -> StrategyTest {
    StrategyTest {
        id: value["id"].as_str().unwrap().to_string(),
        strategy: value["strategy"].to_string(),
        dataset_ref: value["dataset_ref"].as_str().unwrap().to_string(),
        expected: None,
        tolerances: KeyMap::new(),
        property_checks: vec![Property::NoNaN],
        fuzz: None,
    }
}

fn data_of(value: &Value) -> KeyMap<Vec<Candle>> {
    let mut data = KeyMap::new();
    if let Some(map) = value.as_object() {
        for (name, candles) in map {
            data.insert(name.clone(), serde_json::from_value(candles.clone()).unwrap());
        }
    }
    data
}

/// Answers the commands that need the envelope.
fn handle(request: Request, cmd_json: &str) -> Result<String, Error> {
    let envelope: Value = serde_json::from_str(cmd_json).map_err(json_error)?;
    match request {
        Request::RunTest => {
            let test = test_of(&envelope["test"]);
            let engine = |strategy: &String, candles: &Vec<Candle>| -> Result<Json, Error> {
                let request = backtest_request(strategy, &serde_json::to_string(candles).unwrap());
                let text = run_backtest(&request)?;
                Ok(to_json(&serde_json::from_str::<Value>(&text).map_err(json_error)?))
            };
            let keep = |_: FuzzSpec, _: u32, candles: &Vec<Candle>| candles.clone();
            let result = run_test(&test, &data_of(&envelope["data"]), &engine, &keep, &round8_bits, within, &judge)?;
            Ok(format!("{{\"id\":{},\"passed\":{}}}", quote_json(&result.id), result.passed))
        }
        Request::List => {
            let ids = envelope["tests"]
                .as_array()
                .map(|tests| tests.iter().map(|t| t["id"].as_str().unwrap_or("").to_string()).collect())
                .unwrap_or_default();
            Ok(list_json(ids))
        }
        _ => Ok(version_json()),
    }
}

#[test]
fn session_dispatches_commands() {
    let mut session = Session::new();

    let run_cmd = format!(r#"{{"cmd":"run_test","test":{},"data":{}}}"#, test_json(), data_json());
    let response = session.command_json(&run_cmd, &handle).unwrap();
    assert!(response.contains("\"id\":\"momentum\""));

    let list_cmd = format!(r#"{{"cmd":"list","tests":[{}]}}"#, test_json());
    assert_eq!(session.command_json(&list_cmd, &handle).unwrap(), r#"{"ids":["momentum"]}"#);

    let version = session.command_json(r#"{"cmd":"version"}"#, &handle).unwrap();
    assert!(version.contains(VERSION));
}

#[test]
fn session_reports_errors_as_json_not_panics() {
    let mut session = Session::new();
    let bad = session.command_json(r#"{"cmd":"nope"}"#, &handle).unwrap();
    assert!(bad.contains("\"ok\":false"));
    let missing_data = format!(r#"{{"cmd":"run_test","test":{},"data":{{}}}}"#, test_json());
    let response = session.command_json(&missing_data, &handle).unwrap();
    assert!(response.contains("missing dataset"));
}

#[test]
fn session_answers_unreadable_envelopes_in_band() {
    let mut session = Session::new();
    let not_json = session.command_json("{", &handle).unwrap();
    assert!(not_json.starts_with("{\"error\":\"json error: "));
    assert!(not_json.ends_with(",\"ok\":false}"));
    let no_cmd = session.command_json(r#"{"cmd":7}"#, &handle).unwrap();
    assert_eq!(no_cmd, r#"{"error":"bad spec: missing cmd","ok":false}"#);
    let unknown = session.command_json(r#"{"cmd":"nope"}"#, &handle).unwrap();
    assert_eq!(unknown, r#"{"error":"bad spec: unknown cmd: nope","ok":false}"#);
    let missing = format!(r#"{{"cmd":"run_test","test":{},"data":{{}}}}"#, test_json());
    assert_eq!(
        session.command_json(&missing, &handle).unwrap(),
        r#"{"error":"data error: missing dataset: sym-01","ok":false}"#
    );
}

fn hashed(id: &str, passed: bool) -> TestResult {
    TestResult {
        id: id.to_string(),
        passed,
        diff: vec![],
        property_results: vec![],
        fuzz_failures: vec![],
        report_hash: Some(format!("hash-{id}")),
        error: None,
    }
}

#[test]
fn the_report_hash_is_kept_only_when_asked_for() {
    let kept = keep_report_hash(hashed("a", true), true);
    assert_eq!(kept.report_hash.as_deref(), Some("hash-a"));
    assert_eq!(kept.id, "a");
    let dropped = keep_report_hash(hashed("a", true), false);
    assert_eq!(dropped.report_hash, None);
    assert!(dropped.passed);
}

#[test]
fn a_suite_drops_every_report_hash_by_default() {
    let suite = SuiteResult { results: vec![hashed("a", true), hashed("b", false)], passed: 1, failed: 1 };
    let plain = keep_report_hashes(suite, false);
    assert_eq!((plain.passed, plain.failed), (1, 1));
    let ids: Vec<&str> = plain.results.iter().map(|r| r.id.as_str()).collect();
    assert_eq!(ids, ["a", "b"]);
    assert!(plain.results.iter().all(|r| r.report_hash.is_none()));
    let suite = SuiteResult { results: vec![hashed("a", true), hashed("b", false)], passed: 1, failed: 1 };
    let asked = keep_report_hashes(suite, true);
    assert_eq!(asked.results[1].report_hash.as_deref(), Some("hash-b"));
}

#[test]
fn two_sessions_answer_a_command_alike() {
    let mut fresh = Session::new();
    let mut used = Session::new();
    let _ = used.command_json(r#"{"cmd":"nope"}"#, &handle).unwrap();
    let _ = used.command_json(r#"{"cmd":"version"}"#, &handle).unwrap();
    let list_cmd = format!(r#"{{"cmd":"list","tests":[{}]}}"#, test_json());
    for cmd in [list_cmd.as_str(), r#"{"cmd":"version"}"#, r#"{"cmd":7}"#, "{"] {
        assert_eq!(
            fresh.command_json(cmd, &handle).unwrap(),
            used.command_json(cmd, &handle).unwrap()
        );
    }
}

#[test]
fn a_c_caller_is_refused_for_null_or_non_utf8_input() {
    assert_eq!(refusal_code(false, true, true), Some(-1));
    assert_eq!(refusal_code(true, false, true), Some(-1));
    assert_eq!(refusal_code(true, true, false), Some(-2));
    assert_eq!(refusal_code(true, true, true), None);
}

#[test]
fn a_response_is_written_only_when_it_fits_with_its_nul() {
    assert_eq!(reply_fit(10, 11, true), (10, true));
    assert_eq!(reply_fit(10, 10, true), (10, false));
    assert_eq!(reply_fit(10, 0, false), (10, false));
    assert_eq!(reply_fit(usize::MAX, usize::MAX, true), (i32::MAX, false));
}

#[test]
fn read_cmd_takes_the_string_cmd_of_a_json_envelope() {
    assert_eq!(read_cmd(r#"{"cmd":"list","tests":[]}"#).unwrap().as_deref(), Some("list"));
    assert_eq!(read_cmd(r#"{"cmd":7}"#).unwrap(), None);
    assert_eq!(read_cmd("[1,2]").unwrap(), None);
    match read_cmd("{") {
        Err(Error::Json(m)) => assert!(!m.is_empty()),
        other => panic!("expected a json error, got {other:?}"),
    }
}
