//! The command boundary, the candle CSV reader, the command line and the text
//! helpers.

use strategy_ci_core::cli::{exit_success, Format};
use strategy_ci_core::csv::{cell_error, parse_csv, split_cells, split_lines, trim_chars};
use strategy_ci_core::keymap::KeyMap;
use strategy_ci_core::model::Error;
use strategy_ci_core::session::{
    error_json, list_json, parse_request, quote_json, sort_ids, version_json, Request, Session,
    VERSION,
};
use strategy_ci_core::text::{decimal_string, parse_usize, str_equal, str_less};

fn chars(s: &str) -> Vec<char> {
    s.chars().collect()
}

fn text(v: &[char]) -> String {
    v.iter().collect()
}

#[test]
fn session_version_is_the_crate_version() {
    assert_eq!(Session::version(), "0.1.0");
    assert_eq!(VERSION, "0.1.0");
    let s = Session::new();
    assert_eq!(s.config, Session::new().config);
    assert_eq!(version_json(), r#"{"version":"0.1.0"}"#);
}

#[test]
fn parse_request_recognises_the_five_commands() {
    assert_eq!(parse_request(Some("run_test")).unwrap(), Request::RunTest);
    assert_eq!(parse_request(Some("bless")).unwrap(), Request::Bless);
    assert_eq!(parse_request(Some("run_suite")).unwrap(), Request::RunSuite);
    assert_eq!(parse_request(Some("list")).unwrap(), Request::List);
    assert_eq!(parse_request(Some("version")).unwrap(), Request::Version);
}

#[test]
fn parse_request_rejects_a_missing_or_unknown_command() {
    match parse_request(None) {
        Err(Error::BadSpec(m)) => assert_eq!(m, "missing cmd"),
        other => panic!("expected a bad spec, got {other:?}"),
    }
    match parse_request(Some("nope")) {
        Err(e) => assert_eq!(e.message(), "bad spec: unknown cmd: nope"),
        other => panic!("expected a bad spec, got {other:?}"),
    }
    assert!(parse_request(Some("Version")).is_err());
    assert!(parse_request(Some("")).is_err());
}

#[test]
fn error_json_reports_ok_false_with_the_message() {
    let s = error_json("bad spec: unknown cmd: nope");
    assert_eq!(s, r#"{"error":"bad spec: unknown cmd: nope","ok":false}"#);
    assert!(s.contains("\"ok\":false"));
}

#[test]
fn error_json_escapes_the_message() {
    assert_eq!(error_json("a \"b\"\n\\c"), r#"{"error":"a \"b\"\n\\c","ok":false}"#);
    assert_eq!(quote_json("\u{1}é\t"), "\"\\u0001é\\t\"");
}

#[test]
fn list_json_sorts_the_ids() {
    let ids = vec!["momentum".to_string(), "alpha".to_string(), "beta".to_string()];
    assert_eq!(list_json(ids), r#"{"ids":["alpha","beta","momentum"]}"#);
    assert_eq!(list_json(vec!["momentum".to_string()]), r#"{"ids":["momentum"]}"#);
    assert_eq!(list_json(vec![]), r#"{"ids":[]}"#);
}

#[test]
fn sort_ids_orders_by_code_point_and_keeps_duplicates() {
    let ids = vec!["b".to_string(), "B".to_string(), "a".to_string(), "b".to_string(), "ab".to_string()];
    assert_eq!(sort_ids(ids), vec!["B", "a", "ab", "b", "b"]);
}

#[test]
fn error_messages_carry_their_kind() {
    assert_eq!(Error::Json("eof".to_string()).message(), "json error: eof");
    assert_eq!(Error::BadSpec("x".to_string()).message(), "bad spec: x");
    assert_eq!(Error::Data("y".to_string()).message(), "data error: y");
    assert_eq!(Error::Backtest("z".to_string()).message(), "backtest error: z");
}

const CSV: &str = "ts,open,high,low,close,volume\n\
                   0,100,101,99,100.5,10\n\
                   \n\
                   1, 101 ,102,100,101.5,11,extra\r\n\
                   2,102,103,101,102.5,12\n";

#[test]
fn parse_csv_skips_the_header_and_blank_lines() {
    let scan = parse_csv(CSV);
    assert!(scan.error.is_none());
    assert_eq!(scan.rows.len(), 3);
    assert_eq!(scan.rows[0].line, 2);
    assert_eq!(scan.rows[0].time, 0);
    assert_eq!(scan.rows[0].close, "100.5");
    assert_eq!(scan.rows[1].line, 4);
    assert_eq!(scan.rows[1].time, 1);
    assert_eq!(scan.rows[1].open, "101");
    assert_eq!(scan.rows[1].volume, "11");
    assert_eq!(scan.rows[2].time, 2);
    assert_eq!(scan.rows[2].volume, "12");
}

#[test]
fn parse_csv_refuses_a_short_line() {
    let scan = parse_csv("0,1,2,3,4,5\n1,2,3\n2,1,2,3,4,5\n");
    assert_eq!(scan.rows.len(), 1);
    assert_eq!(scan.error.as_deref(), Some("CSV line 2: expected 6 columns, got 3"));
}

#[test]
fn parse_csv_refuses_a_bad_timestamp_after_the_first_line() {
    let scan = parse_csv("0,1,2,3,4,5\nnoon,1,2,3,4,5\n");
    assert_eq!(scan.rows.len(), 1);
    assert_eq!(scan.error.as_deref(), Some("CSV line 2: bad ts: invalid digit found in string"));
    let empty_ts = parse_csv("ts,a,b,c,d,e\n,1,2,3,4,5\n");
    assert_eq!(empty_ts.error.as_deref(), Some("CSV line 2: bad ts: cannot parse integer from empty string"));
    let big = parse_csv("x,1,2,3,4,5\n99999999999999999999,1,2,3,4,5\n");
    assert_eq!(big.error.as_deref(), Some("CSV line 2: bad ts: number too large to fit in target type"));
}

#[test]
fn parse_csv_reads_signed_timestamps() {
    let scan = parse_csv("-5,1,2,3,4,5\n+7,1,2,3,4,5");
    assert!(scan.error.is_none());
    assert_eq!(scan.rows.len(), 2);
    assert_eq!(scan.rows[0].time, -5);
    assert_eq!(scan.rows[1].time, 7);
    assert_eq!(scan.rows[1].line, 2);
}

#[test]
fn parse_csv_of_nothing_is_empty() {
    let scan = parse_csv("");
    assert!(scan.rows.is_empty());
    assert!(scan.error.is_none());
    let blanks = parse_csv("\n   \n\t\n");
    assert!(blanks.rows.is_empty());
    assert!(blanks.error.is_none());
}

#[test]
fn parse_csv_counts_blank_lines_in_line_numbers() {
    let scan = parse_csv("\n\nts,open,high,low,close,volume\n");
    assert_eq!(scan.error.as_deref(), Some("CSV line 3: bad ts: invalid digit found in string"));
}

#[test]
fn lines_follow_str_lines() {
    let cases = ["a\nb", "a\r\nb\r\n", "a\n\nb\n", "\n", "a\rb", "x\r", ""];
    for case in cases {
        let got: Vec<String> = split_lines(&chars(case)).iter().map(|l| text(l)).collect();
        let want: Vec<String> = case.lines().map(|l| l.to_string()).collect();
        assert_eq!(got, want, "{case:?}");
    }
}

#[test]
fn cells_follow_split_and_trim() {
    let cases = ["a, b ,c", "a,", ",", "one", " x ,\u{a0}y\u{2003}"];
    for case in cases {
        let got: Vec<String> = split_cells(&chars(case)).iter().map(|c| text(c)).collect();
        let want: Vec<String> = case.split(',').map(|c| c.trim().to_string()).collect();
        assert_eq!(got, want, "{case:?}");
    }
    assert_eq!(text(&trim_chars(&chars(" \t x y \r\n"))), "x y");
}

#[test]
fn format_and_exit_code() {
    assert_ne!(Format::Text, Format::Json);
    assert!(exit_success(0));
    assert!(!exit_success(3));
}

#[test]
fn text_helpers() {
    assert_eq!(decimal_string(0), "0");
    assert_eq!(decimal_string(1204), "1204");
    assert_eq!(strategy_ci_core::text::concat("ab", "cd"), "abcd");
    assert!(str_less("a[10]", "a[1]"));
    assert!(!str_less("b", "b"));
    assert!(str_equal("x", "x"));
    assert_eq!(parse_usize(&chars("42")), Some(42));
    assert_eq!(parse_usize(&chars("+7")), Some(7));
    assert_eq!(parse_usize(&chars("-7")), None);
    assert_eq!(parse_usize(&chars("")), None);
    assert_eq!(parse_usize(&chars("18446744073709551616")), None);
}

#[test]
fn keymap_keeps_keys_sorted_and_overwrites() {
    let mut m: KeyMap<u32> = KeyMap::new();
    m.insert("b".to_string(), 2);
    m.insert("a".to_string(), 1);
    m.insert("c".to_string(), 3);
    m.insert("b".to_string(), 20);
    assert_eq!(m.len(), 3);
    assert_eq!(m.entry(0), (&"a".to_string(), &1));
    assert_eq!(m.entry(1), (&"b".to_string(), &20));
    assert_eq!(m.get("b"), Some(&20));
    assert_eq!(m.get("d"), None);
    assert!(m.contains_key("c"));
}

#[test]
fn white_space_table_agrees_with_str_trim() {
    for u in 0u32..=0x10FFFF {
        if let Some(c) = char::from_u32(u) {
            let s = c.to_string();
            let trimmed = text(&trim_chars(&chars(&s)));
            assert_eq!(trimmed, s.trim(), "U+{u:04X}");
        }
    }
}

#[test]
fn trimming_drops_exactly_the_white_space_characters() {
    for u in 0u32..=0x10ffff {
        if let Some(c) = char::from_u32(u) {
            let trimmed = trim_chars(&vec![c]);
            assert_eq!(trimmed.is_empty(), c.is_whitespace(), "U+{u:04X}");
        }
    }
}

#[test]
fn a_bad_number_cell_is_refused_at_its_line() {
    let reason = "abc".parse::<f64>().unwrap_err().to_string();
    assert_eq!(cell_error(3, "open", &reason), format!("CSV line 3: open: {reason}"));
    assert_eq!(cell_error(12, "volume", "invalid float literal"), "CSV line 12: volume: invalid float literal");
}
