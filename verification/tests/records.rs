use hl::model::{parse_numeric_ts, Filter, Level, Parser, ParserSettings, Timestamp};
use hl::settings::Fields;

#[test]
fn rfc3339_timestamp_parses_to_epoch() {
    let ts = Timestamp::new(b"\"2020-06-27T10:48:30.466249Z\"".to_vec());
    assert_eq!(ts.parse(), Some((1593254910, 466249000)));
}

#[test]
fn numeric_timestamp_magnitude_dispatch() {
    assert_eq!(parse_numeric_ts(b"1593254910"), Some((1593254910, 0)));
    assert_eq!(parse_numeric_ts(b"1593254910466"), Some((1593254910, 466000000)));
    assert_eq!(parse_numeric_ts(b"1593254910466249"), Some((1593254910, 466249000)));
    assert_eq!(parse_numeric_ts(b"1593254910466249000"), Some((1593254910, 466249000)));
    assert_eq!(parse_numeric_ts(b"1593254910.466249"), Some((1593254910, 466249000)));
    assert_eq!(parse_numeric_ts(b"-2.25"), Some((-3, 750000000)));
    assert_eq!(parse_numeric_ts(b"nonsense"), None);
}

#[test]
fn parser_projects_record() {
    let parser = Parser::new(ParserSettings::new(Fields::default(), false));
    let raw = hl::model::parse_json_object(
        br#"{"ts":"2020-06-27T10:48:30.466249Z","level":"info","msg":"hi","x":1}"#,
    )
    .unwrap();
    let rec = parser.parse(raw);
    assert_eq!(rec.level, Some(Level::Info));
    assert!(rec.ts.is_some());
    assert_eq!(rec.message.as_deref(), Some(b"\"hi\"".as_slice()));
    assert_eq!(rec.fields.len(), 1);
    assert_eq!(rec.fields[0].0, "x");
    assert_eq!(rec.fields[0].1, b"1".to_vec());
}

#[test]
fn level_spellings_are_case_insensitive() {
    let parser = Parser::new(ParserSettings::new(Fields::default(), false));
    let raw = hl::model::parse_json_object(br#"{"level":"WARN"}"#).unwrap();
    let rec = parser.parse(raw);
    assert_eq!(rec.level, Some(Level::Warning));
}

#[test]
fn unknown_level_stays_unset() {
    let parser = Parser::new(ParserSettings::new(Fields::default(), false));
    let raw = hl::model::parse_json_object(br#"{"level":"trace","msg":"m"}"#).unwrap();
    let rec = parser.parse(raw);
    assert_eq!(rec.level, None);
    let filter = Filter::new(Some(Level::Debug));
    assert!(rec.matches(&filter));
}
