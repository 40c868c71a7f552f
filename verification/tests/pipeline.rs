use hl::cat::SegmentProcesor;
use hl::datefmt::{DateTimeFormatter, LinuxDateFormat};
use hl::format::RecordFormatter;
use hl::model::{Filter, Level, Parser, ParserSettings};
use hl::settings::Fields;
use hl::theme::Theme;
use std::sync::Arc;

fn formatter() -> RecordFormatter {
    let format = LinuxDateFormat::new(b"%y-%m-%d %T.%3N").compile();
    RecordFormatter::new(Arc::new(Theme::none()), DateTimeFormatter::new(format), false)
}

fn run_lines(filter: Filter, data: &[u8]) -> Vec<u8> {
    let parser = Parser::new(ParserSettings::new(Fields::default(), false));
    let formatter = formatter();
    let processor = SegmentProcesor::new(&parser, &formatter, &filter);
    let mut buf = Vec::new();
    processor.run(data, &mut buf);
    buf
}

#[test]
fn basic_format() {
    let out = run_lines(
        Filter::new(None),
        b"{\"ts\":\"2020-06-27T10:48:30.466249Z\",\"level\":\"info\",\"msg\":\"hi\",\"x\":1}\n",
    );
    assert_eq!(
        String::from_utf8(out).unwrap(),
        "20-06-27 10:48:30.466 |INF| hi x=1\n"
    );
}

#[test]
fn unknown_level_mnemonic() {
    let out = run_lines(
        Filter::new(None),
        b"{\"ts\":\"2020-06-27T00:00:00Z\",\"level\":\"trace\",\"msg\":\"m\"}\n",
    );
    assert_eq!(
        String::from_utf8(out).unwrap(),
        "20-06-27 00:00:00.000 |(?)| m\n"
    );
}

#[test]
fn byte_string_heuristic() {
    let out = run_lines(
        Filter::new(None),
        b"{\"ts\":\"2020-06-27T00:00:00Z\",\"data\":[98,105,110,0,255]}\n",
    );
    assert_eq!(
        String::from_utf8(out).unwrap(),
        "20-06-27 00:00:00.000 |(?)| data=b'bin\\x00\\xff'\n"
    );
}

#[test]
fn level_filter_drops_lower_levels() {
    let data = b"{\"ts\":\"2020-06-27T00:00:01Z\",\"level\":\"debug\",\"msg\":\"a\"}\n{\"ts\":\"2020-06-27T00:00:02Z\",\"level\":\"error\",\"msg\":\"b\"}\n";
    let all = run_lines(Filter::new(None), data);
    let filtered = run_lines(Filter::new(Some(Level::Error)), data);
    let all_text = String::from_utf8(all).unwrap();
    let filtered_text = String::from_utf8(filtered).unwrap();
    // filtering the records equals filtering the formatted lines
    let line_filtered: String = all_text
        .lines()
        .filter(|l| l.contains("|ERR|"))
        .map(|l| format!("{}\n", l))
        .collect();
    assert_eq!(filtered_text, line_filtered);
    assert!(filtered_text.contains(" b\n"));
    assert!(!filtered_text.contains(" a\n"));
}

#[test]
fn passthrough_of_unparsable_lines_without_filter() {
    let out = run_lines(Filter::new(None), b"not json\n");
    assert_eq!(String::from_utf8(out).unwrap(), "not json\n");
    let out = run_lines(Filter::new(Some(Level::Debug)), b"not json\n");
    assert_eq!(out, b"");
}

#[test]
fn order_preserved_across_segments() {
    let a = b"{\"ts\":\"2020-06-27T00:00:01Z\",\"msg\":\"one\"}\n".to_vec();
    let b = b"{\"ts\":\"2020-06-27T00:00:02Z\",\"msg\":\"two\"}\n".to_vec();
    let whole = [a.clone(), b.clone()].concat();
    let together = run_lines(Filter::new(None), &whole);
    let first = run_lines(Filter::new(None), &a);
    let second = run_lines(Filter::new(None), &b);
    assert_eq!(together, [first, second].concat());
}
