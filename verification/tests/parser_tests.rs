//! Tests for the record parser: single-line field splitting, quoting, and
//! multi-line records.

use csv_combiner::parser::{next_record, parse_line, parse_records};
use csv_combiner::CsvError;

fn lines(raw: &[&str]) -> Vec<String> {
    raw.iter().map(|s| s.to_string()).collect()
}

#[test]
fn parse_line_splits_on_delimiter() {
    let (fields, in_quotes) = parse_line("a,b,c", ',', false);
    assert_eq!(fields, vec!["a".to_string(), "b".to_string(), "c".to_string()]);
    assert!(!in_quotes);
}

#[test]
fn parse_line_keeps_empty_trailing_field() {
    let (fields, in_quotes) = parse_line("a,b,", ',', false);
    assert_eq!(fields, vec!["a".to_string(), "b".to_string(), "".to_string()]);
    assert!(!in_quotes);
}

#[test]
fn parse_line_trims_line_level_whitespace() {
    let (fields, _) = parse_line("  a,b  ", ',', false);
    assert_eq!(fields, vec!["a".to_string(), "b".to_string()]);
}

#[test]
fn parse_line_keeps_delimiter_inside_quotes() {
    let (fields, in_quotes) = parse_line("\"a,b\",c", ',', false);
    assert_eq!(fields, vec!["\"a,b\"".to_string(), "c".to_string()]);
    assert!(!in_quotes);
}

#[test]
fn parse_line_quotes_are_preserved_verbatim() {
    let (fields, _) = parse_line("\"x\",\"y\"", ',', false);
    assert_eq!(fields, vec!["\"x\"".to_string(), "\"y\"".to_string()]);
}

#[test]
fn parse_line_reports_open_quote() {
    let (fields, in_quotes) = parse_line("a,\"start", ',', false);
    assert_eq!(fields, vec!["a".to_string(), "\"start".to_string()]);
    assert!(in_quotes);
}

#[test]
fn parse_line_continues_inside_quotes() {
    let (fields, in_quotes) = parse_line("end\",b", ',', true);
    assert_eq!(fields, vec!["end\"".to_string(), "b".to_string()]);
    assert!(!in_quotes);
}

#[test]
fn parse_line_single_field_when_no_delimiter() {
    let (fields, _) = parse_line("ab", ',', false);
    assert_eq!(fields, vec!["ab".to_string()]);
}

#[test]
fn next_record_reads_one_line() {
    let input = lines(&["a,b", "c,d"]);
    let r = next_record(&input, 0, ',', "\n").unwrap().unwrap();
    assert_eq!(r.0, vec!["a".to_string(), "b".to_string()]);
    assert_eq!(r.1, 1);
}

#[test]
fn next_record_end_of_input() {
    let input = lines(&["a,b"]);
    let r = next_record(&input, 1, ',', "\n").unwrap();
    assert!(r.is_none());
}

#[test]
fn next_record_joins_quoted_multiline_field() {
    let input = lines(&["1,\"line1", "line2\",x", "2,y"]);
    let r = next_record(&input, 0, ',', "\n").unwrap().unwrap();
    assert_eq!(
        r.0,
        vec!["1".to_string(), "\"line1\nline2\"".to_string(), "x".to_string()]
    );
    assert_eq!(r.1, 2);
}

#[test]
fn next_record_fails_on_unterminated_quote() {
    let input = lines(&["a,\"open"]);
    let r = next_record(&input, 0, ',', "\n");
    assert_eq!(r, Err(CsvError::UnexpectedEndOfInput));
}

#[test]
fn parse_records_reads_all_records() {
    let input = lines(&["h1,h2", "1,2", "3,4"]);
    let recs = parse_records(&input, ',', "\n").unwrap();
    assert_eq!(recs.len(), 3);
    assert_eq!(recs[0], vec!["h1".to_string(), "h2".to_string()]);
    assert_eq!(recs[2], vec!["3".to_string(), "4".to_string()]);
}

#[test]
fn parse_records_quoted_multiline_round_trip() {
    // A quoted field spanning two physical lines comes back as one field
    // with the line terminator inside and the quotes intact, and
    // serializing it reproduces the field verbatim.
    let input = lines(&["\"line1", "line2\""]);
    let recs = parse_records(&input, ',', "\n").unwrap();
    assert_eq!(recs.len(), 1);
    assert_eq!(recs[0], vec!["\"line1\nline2\"".to_string()]);
    let emitted = csv_combiner::engine::join_fields(&recs[0], ',');
    assert_eq!(emitted, "\"line1\nline2\"");
}

#[test]
fn parse_records_fails_when_input_ends_inside_quotes() {
    let input = lines(&["a,b", "\"open"]);
    let r = parse_records(&input, ',', "\n");
    assert_eq!(r, Err(CsvError::UnexpectedEndOfInput));
}

#[test]
fn parse_records_empty_input_gives_no_records() {
    let input: Vec<String> = Vec::new();
    let recs = parse_records(&input, ',', "\n").unwrap();
    assert!(recs.is_empty());
}
