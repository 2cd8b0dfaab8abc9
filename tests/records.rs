use tailchart::input::Options;
use tailchart::records::{json_line_samples, Delimiter, Parser, PollParser, SetupError};

fn value_of(text: &str) -> Option<u64> {
    text.trim().parse::<f64>().ok().map(f64::to_bits)
}

fn pairs(samples: &[tailchart::series::Message]) -> Vec<(String, f64)> {
    samples.iter().map(|s| (s.label.clone(), f64::from_bits(s.value_bits))).collect()
}

#[test]
fn csv_line_drops_non_numeric_field() {
    let parser = Parser::from_header("a,b,c\n", Delimiter::new(',').unwrap()).unwrap();
    let fields = parser.record_fields("1,2,x\n").unwrap();
    assert_eq!(fields, vec!["1", "2", "x"]);
    let values: Vec<Option<u64>> = fields.iter().map(|f| value_of(f)).collect();
    let samples = parser.line_samples(&values, 42);
    assert_eq!(pairs(&samples), vec![("a".to_string(), 1.0), ("b".to_string(), 2.0)]);
    assert!(samples.iter().all(|s| s.time_ns == 42));
}

#[test]
fn csv_empty_line_has_no_fields() {
    let parser = Parser::from_header("a", Delimiter::new(',').unwrap()).unwrap();
    assert_eq!(parser.record_fields("").unwrap(), Vec::<String>::new());
}

#[test]
fn csv_extra_fields_have_no_label() {
    let parser = Parser::from_header("a", Delimiter::new(',').unwrap()).unwrap();
    let values = vec![value_of("1"), value_of("2")];
    assert_eq!(pairs(&parser.line_samples(&values, 0)), vec![("a".to_string(), 1.0)]);
}

#[test]
fn poll_emits_each_column_once_per_poll() {
    let (path, parser) = Parser::new("a;b=data/file.csv", ';').unwrap();
    assert_eq!(path, "data/file.csv");
    assert_eq!(parser.labels(), &vec!["a".to_string(), "b".to_string()]);
    let rows = parser.poll_records("x;2\n1;3\n4;5\n").unwrap();
    assert_eq!(rows.len(), 3);
    let values: Vec<Vec<Option<u64>>> =
        rows.iter().map(|r| r.iter().map(|f| value_of(f)).collect()).collect();
    let first = parser.poll_samples(&values, 7);
    assert_eq!(pairs(&first), vec![("b".to_string(), 2.0), ("a".to_string(), 1.0)]);
    let second = parser.poll_samples(&values, 8);
    assert_eq!(pairs(&second), pairs(&first));
    assert!(second.iter().all(|s| s.time_ns == 8));
}

#[test]
fn parser_new_rejects_missing_path() {
    assert_eq!(Parser::new("a,b,c", ',').unwrap_err(), SetupError::MissingPath);
}

#[test]
fn parser_new_rejects_non_ascii_delimiter() {
    assert_eq!(Parser::new("a=b", 'é').unwrap_err(), SetupError::DelimiterNotAscii);
    assert_eq!(Delimiter::new('é'), Err(SetupError::DelimiterNotAscii));
    assert_eq!(Delimiter::new('\t').unwrap().byte(), b'\t');
}

#[test]
fn parser_new_splits_at_first_equals() {
    let (path, parser) = Parser::new("x=a=b", ',').unwrap();
    assert_eq!(path, "a=b");
    assert_eq!(parser.labels(), &vec!["x".to_string()]);
}

#[test]
fn setup_error_messages() {
    assert!(SetupError::MissingPath.message().contains("path/to/csv"));
    assert!(SetupError::DelimiterNotAscii.message().contains("ASCII"));
    assert_eq!(SetupError::Header("bad".to_string()).message(), "CSV parse error: bad");
}

#[test]
fn options_polled_csv_fails_on_first_bad_argument() {
    let mut options = Options {
        csv: vec![],
        csv_poll: vec!["a,b=one.csv".to_string(), "c=two.csv".to_string()],
        csv_poll_delimiter: ',',
        json: vec![],
        json_poll: vec![],
        poll_period_ns: 1_000_000_000,
    };
    let parsed = options.polled_csv().unwrap();
    assert_eq!(parsed.len(), 2);
    assert_eq!(parsed[1].0, "two.csv");
    options.csv_poll.push("nopath".to_string());
    assert_eq!(options.polled_csv().unwrap_err(), SetupError::MissingPath);
    assert_eq!(options.delimiter().unwrap().byte(), b',');
}

/// A flat JSON object read as serde_json's `Value`: its entries in order,
/// each with the bits of its number, if any.
fn read_object(text: &str) -> Result<Vec<(String, Option<u64>)>, String> {
    match serde_json::from_str::<serde_json::Value>(text) {
        Ok(serde_json::Value::Object(map)) => {
            Ok(map.into_iter().map(|(k, v)| (k, v.as_f64().map(f64::to_bits))).collect())
        }
        Ok(_) => Err("not an object".to_string()),
        Err(err) => Err(err.to_string()),
    }
}

#[test]
fn json_keeps_numbers_only() {
    let line = "{\"x\": 5, \"y\": \"str\"}";
    let samples = json_line_samples(line, &read_object(line), 3).unwrap();
    assert_eq!(pairs(&samples), vec![("x".to_string(), 5.0)]);
    assert_eq!(samples[0].time_ns, 3);
}

#[test]
fn json_invalid_line_warns_with_line_and_next_line_parses() {
    let lines = ["{", "{\"a\": 1.5}"];
    let results: Vec<_> = lines.iter().map(|l| json_line_samples(l, &read_object(l), 0)).collect();
    let warning = results[0].as_ref().unwrap_err();
    assert!(warning.ends_with(": {"));
    assert!(warning.starts_with("invalid JSON ("));
    let next = results[1].as_ref().unwrap();
    assert_eq!(pairs(next), vec![("a".to_string(), 1.5)]);
}

#[test]
fn json_warning_for_non_object() {
    let err = Err("invalid type: sequence, expected a map".to_string());
    assert_eq!(
        json_line_samples("[1, 2]", &err, 0).unwrap_err(),
        "invalid JSON (invalid type: sequence, expected a map): [1, 2]"
    );
    assert!(json_line_samples("", &err, 0).unwrap().is_empty());
}

#[test]
fn json_stream_keeps_every_repeat() {
    let entries = Ok(vec![
        ("x".to_string(), Some(1f64.to_bits())),
        ("x".to_string(), Some(2f64.to_bits())),
    ]);
    let samples = json_line_samples("{}", &entries, 0).unwrap();
    assert_eq!(pairs(&samples), vec![("x".to_string(), 1.0), ("x".to_string(), 2.0)]);
}

#[test]
fn json_poll_keeps_first_number_of_each_key() {
    let content = "{\n\"x\": 1,\n\"x\": 2\n}";
    let entries = Ok(vec![
        ("s".to_string(), None),
        ("x".to_string(), Some(1f64.to_bits())),
        ("s".to_string(), Some(7f64.to_bits())),
        ("x".to_string(), Some(2f64.to_bits())),
    ]);
    let first = PollParser.parse(content, &entries, 5).unwrap();
    assert_eq!(pairs(&first), vec![("x".to_string(), 1.0), ("s".to_string(), 7.0)]);
    let second = PollParser.parse(content, &entries, 6).unwrap();
    assert_eq!(pairs(&second), pairs(&first));
    assert!(second.iter().all(|s| s.time_ns == 6));
}

#[test]
fn json_poll_parser_reads_whole_content() {
    let content = "{\n  \"a\": 1,\n  \"b\": true,\n  \"c\": -2e3\n}\n";
    let samples = PollParser.parse(content, &read_object(content), 0).unwrap();
    assert_eq!(pairs(&samples), vec![("a".to_string(), 1.0), ("c".to_string(), -2000.0)]);
    assert!(PollParser.parse("", &read_object(""), 0).unwrap().is_empty());
}

#[test]
fn json_numbers_keep_document_order() {
    let line = "{\"b\": 1, \"s\": null, \"a\": 2}";
    let samples = json_line_samples(line, &read_object(line), 0).unwrap();
    assert_eq!(pairs(&samples), vec![("b".to_string(), 1.0), ("a".to_string(), 2.0)]);
}
