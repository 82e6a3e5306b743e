use convfmt::lines::{parse_tabular_lines, serialize_tabular_lines};
use convfmt::value::{StructuralError, Value};

fn text(s: &str) -> Value {
    Value::Text(String::from(s))
}

fn record(pairs: Vec<(&str, Value)>) -> Value {
    Value::Mapping(
        pairs
            .into_iter()
            .map(|(k, v)| (String::from(k), v))
            .collect(),
    )
}

#[test]
fn serialize_lines_compact_one_record_per_line() {
    let v = Value::Sequence(vec![
        record(vec![
            ("name", text("Gendalf")),
            ("age", Value::Integer(55000)),
        ]),
        record(vec![("quest", Value::Boolean(true))]),
    ]);
    let bytes = serialize_tabular_lines(&v).unwrap();
    let out = String::from_utf8(bytes).unwrap();
    assert_eq!(out, "{\"name\":\"Gendalf\",\"age\":55000}\n{\"quest\":true}\n");
}

#[test]
fn parse_lines_reads_one_value_per_line() {
    let input = "{\"name\":\"Gendalf\",\"age\":55000}\n{\"quest\":true}\n";
    let parsed = parse_tabular_lines(input.as_bytes()).unwrap();
    let expected = Value::Sequence(vec![
        record(vec![
            ("name", text("Gendalf")),
            ("age", Value::Integer(55000)),
        ]),
        record(vec![("quest", Value::Boolean(true))]),
    ]);
    assert_eq!(parsed, expected);
}

#[test]
fn parse_lines_object_is_read_as_object() {
    let parsed = parse_tabular_lines(b"{\"a\": 1}\n").unwrap();
    assert_eq!(
        parsed,
        Value::Sequence(vec![record(vec![("a", Value::Integer(1))])])
    );
}

#[test]
fn parse_lines_any_value_per_line() {
    let input = "42\n\"hi\"\ntrue\nnull\n[1,2]\n";
    let parsed = parse_tabular_lines(input.as_bytes()).unwrap();
    let expected = Value::Sequence(vec![
        Value::Integer(42),
        text("hi"),
        Value::Boolean(true),
        Value::Null,
        Value::Sequence(vec![Value::Integer(1), Value::Integer(2)]),
    ]);
    assert_eq!(parsed, expected);
}

#[test]
fn parse_lines_blank_line_fails() {
    assert_eq!(
        parse_tabular_lines(b"{\"a\":1}\n\n{\"b\":2}\n"),
        Err(StructuralError::Malformed(1))
    );
}

#[test]
fn parse_lines_trailing_junk_fails() {
    assert_eq!(
        parse_tabular_lines(b"{\"a\":1} x\n"),
        Err(StructuralError::Malformed(0))
    );
}

#[test]
fn parse_lines_reports_failing_line() {
    assert_eq!(
        parse_tabular_lines(b"1\nbroken\n"),
        Err(StructuralError::Malformed(1))
    );
}

#[test]
fn parse_lines_number_overflow_fails() {
    assert_eq!(
        parse_tabular_lines(b"1e999\n"),
        Err(StructuralError::Malformed(0))
    );
}

#[test]
fn lines_round_trip_nested_records() {
    let v = Value::Sequence(vec![
        record(vec![
            ("name", text("Frodo \"Ringbearer\"\nof the Shire")),
            ("age", Value::Integer(50)),
            ("power", Value::Float(String::from("5.0"))),
            ("items", Value::Sequence(vec![text("ring"), text("sting")])),
            ("home", record(vec![("shire", Value::Boolean(true))])),
            ("gap", Value::Null),
        ]),
        Value::Sequence(vec![]),
        record(vec![]),
    ]);
    let bytes = serialize_tabular_lines(&v).unwrap();
    let back = parse_tabular_lines(&bytes).unwrap();
    assert_eq!(back, v);
}

#[test]
fn lines_string_escapes_round_trip() {
    let v = Value::Sequence(vec![text("tab\t slash\\ quote\" bell\u{7} nl\n")]);
    let bytes = serialize_tabular_lines(&v).unwrap();
    let out = String::from_utf8(bytes.clone()).unwrap();
    assert_eq!(out, "\"tab\\t slash\\\\ quote\\\" bell\\u0007 nl\\n\"\n");
    let back = parse_tabular_lines(&bytes).unwrap();
    assert_eq!(back, v);
}

#[test]
fn parse_lines_unicode_escapes() {
    let parsed = parse_tabular_lines(b"\"\\u0041\\u00e9\"\n").unwrap();
    assert_eq!(parsed, Value::Sequence(vec![text("A\u{e9}")]));
}

#[test]
fn parse_lines_surrogate_pair() {
    let parsed = parse_tabular_lines(b"\"\\ud83d\\ude00\"\n").unwrap();
    assert_eq!(parsed, Value::Sequence(vec![text("\u{1f600}")]));
}

#[test]
fn parse_lines_lone_surrogate_fails() {
    assert_eq!(
        parse_tabular_lines(b"\"\\ud83d\"\n"),
        Err(StructuralError::Malformed(0))
    );
}

#[test]
fn parse_lines_float_is_normalized() {
    let parsed = parse_tabular_lines(b"2.50\n").unwrap();
    assert_eq!(parsed, Value::Sequence(vec![Value::Float(String::from("2.5"))]));
}

#[test]
fn parse_lines_big_integer_becomes_float_text() {
    let parsed = parse_tabular_lines(b"9223372036854775808\n").unwrap();
    assert_eq!(
        parsed,
        Value::Sequence(vec![Value::Float(String::from("9223372036854775808"))])
    );
}

#[test]
fn parse_lines_rejects_leading_zero() {
    assert_eq!(
        parse_tabular_lines(b"01\n"),
        Err(StructuralError::Malformed(0))
    );
}

#[test]
fn parse_lines_duplicate_keys_last_wins() {
    let parsed = parse_tabular_lines(b"{\"a\":1,\"a\":2}\n").unwrap();
    assert_eq!(
        parsed,
        Value::Sequence(vec![record(vec![("a", Value::Integer(2))])])
    );
}

#[test]
fn parse_lines_whitespace_around_value_tolerated() {
    let parsed = parse_tabular_lines(b"  { \"a\" : [ 1 , 2 ] }  \n").unwrap();
    assert_eq!(
        parsed,
        Value::Sequence(vec![record(vec![(
            "a",
            Value::Sequence(vec![Value::Integer(1), Value::Integer(2)]),
        )])])
    );
}

#[test]
fn serialize_lines_rejects_bare_scalar_root() {
    assert_eq!(
        serialize_tabular_lines(&Value::Integer(7)),
        Err(StructuralError::ShapeMismatch)
    );
}

#[test]
fn serialize_lines_rejects_map_root() {
    assert_eq!(
        serialize_tabular_lines(&record(vec![("a", Value::Integer(1))])),
        Err(StructuralError::ShapeMismatch)
    );
}

#[test]
fn parse_lines_empty_input_is_empty_sequence() {
    assert_eq!(parse_tabular_lines(b""), Ok(Value::Sequence(vec![])));
}
