use convfmt::rows::{parse_tabular_rows, serialize_tabular_rows};
use convfmt::value::{StructuralError, Value};

fn text(s: &str) -> Value {
    Value::Text(String::from(s))
}

fn record(pairs: Vec<(&str, Value)>) -> Value {
    Value::Mapping(
        pairs
            .into_iter()
            .map(|(k, v)| (String::from(k), v))
            .collect(),
    )
}

#[test]
fn parse_rows_with_trimming_and_inference() {
    let input = "name,age,power,immortal\nGendalf, 55000, 50.0, true\nFrodo, 50, 5.0, false\n";
    let parsed = parse_tabular_rows(input.as_bytes()).unwrap();
    let expected = Value::Sequence(vec![
        record(vec![
            ("name", text("Gendalf")),
            ("age", Value::Integer(55000)),
            ("power", Value::Float(String::from("50.0"))),
            ("immortal", Value::Boolean(true)),
        ]),
        record(vec![
            ("name", text("Frodo")),
            ("age", Value::Integer(50)),
            ("power", Value::Float(String::from("5.0"))),
            ("immortal", Value::Boolean(false)),
        ]),
    ]);
    assert_eq!(parsed, expected);
}

#[test]
fn parse_rows_blank_cell_is_null() {
    let input = "name,age,power,immortal,test_empty\nGendalf, 55000, 50.0, true,\nFrodo, 50, 5.0, false,\n";
    let parsed = parse_tabular_rows(input.as_bytes()).unwrap();
    match &parsed {
        Value::Sequence(items) => {
            assert_eq!(items.len(), 2);
            match &items[0] {
                Value::Mapping(entries) => {
                    assert_eq!(entries[4].0, "test_empty");
                    assert_eq!(entries[4].1, Value::Null);
                }
                other => panic!("expected a record, got {other:?}"),
            }
        }
        other => panic!("expected a sequence, got {other:?}"),
    }
}

#[test]
fn serialize_rows_quotes_strings() {
    let v = Value::Sequence(vec![
        record(vec![
            ("name", text("Gendalf the \"White\"")),
            ("age", Value::Integer(55000)),
            ("power", Value::Float(String::from("50.0"))),
            ("immortal", Value::Boolean(true)),
        ]),
        record(vec![
            ("name", text("Frodo")),
            ("age", Value::Integer(50)),
            ("power", Value::Float(String::from("5.0"))),
            ("immortal", Value::Boolean(false)),
        ]),
    ]);
    let bytes = serialize_tabular_rows(&v).unwrap();
    let out = String::from_utf8(bytes).unwrap();
    assert_eq!(
        out,
        "name,age,power,immortal\n\"Gendalf the \\\"White\\\"\",55000,50.0,true\n\"Frodo\",50,5.0,false\n"
    );
}

#[test]
fn rows_round_trip() {
    let v = Value::Sequence(vec![
        record(vec![
            ("name", text("Gendalf, the White")),
            ("age", Value::Integer(55000)),
            ("power", Value::Float(String::from("50.0"))),
            ("immortal", Value::Boolean(true)),
            ("notes", Value::Null),
        ]),
        record(vec![
            ("name", text("Frodo \"Ringbearer\"\nof the Shire")),
            ("age", Value::Integer(50)),
            ("power", Value::Float(String::from("5.0"))),
            ("immortal", Value::Boolean(false)),
            ("notes", text("true")),
        ]),
    ]);
    let bytes = serialize_tabular_rows(&v).unwrap();
    let back = parse_tabular_rows(&bytes).unwrap();
    assert_eq!(back, v);
}

#[test]
fn rows_round_trip_empty_sequence() {
    let v = Value::Sequence(vec![]);
    let bytes = serialize_tabular_rows(&v).unwrap();
    assert_eq!(bytes.len(), 0);
    let back = parse_tabular_rows(&bytes).unwrap();
    assert_eq!(back, v);
}

#[test]
fn serialize_rows_rejects_non_map_element() {
    let v = Value::Sequence(vec![Value::Integer(1)]);
    assert_eq!(
        serialize_tabular_rows(&v),
        Err(StructuralError::ShapeMismatch)
    );
}

#[test]
fn serialize_rows_rejects_bare_scalar() {
    let v = Value::Integer(7);
    assert_eq!(
        serialize_tabular_rows(&v),
        Err(StructuralError::ShapeMismatch)
    );
}

#[test]
fn serialize_rows_rejects_missing_column() {
    let v = Value::Sequence(vec![
        record(vec![("a", Value::Integer(1)), ("b", Value::Integer(2))]),
        record(vec![("a", Value::Integer(3))]),
    ]);
    assert_eq!(
        serialize_tabular_rows(&v),
        Err(StructuralError::ShapeMismatch)
    );
}

#[test]
fn serialize_rows_rejects_nested_cell() {
    let v = Value::Sequence(vec![record(vec![(
        "a",
        Value::Sequence(vec![Value::Integer(1)]),
    )])]);
    assert_eq!(
        serialize_tabular_rows(&v),
        Err(StructuralError::ShapeMismatch)
    );
}

#[test]
fn parse_rows_ragged_row_fails() {
    let input = "name,age\nGendalf,55000\nFrodo\n";
    assert_eq!(
        parse_tabular_rows(input.as_bytes()),
        Err(StructuralError::Malformed(2))
    );
}

#[test]
fn parse_rows_long_row_fails() {
    let input = "name,age\nGendalf,55000,extra\n";
    assert_eq!(
        parse_tabular_rows(input.as_bytes()),
        Err(StructuralError::Malformed(1))
    );
}

#[test]
fn parse_rows_unterminated_quote_fails() {
    let input = "name\n\"Gendalf\n";
    assert_eq!(
        parse_tabular_rows(input.as_bytes()),
        Err(StructuralError::Malformed(1))
    );
}

#[test]
fn parse_rows_duplicate_header_fails() {
    let input = "a,a\n1,2\n";
    assert_eq!(
        parse_tabular_rows(input.as_bytes()),
        Err(StructuralError::Malformed(0))
    );
}

#[test]
fn parse_rows_invalid_encoding_fails() {
    let input: &[u8] = &[0x61, 0xff, 0x61];
    assert_eq!(
        parse_tabular_rows(input),
        Err(StructuralError::Encoding)
    );
}

#[test]
fn parse_rows_empty_input_is_empty_sequence() {
    assert_eq!(
        parse_tabular_rows(b""),
        Ok(Value::Sequence(vec![]))
    );
}

#[test]
fn parse_rows_crlf_lines() {
    let input = "a,b\r\n1,2\r\n";
    let parsed = parse_tabular_rows(input.as_bytes()).unwrap();
    let expected = Value::Sequence(vec![record(vec![
        ("a", Value::Integer(1)),
        ("b", Value::Integer(2)),
    ])]);
    assert_eq!(parsed, expected);
}
