use convfmt::markup::{escape_xml, parse_markup, serialize_markup};
use convfmt::value::{StructuralError, Value};

fn text(s: &str) -> Value {
    Value::Text(String::from(s))
}

fn mapping(pairs: Vec<(&str, Value)>) -> Value {
    Value::Mapping(
        pairs
            .into_iter()
            .map(|(k, v)| (String::from(k), v))
            .collect(),
    )
}

#[test]
fn repeated_elements_collapse_into_sequence() {
    let parsed = parse_markup(b"<r><x>a</x><x>b</x></r>").unwrap();
    let expected = mapping(vec![(
        "r",
        mapping(vec![("x", Value::Sequence(vec![text("a"), text("b")]))]),
    )]);
    assert_eq!(parsed, expected);
}

#[test]
fn single_element_is_not_wrapped() {
    let parsed = parse_markup(b"<r><x>a</x></r>").unwrap();
    let expected = mapping(vec![("r", mapping(vec![("x", text("a"))]))]);
    assert_eq!(parsed, expected);
}

#[test]
fn three_repeats_append_to_the_sequence() {
    let parsed = parse_markup(b"<r><x>1</x><x>2</x><x>3</x></r>").unwrap();
    let expected = mapping(vec![(
        "r",
        mapping(vec![(
            "x",
            Value::Sequence(vec![
                Value::Integer(1),
                Value::Integer(2),
                Value::Integer(3),
            ]),
        )]),
    )]);
    assert_eq!(parsed, expected);
}

#[test]
fn attributes_and_children_do_not_collide() {
    let parsed = parse_markup(b"<r a=\"1\"><b>2</b></r>").unwrap();
    let expected = mapping(vec![(
        "r",
        mapping(vec![("@a", Value::Integer(1)), ("b", Value::Integer(2))]),
    )]);
    assert_eq!(parsed, expected);
}

#[test]
fn attribute_with_same_name_as_child() {
    let parsed = parse_markup(b"<r b=\"x\"><b>2</b></r>").unwrap();
    let expected = mapping(vec![(
        "r",
        mapping(vec![("@b", text("x")), ("b", Value::Integer(2))]),
    )]);
    assert_eq!(parsed, expected);
}

#[test]
fn text_only_element_is_scalar_inferred() {
    let parsed = parse_markup(b"<r>42</r>").unwrap();
    assert_eq!(parsed, mapping(vec![("r", Value::Integer(42))]));
}

#[test]
fn reserved_root_tag_is_unwrapped() {
    let parsed = parse_markup(
        b"<root><array>a</array><array>b</array><boolean>false</boolean><the_answer>42</the_answer></root>",
    )
    .unwrap();
    let expected = mapping(vec![
        ("array", Value::Sequence(vec![text("a"), text("b")])),
        ("boolean", Value::Boolean(false)),
        ("the_answer", Value::Integer(42)),
    ]);
    assert_eq!(parsed, expected);
}

#[test]
fn serialize_wraps_nameless_root() {
    let v = mapping(vec![
        ("array", Value::Sequence(vec![text("a"), text("b")])),
        ("boolean", Value::Boolean(false)),
        ("the_answer", Value::Integer(42)),
    ]);
    let bytes = serialize_markup(&v).unwrap();
    let out = String::from_utf8(bytes).unwrap();
    assert_eq!(
        out,
        "<root><array>a</array><array>b</array><boolean>false</boolean><the_answer>42</the_answer></root>"
    );
}

#[test]
fn serialize_renders_attributes_and_text() {
    let v = mapping(vec![(
        "r",
        mapping(vec![("@a", Value::Integer(1)), ("#text", text("hi"))]),
    )]);
    let bytes = serialize_markup(&v).unwrap();
    let out = String::from_utf8(bytes).unwrap();
    assert_eq!(out, "<root><r a=\"1\">hi</r></root>");
}

#[test]
fn serialize_null_is_self_closing() {
    let v = mapping(vec![("gap", Value::Null)]);
    let bytes = serialize_markup(&v).unwrap();
    let out = String::from_utf8(bytes).unwrap();
    assert_eq!(out, "<root><gap/></root>");
}

#[test]
fn self_closing_parses_as_null() {
    let parsed = parse_markup(b"<r><gap/></r>").unwrap();
    assert_eq!(parsed, mapping(vec![("r", mapping(vec![("gap", Value::Null)]))]));
}

#[test]
fn cdata_replaces_text() {
    let parsed = parse_markup(b"<r><![CDATA[a<b]]></r>").unwrap();
    assert_eq!(parsed, mapping(vec![("r", text("a<b"))]));
}

#[test]
fn comments_and_declarations_are_skipped() {
    let parsed = parse_markup(b"<?xml version=\"1.0\"?><!-- hi --><r>1</r>").unwrap();
    assert_eq!(parsed, mapping(vec![("r", Value::Integer(1))]));
}

#[test]
fn entities_unescape_in_text() {
    let parsed = parse_markup(b"<r>a &amp; b &lt;tag&gt;</r>").unwrap();
    assert_eq!(parsed, mapping(vec![("r", text("a & b <tag>"))]));
}

#[test]
fn mismatched_close_tag_fails() {
    assert!(matches!(
        parse_markup(b"<a>x</b>"),
        Err(StructuralError::Malformed(_))
    ));
}

#[test]
fn unclosed_tag_fails() {
    assert!(matches!(
        parse_markup(b"<a>x"),
        Err(StructuralError::Malformed(_))
    ));
}

#[test]
fn empty_document_fails() {
    assert_eq!(parse_markup(b""), Err(StructuralError::UnsupportedRoot));
}

#[test]
fn escape_xml_escapes_all_five() {
    assert_eq!(
        escape_xml("a&b<c>d\"e'f"),
        "a&amp;b&lt;c&gt;d&quot;e&apos;f"
    );
}

#[test]
fn markup_round_trip_modulo_reinference() {
    // Strings that look like numbers come back as the richer scalar.
    let v = mapping(vec![(
        "r",
        mapping(vec![("kept", text("hello")), ("num", text("7"))]),
    )]);
    let bytes = serialize_markup(&v).unwrap();
    let back = parse_markup(&bytes).unwrap();
    let expected = mapping(vec![(
        "r",
        mapping(vec![("kept", text("hello")), ("num", Value::Integer(7))]),
    )]);
    assert_eq!(back, expected);
}

#[test]
fn markup_round_trip_attributes() {
    let v = mapping(vec![(
        "r",
        mapping(vec![("@a", Value::Integer(1)), ("b", Value::Integer(2))]),
    )]);
    let bytes = serialize_markup(&v).unwrap();
    let back = parse_markup(&bytes).unwrap();
    assert_eq!(back, v);
}

#[test]
fn markup_round_trip_collapsed_sequence() {
    let v = mapping(vec![(
        "r",
        mapping(vec![(
            "x",
            Value::Sequence(vec![text("a"), text("b")]),
        )]),
    )]);
    let bytes = serialize_markup(&v).unwrap();
    let back = parse_markup(&bytes).unwrap();
    assert_eq!(back, v);
}

#[test]
fn blank_text_between_elements_is_discarded() {
    let parsed = parse_markup(b"<r>\n  <x>1</x>\n</r>").unwrap();
    assert_eq!(
        parsed,
        mapping(vec![("r", mapping(vec![("x", Value::Integer(1))]))])
    );
}

#[test]
fn nonblank_text_beside_children_is_kept() {
    let parsed = parse_markup(b"<r><x>1</x>tail</r>").unwrap();
    assert_eq!(
        parsed,
        mapping(vec![(
            "r",
            mapping(vec![("x", Value::Integer(1)), ("#text", text("tail"))])
        )])
    );
}

#[test]
fn attribute_values_unescape_entities() {
    let parsed = parse_markup(b"<r a=\"x &amp; y\"/>").unwrap();
    assert_eq!(
        parsed,
        mapping(vec![("r", mapping(vec![("@a", text("x & y"))]))])
    );
}

#[test]
fn float_attribute_round_trip() {
    let v = mapping(vec![(
        "r",
        mapping(vec![("@w", Value::Float(String::from("2.5")))]),
    )]);
    let bytes = serialize_markup(&v).unwrap();
    assert_eq!(String::from_utf8(bytes.clone()).unwrap(), "<root><r w=\"2.5\"/></root>");
    let back = parse_markup(&bytes).unwrap();
    assert_eq!(back, v);
}

#[test]
fn rows_to_markup_end_to_end() {
    // Parsed by the tabular bridge, serialized by the markup bridge: one
    // element per row, the age as an integer text node.
    let rows = convfmt::rows::parse_tabular_rows(b"name,age\nGendalf,55000\nFrodo,50\n").unwrap();
    let bytes = serialize_markup(&rows).unwrap();
    let out = String::from_utf8(bytes).unwrap();
    assert_eq!(
        out,
        "<root><name>Gendalf</name><age>55000</age></root><root><name>Frodo</name><age>50</age></root>"
    );
}

#[test]
fn decimal_character_reference() {
    let parsed = parse_markup(b"<r>&#65;&#66;</r>").unwrap();
    assert_eq!(parsed, mapping(vec![("r", text("AB"))]));
}

#[test]
fn hex_character_reference() {
    let parsed = parse_markup(b"<r>&#x41;&#X42;</r>").unwrap();
    assert_eq!(parsed, mapping(vec![("r", text("AB"))]));
}

#[test]
fn character_reference_with_leading_zeros() {
    let parsed = parse_markup(b"<r>&#0000065;&#x000041;</r>").unwrap();
    assert_eq!(parsed, mapping(vec![("r", text("AA"))]));
}

#[test]
fn character_reference_astral() {
    let parsed = parse_markup(b"<r>&#x1F600;</r>").unwrap();
    assert_eq!(parsed, mapping(vec![("r", text("\u{1f600}"))]));
}

#[test]
fn character_reference_in_attribute() {
    let parsed = parse_markup(b"<r a=\"&#65;\"/>").unwrap();
    assert_eq!(parsed, mapping(vec![("r", mapping(vec![("@a", text("A"))]))]));
}

#[test]
fn surrogate_character_reference_fails() {
    assert!(matches!(
        parse_markup(b"<r>&#xD800;</r>"),
        Err(StructuralError::Malformed(_))
    ));
}

#[test]
fn out_of_range_character_reference_fails() {
    assert!(matches!(
        parse_markup(b"<r>&#1114112;</r>"),
        Err(StructuralError::Malformed(_))
    ));
    assert!(matches!(
        parse_markup(b"<r>&#999999999999;</r>"),
        Err(StructuralError::Malformed(_))
    ));
}

#[test]
fn malformed_character_reference_fails() {
    assert!(matches!(
        parse_markup(b"<r>&#;</r>"),
        Err(StructuralError::Malformed(_))
    ));
    assert!(matches!(
        parse_markup(b"<r>&#x;</r>"),
        Err(StructuralError::Malformed(_))
    ));
    assert!(matches!(
        parse_markup(b"<r>&#65</r>"),
        Err(StructuralError::Malformed(_))
    ));
}

#[test]
fn bare_text_document_yields_its_scalar() {
    assert_eq!(parse_markup(b"42"), Ok(Value::Integer(42)));
    assert_eq!(parse_markup(b"hello"), Ok(text("hello")));
}
