use convfmt::value::{collapse_insert, map_get, map_insert, Value};
use convfmt::Format;

fn text(s: &str) -> Value {
    Value::Text(String::from(s))
}

#[test]
fn map_insert_overwrites_in_place() {
    let mut entries: Vec<(String, Value)> = Vec::new();
    map_insert(&mut entries, String::from("a"), Value::Integer(1));
    map_insert(&mut entries, String::from("b"), Value::Integer(2));
    map_insert(&mut entries, String::from("a"), Value::Integer(3));
    assert_eq!(entries.len(), 2);
    assert_eq!(entries[0].0, "a");
    assert_eq!(entries[0].1, Value::Integer(3));
    assert_eq!(entries[1].0, "b");
}

#[test]
fn map_get_finds_first_match() {
    let mut entries: Vec<(String, Value)> = Vec::new();
    map_insert(&mut entries, String::from("k"), text("v"));
    assert_eq!(map_get(&entries, "k"), Some(&text("v")));
    assert_eq!(map_get(&entries, "missing"), None);
}

#[test]
fn collapse_insert_folds_repeats() {
    let mut entries: Vec<(String, Value)> = Vec::new();
    collapse_insert(&mut entries, String::from("x"), text("a"));
    assert_eq!(entries[0].1, text("a"));
    collapse_insert(&mut entries, String::from("x"), text("b"));
    assert_eq!(entries[0].1, Value::Sequence(vec![text("a"), text("b")]));
    collapse_insert(&mut entries, String::from("x"), text("c"));
    assert_eq!(
        entries[0].1,
        Value::Sequence(vec![text("a"), text("b"), text("c")])
    );
    assert_eq!(entries.len(), 1);
}

#[test]
fn format_enum_is_comparable() {
    assert_eq!(Format::Json, Format::Json);
    assert!(Format::Json != Format::Xml);
}
