use convfmt::scalar::infer_scalar;
use convfmt::value::Value;

#[test]
fn infer_empty_is_null() {
    assert_eq!(infer_scalar(""), Value::Null);
}

#[test]
fn infer_true_literal() {
    assert_eq!(infer_scalar("true"), Value::Boolean(true));
}

#[test]
fn infer_false_literal() {
    assert_eq!(infer_scalar("false"), Value::Boolean(false));
}

#[test]
fn infer_case_sensitive_bool() {
    assert_eq!(infer_scalar("True"), Value::Text(String::from("True")));
}

#[test]
fn infer_integer_with_leading_zeros() {
    assert_eq!(infer_scalar("007"), Value::Integer(7));
}

#[test]
fn infer_integer_signed() {
    assert_eq!(infer_scalar("-42"), Value::Integer(-42));
    assert_eq!(infer_scalar("+42"), Value::Integer(42));
}

#[test]
fn infer_integer_extremes() {
    assert_eq!(
        infer_scalar("9223372036854775807"),
        Value::Integer(i64::MAX)
    );
    assert_eq!(
        infer_scalar("-9223372036854775808"),
        Value::Integer(i64::MIN)
    );
}

#[test]
fn infer_float_simple() {
    assert_eq!(infer_scalar("3.14"), Value::Float(String::from("3.14")));
}

#[test]
fn infer_float_integral_keeps_point() {
    assert_eq!(infer_scalar("50.0"), Value::Float(String::from("50.0")));
}

#[test]
fn infer_float_exponent() {
    assert_eq!(infer_scalar("1e2"), Value::Float(String::from("100.0")));
}

#[test]
fn infer_not_a_number_stays_text() {
    assert_eq!(
        infer_scalar("3.14.1"),
        Value::Text(String::from("3.14.1"))
    );
}

#[test]
fn infer_overflowing_integer_becomes_float_text() {
    // Just past i64::MAX: no longer an integer, still a finite number.
    assert_eq!(
        infer_scalar("9223372036854775808"),
        Value::Float(String::from("9223372036854775808"))
    );
}

#[test]
fn infer_huge_magnitude_stays_text() {
    // Overflows a finite 64-bit float entirely.
    assert_eq!(infer_scalar("1e999"), Value::Text(String::from("1e999")));
}

#[test]
fn infer_untrimmed_number_stays_text() {
    assert_eq!(infer_scalar(" 42 "), Value::Text(String::from(" 42 ")));
}

#[test]
fn float_reinference_is_stable() {
    // A float's stored text infers back to the same float.
    let first = infer_scalar("2.5");
    match &first {
        Value::Float(t) => assert_eq!(infer_scalar(t), first),
        other => panic!("expected a float, got {other:?}"),
    }
}

#[test]
fn infer_bare_leading_point() {
    assert_eq!(infer_scalar(".5"), Value::Float(String::from("0.5")));
}

#[test]
fn infer_bare_trailing_point() {
    assert_eq!(infer_scalar("5."), Value::Float(String::from("5.0")));
}

#[test]
fn infer_plus_signed_float() {
    assert_eq!(infer_scalar("+1.5"), Value::Float(String::from("1.5")));
}

#[test]
fn infer_leading_zeroes_float() {
    assert_eq!(infer_scalar("00.5"), Value::Float(String::from("0.5")));
    assert_eq!(infer_scalar("-007.5"), Value::Float(String::from("-7.5")));
}

#[test]
fn infer_trailing_point_with_exponent() {
    assert_eq!(infer_scalar("5.e3"), Value::Float(String::from("5000.0")));
}

#[test]
fn infer_non_finite_words_stay_text() {
    assert_eq!(infer_scalar("inf"), Value::Text(String::from("inf")));
    assert_eq!(infer_scalar("NaN"), Value::Text(String::from("NaN")));
    assert_eq!(infer_scalar("-infinity"), Value::Text(String::from("-infinity")));
}
