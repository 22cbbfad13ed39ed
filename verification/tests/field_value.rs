use influxdb_line_protocol::FieldValue;

fn check(field_value: FieldValue, expected: &str) {
    let mut string = String::new();
    field_value.to_writer(&mut string).unwrap();
    assert_eq!(string, expected);
}

#[test]
fn test_float() {
    let one = format!("{}", 1.);
    check(FieldValue::Float(&one), "1");
    let large = format!("{}", -1.234456e+78);
    check(
        FieldValue::Float(&large),
        "-1234456000000000000000000000000000000000000000000000000000000000000000000000000",
    );
}

#[test]
fn test_integer() {
    check(FieldValue::Integer(1), "1i");
    check(FieldValue::Integer(12485903), "12485903i");
    check(FieldValue::Integer(-12485903), "-12485903i");
}

#[test]
fn test_uinteger() {
    check(FieldValue::UInteger(1), "1u");
    check(FieldValue::UInteger(12485903), "12485903u");
}

#[test]
fn test_string() {
    check(
        FieldValue::String(r#"this is a string"#),
        r#""this is a string""#,
    );
    check(
        FieldValue::String(r#""string" within a string"#),
        r#""\"string\" within a string""#,
    );
    check(
        FieldValue::String(r#""\"string\" within a string""#),
        r#""\"\\\"string\\\" within a string\"""#,
    );
}

#[test]
fn test_boolean() {
    check(FieldValue::Boolean(true), "true");
    check(FieldValue::Boolean(false), "false");
}

#[test]
fn integer_extremes() {
    check(FieldValue::Integer(0), "0i");
    check(FieldValue::Integer(-1), "-1i");
    check(FieldValue::Integer(9), "9i");
    check(FieldValue::Integer(10), "10i");
    check(FieldValue::Integer(i64::MAX), "9223372036854775807i");
    check(FieldValue::Integer(i64::MIN), "-9223372036854775808i");
    check(FieldValue::UInteger(0), "0u");
    check(FieldValue::UInteger(100), "100u");
    check(FieldValue::UInteger(u64::MAX), "18446744073709551615u");
}

#[test]
fn integers_match_display() {
    for v in [0i64, 5, -5, 99, 100, 101, -1000, 1234567890123, i64::MAX, i64::MIN] {
        check(FieldValue::Integer(v), &format!("{}i", v));
    }
    for v in [0u64, 7, 19, 20, 1 << 63, u64::MAX] {
        check(FieldValue::UInteger(v), &format!("{}u", v));
    }
}

#[test]
fn float_text_goes_in_as_it_is() {
    let text = format!("{}", 0.1 + 0.2);
    check(FieldValue::Float(&text), "0.30000000000000004");
    let text = format!("{}", -0.5);
    check(FieldValue::Float(&text), "-0.5");
}

#[test]
fn string_value_escapes_only_quote_and_backslash() {
    check(FieldValue::String("a,b=c d"), "\"a,b=c d\"");
    check(FieldValue::String("\\"), "\"\\\\\"");
    check(FieldValue::String("\""), "\"\\\"\"");
    check(FieldValue::String(""), "\"\"");
    check(FieldValue::String("line\nbreak"), "\"line\nbreak\"");
}

#[test]
fn value_is_appended_to_what_the_sink_holds() {
    let mut sink = String::from("k=");
    FieldValue::Integer(42).to_writer(&mut sink).unwrap();
    assert_eq!(sink, "k=42i");
}
