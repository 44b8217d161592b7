//! The JSON fragment parser on concrete documents.

use valentinus::json::{parse_doc, Scalar};

#[test]
fn parses_string_document() {
    let d = parse_doc(r#"{"Genre": "rock"}"#).unwrap();
    assert_eq!(d.key, "Genre");
    assert!(d.op.is_none());
    assert!(matches!(d.value, Scalar::S(ref s) if s == "rock"));
}

#[test]
fn parses_unsigned_document() {
    let d = parse_doc(r#"{"Year": 2017}"#).unwrap();
    assert_eq!(d.key, "Year");
    assert!(matches!(d.value, Scalar::U(2017)));
}

#[test]
fn parses_negative_document() {
    let d = parse_doc(r#"{"Depth": -40}"#).unwrap();
    assert!(matches!(d.value, Scalar::I(-40)));
}

#[test]
fn parses_operator_document() {
    let d = parse_doc(r#"{ "Year":   {"eq": 2017} }"#).unwrap();
    assert_eq!(d.key, "Year");
    assert_eq!(d.op.as_deref(), Some("eq"));
    assert!(matches!(d.value, Scalar::U(2017)));
}

#[test]
fn parses_array_document() {
    let d = parse_doc(r#"{"Genre": {"in": ["rock", "jazz"]}}"#).unwrap();
    assert_eq!(d.op.as_deref(), Some("in"));
    match d.value {
        Scalar::A(items) => assert_eq!(items, vec!["rock".to_string(), "jazz".to_string()]),
        _ => panic!("expected an array"),
    }
    let e = parse_doc(r#"{"Genre": {"in": []}}"#).unwrap();
    match e.value {
        Scalar::A(items) => assert!(items.is_empty()),
        _ => panic!("expected an array"),
    }
}

#[test]
fn whitespace_is_ignored() {
    let d = parse_doc("  {\t\"K\" :\n 7 }  ").unwrap();
    assert_eq!(d.key, "K");
    assert!(matches!(d.value, Scalar::U(7)));
}

#[test]
fn u64_boundaries() {
    let d = parse_doc(r#"{"N": 18446744073709551615}"#).unwrap();
    assert!(matches!(d.value, Scalar::U(u64::MAX)));
    assert!(parse_doc(r#"{"N": 18446744073709551616}"#).is_none());
    let m = parse_doc(r#"{"N": -9223372036854775808}"#).unwrap();
    assert!(matches!(m.value, Scalar::I(i64::MIN)));
    assert!(parse_doc(r#"{"N": -9223372036854775809}"#).is_none());
}

#[test]
fn fragments_outside_the_language_fail() {
    assert!(parse_doc("").is_none());
    assert!(parse_doc("42").is_none());
    assert!(parse_doc(r#"{"A":1,"B":2}"#).is_none());
    assert!(parse_doc(r#"{"A": 1.5}"#).is_none());
    assert!(parse_doc(r#"{"A": 1e3}"#).is_none());
    assert!(parse_doc(r#"{"A": true}"#).is_none());
    assert!(parse_doc(r#"{"A": "esc\"aped"}"#).is_none());
    assert!(parse_doc(r#"{"A": {"eq": {"deep": 1}}}"#).is_none());
    assert!(parse_doc(r#"{"A": 1} trailing"#).is_none());
    assert!(parse_doc(r#"{"A": 1"#).is_none());
}
