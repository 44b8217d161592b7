//! The metadata filter language against concrete documents.

use valentinus::filter::{
    filter_where, process_i64_filter, process_string_array_filter, process_string_filter,
    process_u64_filter, FilterOperations, MetadataFilter,
};

fn v(items: &[&str]) -> Vec<String> {
    items.iter().map(|s| String::from(*s)).collect()
}

#[test]
fn where_clause_year_eq_matches() {
    let f = v(&[r#"{"Year":{"eq":2017}}"#]);
    let m = v(&[r#"{"Year":2017}"#, r#"{"Rating":5}"#]);
    assert!(filter_where(&f, &m));
}

#[test]
fn where_clause_year_eq_mismatch() {
    let f = v(&[r#"{"Year":{"eq":2018}}"#]);
    let m = v(&[r#"{"Year":2017}"#, r#"{"Rating":5}"#]);
    assert!(!filter_where(&f, &m));
}

#[test]
fn where_clause_rating_gt() {
    let f = v(&[r#"{"Rating":{"gt":3}}"#]);
    let m = v(&[r#"{"Year":2017}"#, r#"{"Rating":5}"#]);
    assert!(filter_where(&f, &m));
}

#[test]
fn where_clause_conjunction() {
    let m = v(&[r#"{"Year":2017}"#, r#"{"Rating":5}"#]);
    let both = v(&[r#"{"Year":{"eq":2017}}"#, r#"{"Rating":{"gt":3}}"#]);
    assert!(filter_where(&both, &m));
    let one_fails = v(&[r#"{"Year":{"eq":2017}}"#, r#"{"Rating":{"gt":9}}"#]);
    assert!(!filter_where(&one_fails, &m));
}

#[test]
fn where_clause_empty_filters_pass() {
    let m = v(&[r#"{"Year":2017}"#]);
    let none: Vec<String> = Vec::new();
    assert!(filter_where(&none, &m));
}

#[test]
fn where_clause_no_metadata_fails() {
    let f = v(&[r#"{"Year":{"eq":2017}}"#]);
    let none: Vec<String> = Vec::new();
    assert!(!filter_where(&f, &none));
}

#[test]
fn string_filter_eq() {
    assert!(process_string_filter(
        r#"{"Genre":{"eq":"rock"}}"#,
        r#"{"Genre":"rock"}"#
    ));
    assert!(!process_string_filter(
        r#"{"Genre":{"eq":"rock"}}"#,
        r#"{"Genre":"jazz"}"#
    ));
    // keys must agree
    assert!(!process_string_filter(
        r#"{"Genre":{"eq":"rock"}}"#,
        r#"{"Style":"rock"}"#
    ));
    // strings take no ordering operators
    assert!(!process_string_filter(
        r#"{"Genre":{"gt":"aaa"}}"#,
        r#"{"Genre":"bbb"}"#
    ));
}

#[test]
fn u64_filter_operators() {
    let m = r#"{"Year":2017}"#;
    assert!(process_u64_filter(r#"{"Year":{"eq":2017}}"#, m));
    assert!(!process_u64_filter(r#"{"Year":{"eq":2016}}"#, m));
    assert!(process_u64_filter(r#"{"Year":{"gt":2016}}"#, m));
    assert!(!process_u64_filter(r#"{"Year":{"gt":2017}}"#, m));
    assert!(process_u64_filter(r#"{"Year":{"gte":2017}}"#, m));
    assert!(process_u64_filter(r#"{"Year":{"lt":2018}}"#, m));
    assert!(!process_u64_filter(r#"{"Year":{"lt":2017}}"#, m));
    assert!(process_u64_filter(r#"{"Year":{"lte":2017}}"#, m));
}

#[test]
fn unknown_operator_reads_as_equality() {
    let m = r#"{"Year":2017}"#;
    assert!(process_u64_filter(r#"{"Year":{"almost":2017}}"#, m));
    assert!(!process_u64_filter(r#"{"Year":{"almost":2016}}"#, m));
}

#[test]
fn i64_filter_negative_values() {
    assert!(process_i64_filter(
        r#"{"Depth":{"lt":0}}"#,
        r#"{"Depth":-40}"#
    ));
    assert!(process_i64_filter(
        r#"{"Depth":{"gt":-100}}"#,
        r#"{"Depth":-40}"#
    ));
    assert!(!process_i64_filter(
        r#"{"Depth":{"gt":-10}}"#,
        r#"{"Depth":-40}"#
    ));
    // a signed filter also takes unsigned documents
    assert!(process_i64_filter(
        r#"{"Depth":{"gt":-10}}"#,
        r#"{"Depth":3}"#
    ));
}

#[test]
fn array_filter_membership() {
    let f = r#"{"Genre":{"in":["rock","jazz"]}}"#;
    assert!(process_string_array_filter(f, r#"{"Genre":"rock"}"#));
    assert!(process_string_array_filter(f, r#"{"Genre":"jazz"}"#));
    assert!(!process_string_array_filter(f, r#"{"Genre":"pop"}"#));
    // `in` through the whole clause
    let fs = vec![String::from(f)];
    let m = v(&[r#"{"Genre":"jazz"}"#]);
    assert!(filter_where(&fs, &m));
}

#[test]
fn parse_failures_match_nothing() {
    let m = r#"{"Year":2017}"#;
    assert!(!process_u64_filter("not json", m));
    assert!(!process_u64_filter(r#"{"Year":{"eq":20.5}}"#, m));
    assert!(!process_u64_filter(r#"{"Year":{"eq":2017}}"#, "not json"));
    // two top-level keys are outside the language
    assert!(!process_u64_filter(r#"{"Year":{"eq":2017},"X":1}"#, m));
    // a bare metadata document is no filter
    assert!(!process_u64_filter(r#"{"Year":2017}"#, m));
}

#[test]
fn create_filter_classifies_documents() {
    let mf = MetadataFilter::create_filter(r#"{"Year":{"gt":3}}"#).unwrap();
    assert!(matches!(mf.filter, FilterOperations::GreaterThan));
    assert_eq!(mf.key, "Year");
    let plain = MetadataFilter::create_filter(r#"{"Year":2017}"#).unwrap();
    assert!(matches!(plain.filter, FilterOperations::Noop));
    assert!(MetadataFilter::create_filter("{broken").is_err());
}

#[test]
fn get_enum_maps_operator_names() {
    assert!(matches!(
        FilterOperations::get_enum("eq"),
        FilterOperations::EqualTo
    ));
    assert!(matches!(
        FilterOperations::get_enum("gt"),
        FilterOperations::GreaterThan
    ));
    assert!(matches!(
        FilterOperations::get_enum("gte"),
        FilterOperations::GreaterThanEqualTo
    ));
    assert!(matches!(
        FilterOperations::get_enum("in"),
        FilterOperations::In
    ));
    assert!(matches!(
        FilterOperations::get_enum("lt"),
        FilterOperations::LessThan
    ));
    assert!(matches!(
        FilterOperations::get_enum("lte"),
        FilterOperations::LessThanEqualTo
    ));
    assert!(matches!(
        FilterOperations::get_enum("bogus"),
        FilterOperations::EqualTo
    ));
}
