//! The query engine's selection and nearest-row logic on concrete
//! scores, given as 32-bit float bit patterns.

use valentinus::query::{cosine_select, nearest_row};

fn docs(names: &[&str]) -> Vec<String> {
    names.iter().map(|s| String::from(*s)).collect()
}

fn metas(rows: &[&[&str]]) -> Vec<Vec<String>> {
    rows.iter()
        .map(|r| r.iter().map(|s| String::from(*s)).collect())
        .collect()
}

fn bits(scores: &[f32]) -> Vec<u32> {
    scores.iter().map(|s| s.to_bits()).collect()
}

#[test]
fn positive_rows_kept_in_row_order() {
    let d = docs(&["a", "b", "c", "d"]);
    let m = metas(&[&[], &[], &[], &[]]);
    let s = bits(&[0.9, -0.2, 0.4, 0.7]);
    let r = cosine_select(&d, &m, &s, 0, None);
    assert_eq!(r.get_docs(), &docs(&["a", "c", "d"]));
    assert_eq!(r.get_similarities(), &bits(&[0.9, 0.4, 0.7]));
}

#[test]
fn zero_k_returns_all_retained() {
    let d = docs(&["a", "b", "c"]);
    let m = metas(&[&[], &[], &[]]);
    let s = bits(&[0.1, 0.2, 0.3]);
    let r = cosine_select(&d, &m, &s, 0, None);
    assert_eq!(r.get_docs().len(), 3);
}

#[test]
fn k_bounds_the_result() {
    let d = docs(&["a", "b", "c"]);
    let m = metas(&[&[], &[], &[]]);
    let s = bits(&[0.1, 0.2, 0.3]);
    let r = cosine_select(&d, &m, &s, 2, None);
    assert_eq!(r.get_docs(), &docs(&["a", "b"]));
    let r1 = cosine_select(&d, &m, &s, 1, None);
    assert_eq!(r1.get_docs().len(), 1);
    assert_eq!(&r1.get_docs()[0], "a");
    assert!(f32::from_bits(r1.get_similarities()[0]) > 0.0);
    // more than retained: everything comes back
    let r9 = cosine_select(&d, &m, &s, 9, None);
    assert_eq!(r9.get_docs().len(), 3);
}

#[test]
fn empty_collection_gives_empty_result() {
    let d: Vec<String> = Vec::new();
    let m: Vec<Vec<String>> = Vec::new();
    let s: Vec<u32> = Vec::new();
    let r = cosine_select(&d, &m, &s, 5, None);
    assert!(r.get_docs().is_empty());
    assert!(r.get_similarities().is_empty());
    assert!(r.get_metadata().is_empty());
}

#[test]
fn no_filter_applies_no_filter() {
    let d = docs(&["a", "b"]);
    let m = metas(&[&[r#"{"Year":1999}"#], &[r#"{"Year":2024}"#]]);
    let s = bits(&[0.5, 0.5]);
    let r = cosine_select(&d, &m, &s, 0, None);
    assert_eq!(r.get_docs().len(), 2);
}

#[test]
fn filters_select_matching_rows() {
    let d = docs(&["old", "new"]);
    let m = metas(&[&[r#"{"Year":1999}"#], &[r#"{"Year":2024}"#]]);
    let s = bits(&[0.5, 0.5]);
    let f = vec![String::from(r#"{"Year":{"gt":2000}}"#)];
    let r = cosine_select(&d, &m, &s, 0, Some(&f));
    assert_eq!(r.get_docs(), &docs(&["new"]));
    assert_eq!(r.get_metadata()[0], vec![String::from(r#"{"Year":2024}"#)]);
}

#[test]
fn non_positive_scores_are_dropped() {
    let d = docs(&["zero", "neg", "nan", "inf"]);
    let m = metas(&[&[], &[], &[], &[]]);
    let s = bits(&[0.0, -1.0, f32::NAN, f32::INFINITY]);
    let r = cosine_select(&d, &m, &s, 0, None);
    assert_eq!(r.get_docs(), &docs(&["inf"]));
}

#[test]
fn nearest_row_finds_first_match() {
    let e: Vec<Vec<u32>> = vec![
        bits(&[1.0, 0.0]),
        bits(&[0.0, 1.0]),
        bits(&[0.0, 1.0]),
    ];
    assert_eq!(nearest_row(&e, &bits(&[0.0, 1.0])), Some(1));
    assert_eq!(nearest_row(&e, &bits(&[1.0, 0.0])), Some(0));
    assert_eq!(nearest_row(&e, &bits(&[0.5, 0.5])), None);
}

#[test]
fn nearest_row_single_row_is_zero() {
    let e: Vec<Vec<u32>> = vec![bits(&[0.3, 0.4, 0.5])];
    assert_eq!(nearest_row(&e, &bits(&[0.3, 0.4, 0.5])), Some(0));
}
