//! The record byte format: every decoder inverts its encoder.

use valentinus::codec::{
    decode_matrix, decode_meta_list, decode_string, decode_string_list, decode_u32, decode_u64,
    encode_matrix, encode_meta_list, encode_str, encode_str_list, encode_u32, encode_u64,
    u64_to_be_bytes_vec,
};

#[test]
fn big_endian_sub_key_bytes() {
    assert_eq!(u64_to_be_bytes_vec(0), vec![0u8; 8]);
    assert_eq!(
        u64_to_be_bytes_vec(1),
        vec![0u8, 0, 0, 0, 0, 0, 0, 1]
    );
    assert_eq!(
        u64_to_be_bytes_vec(0x0102030405060708),
        vec![1u8, 2, 3, 4, 5, 6, 7, 8]
    );
}

#[test]
fn u64_round_trip() {
    let mut b: Vec<u8> = Vec::new();
    encode_u64(&mut b, 0);
    encode_u64(&mut b, 123456789);
    encode_u64(&mut b, u64::MAX);
    let (x0, p0) = decode_u64(&b, 0).unwrap();
    let (x1, p1) = decode_u64(&b, p0).unwrap();
    let (x2, p2) = decode_u64(&b, p1).unwrap();
    assert_eq!((x0, x1, x2), (0, 123456789, u64::MAX));
    assert_eq!(p2, b.len());
    assert!(decode_u64(&b, p2).is_none());
}

#[test]
fn u32_round_trip() {
    let mut b: Vec<u8> = Vec::new();
    encode_u32(&mut b, 7);
    encode_u32(&mut b, u32::MAX);
    let (x0, p0) = decode_u32(&b, 0).unwrap();
    let (x1, p1) = decode_u32(&b, p0).unwrap();
    assert_eq!((x0, x1), (7, u32::MAX));
    assert_eq!(p1, b.len());
}

#[test]
fn string_round_trip() {
    let mut b: Vec<u8> = Vec::new();
    encode_str(&mut b, "hello world");
    encode_str(&mut b, "");
    encode_str(&mut b, "ünïcødé ✓");
    let (s0, p0) = decode_string(&b, 0).unwrap();
    let (s1, p1) = decode_string(&b, p0).unwrap();
    let (s2, p2) = decode_string(&b, p1).unwrap();
    assert_eq!(s0, "hello world");
    assert_eq!(s1, "");
    assert_eq!(s2, "ünïcødé ✓");
    assert_eq!(p2, b.len());
}

#[test]
fn string_list_round_trip() {
    let vs: Vec<String> = vec!["a".into(), "".into(), "long entry".into()];
    let mut b: Vec<u8> = Vec::new();
    encode_str_list(&mut b, &vs);
    let (out, p) = decode_string_list(&b, 0).unwrap();
    assert_eq!(out, vs);
    assert_eq!(p, b.len());
}

#[test]
fn matrix_round_trip() {
    let m: Vec<Vec<u32>> = vec![vec![1, 2, 3], vec![4, 5, 6]];
    let mut b: Vec<u8> = Vec::new();
    encode_matrix(&mut b, &m);
    let (out, p) = decode_matrix(&b, 0).unwrap();
    assert_eq!(out, m);
    assert_eq!(p, b.len());
    let empty: Vec<Vec<u32>> = Vec::new();
    let mut b2: Vec<u8> = Vec::new();
    encode_matrix(&mut b2, &empty);
    let (out2, _) = decode_matrix(&b2, 0).unwrap();
    assert!(out2.is_empty());
}

#[test]
fn meta_list_round_trip() {
    let m: Vec<Vec<String>> = vec![
        vec!["{\"Year\": 2017}".into(), "{\"Rating\": 5}".into()],
        vec![],
    ];
    let mut b: Vec<u8> = Vec::new();
    encode_meta_list(&mut b, &m);
    let (out, p) = decode_meta_list(&b, 0).unwrap();
    assert_eq!(out, m);
    assert_eq!(p, b.len());
}

#[test]
fn truncated_buffers_fail() {
    let mut b: Vec<u8> = Vec::new();
    encode_str(&mut b, "hello");
    b.truncate(b.len() - 1);
    assert!(decode_string(&b, 0).is_none());
    let empty: Vec<u8> = Vec::new();
    assert!(decode_u64(&empty, 0).is_none());
    assert!(decode_string_list(&empty, 0).is_none());
}
