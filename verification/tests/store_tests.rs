//! The chunked store against a real environment on disk.

use rand::RngCore;
use valentinus::store::{write_chunks, DatabaseEnvironment, DbError};

const MAP_SIZE: u64 = 1 << 30;

#[test]
fn environment_test() {
    const MB: usize = 1000000;
    let mut db = DatabaseEnvironment::open("/tmp/valentinus-db/10-mb-test", MAP_SIZE).unwrap();
    const DATA_SIZE_10MB: usize = 10000000;
    println!("creating {} MB of data", DATA_SIZE_10MB / MB);
    let mut data = vec![0u8; DATA_SIZE_10MB];
    rand::thread_rng().fill_bytes(&mut data);
    println!("finished creating {} MB of data", DATA_SIZE_10MB / MB);
    let k = "test-key".as_bytes();
    db.delete(&Vec::from(k)).unwrap();
    let expected = &data.to_vec();
    println!("writing {} MB of data", DATA_SIZE_10MB / MB);
    write_chunks(&mut db, &Vec::from(k), &Vec::from(data)).unwrap();
    println!("finished writing {} MB of data", DATA_SIZE_10MB / MB);
    let actual = db.read(&Vec::from(k)).unwrap();
    assert_eq!(expected.to_vec(), actual);
    db.delete(&Vec::from(k)).unwrap();
    let mut db = DatabaseEnvironment::open("/tmp/valentinus-db/100-mb-test", MAP_SIZE).unwrap();
    const DATA_SIZE_100MB: usize = 100000000;
    println!("creating {} MB of data", DATA_SIZE_100MB / MB);
    let mut data = vec![0u8; DATA_SIZE_100MB];
    rand::thread_rng().fill_bytes(&mut data);
    println!("finished creating {} MB of data", DATA_SIZE_100MB / MB);
    let k = "test-key".as_bytes();
    db.delete(&Vec::from(k)).unwrap();
    let expected = &data.to_vec();
    println!("writing {} MB of data", DATA_SIZE_100MB / MB);
    write_chunks(&mut db, &Vec::from(k), &Vec::from(data)).unwrap();
    println!("finished writing {} MB of data", DATA_SIZE_100MB / MB);
    let actual = db.read(&Vec::from(k)).unwrap();
    assert_eq!(expected.to_vec(), actual);
    db.delete(&Vec::from(k)).unwrap();
}

#[test]
fn chunk_round_trip_and_delete() {
    let mut db =
        DatabaseEnvironment::open("/tmp/valentinus-db/small-round-trip", MAP_SIZE).unwrap();
    let k: Vec<u8> = Vec::from("round-trip-key".as_bytes());
    db.delete(&k).unwrap();
    // a value spanning several chunks: 150000 bytes over 65536-byte chunks
    let v: Vec<u8> = (0..150000u32).map(|i| (i % 251) as u8).collect();
    write_chunks(&mut db, &k, &v).unwrap();
    let back = db.read(&k).unwrap();
    assert_eq!(back, v);
    // the store is non-overwriting: a second write without delete fails
    let e = write_chunks(&mut db, &k, &v);
    assert!(matches!(
        e,
        Err(DbError::Backend(kn0sys_lmdb_rs::MdbError::KeyExists))
    ));
    // after the rejected write the stored value is unchanged
    assert_eq!(db.read(&k).unwrap(), v);
    // delete, then a re-read yields the empty value
    db.delete(&k).unwrap();
    assert_eq!(db.read(&k).unwrap(), Vec::<u8>::new());
    // and the key may be written again
    write_chunks(&mut db, &k, &v).unwrap();
    assert_eq!(db.read(&k).unwrap(), v);
    db.delete(&k).unwrap();
}

#[test]
fn empty_key_and_empty_value() {
    let mut db = DatabaseEnvironment::open("/tmp/valentinus-db/edge-cases", MAP_SIZE).unwrap();
    let empty_key: Vec<u8> = Vec::new();
    // reads of the empty key yield the empty value
    assert_eq!(db.read(&empty_key).unwrap(), Vec::<u8>::new());
    // writes under the empty key are rejected
    let e = write_chunks(&mut db, &empty_key, &vec![1u8, 2, 3]);
    assert!(matches!(e, Err(DbError::EmptyKey)));
    // an empty value writes no chunks and reads back empty
    let k: Vec<u8> = Vec::from("empty-value-key".as_bytes());
    db.delete(&k).unwrap();
    write_chunks(&mut db, &k, &Vec::new()).unwrap();
    assert_eq!(db.read(&k).unwrap(), Vec::<u8>::new());
}
