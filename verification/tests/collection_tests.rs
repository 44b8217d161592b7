//! Collection lifecycle against a real store: create, save, find,
//! list, delete.

use valentinus::embeddings::{find, EmbeddingCollection, ModelType, ValentinusError};
use valentinus::store::DatabaseEnvironment;

const MAP_SIZE: u64 = 1 << 30;

fn fresh_name(prefix: &str) -> String {
    format!("{}_{}", prefix, uuid::Uuid::new_v4().simple())
}

fn sample_docs() -> Vec<String> {
    vec!["first document".into(), "second document".into()]
}

fn sample_meta() -> Vec<Vec<String>> {
    vec![
        vec![r#"{"Year": 2017}"#.into(), r#"{"Rating": 5}"#.into()],
        vec![r#"{"Year": 2020}"#.into(), r#"{"Rating": 2}"#.into()],
    ]
}

fn sample_ids() -> Vec<String> {
    vec!["id0".into(), "id1".into()]
}

/// Two rows of three-wide vectors for a custom model.
fn sample_embeddings() -> Vec<Vec<u32>> {
    vec![
        vec![1.0f32.to_bits(), 0.0f32.to_bits(), 0.5f32.to_bits()],
        vec![0.0f32.to_bits(), 1.0f32.to_bits(), 0.25f32.to_bits()],
    ]
}

#[test]
fn name_validation() {
    let db = DatabaseEnvironment::open("/tmp/valentinus-db/col-names", MAP_SIZE).unwrap();
    let r = EmbeddingCollection::new(
        &db,
        sample_docs(),
        sample_meta(),
        sample_ids(),
        String::from("bad-name!"),
        ModelType::Custom,
        String::from("model-dir"),
    );
    assert!(matches!(r, Err(ValentinusError::InvalidViewName)));
    let r2 = EmbeddingCollection::new(
        &db,
        sample_docs(),
        sample_meta(),
        sample_ids(),
        String::new(),
        ModelType::Custom,
        String::from("model-dir"),
    );
    assert!(matches!(r2, Err(ValentinusError::InvalidViewName)));
}

#[test]
fn new_collection_shape() {
    let db = DatabaseEnvironment::open("/tmp/valentinus-db/col-shape", MAP_SIZE).unwrap();
    let name = fresh_name("shape");
    let c = EmbeddingCollection::new(
        &db,
        sample_docs(),
        sample_meta(),
        sample_ids(),
        name.clone(),
        ModelType::Custom,
        String::from("model-dir"),
    )
    .unwrap();
    assert_eq!(c.get_documents(), &sample_docs());
    assert_eq!(c.get_metadata(), &sample_meta());
    assert_eq!(c.get_ids(), &sample_ids());
    assert_eq!(c.get_view(), &format!("view-{}", name));
    assert!(c.get_key().starts_with("key-"));
    assert_eq!(c.get_key().len(), 40);
    assert!(c.get_embeddings().is_empty());
}

#[test]
fn save_find_delete_lifecycle() {
    let mut db = DatabaseEnvironment::open("/tmp/valentinus-db/col-cycle", MAP_SIZE).unwrap();
    let name = fresh_name("cycle");
    let mut c = EmbeddingCollection::new(
        &db,
        sample_docs(),
        sample_meta(),
        sample_ids(),
        name.clone(),
        ModelType::Custom,
        String::from("model-dir"),
    )
    .unwrap();
    let key = c.get_key().clone();
    let view = c.get_view().clone();
    c.save(&mut db, sample_embeddings()).unwrap();
    // both indexers carry the collection
    let keys = EmbeddingCollection::fetch_collection_keys(&db, false).unwrap();
    assert!(keys.get_values().contains(&key));
    let views = EmbeddingCollection::fetch_collection_keys(&db, true).unwrap();
    assert!(views.get_values().contains(&view));
    // found by key: identical documents, ids and metadata
    let by_key = find(&db, Some(key.clone()), None).unwrap();
    assert_eq!(by_key.get_documents(), &sample_docs());
    assert_eq!(by_key.get_ids(), &sample_ids());
    assert_eq!(by_key.get_metadata(), &sample_meta());
    assert_eq!(by_key.get_embeddings(), &sample_embeddings());
    // found by view: the same record
    let by_view = find(&db, None, Some(view.clone())).unwrap();
    assert_eq!(by_view.get_documents(), &sample_docs());
    assert_eq!(by_view.get_ids(), &sample_ids());
    assert_eq!(by_view.get_key(), &key);
    // a second collection with the same user name is rejected
    let dupe = EmbeddingCollection::new(
        &db,
        sample_docs(),
        sample_meta(),
        sample_ids(),
        name.clone(),
        ModelType::Custom,
        String::from("model-dir"),
    );
    assert!(matches!(dupe, Err(ValentinusError::InvalidViewName)));
    // delete: the record is gone and both indexers have lost the entries
    EmbeddingCollection::delete(&mut db, view.clone()).unwrap();
    let keys_after = EmbeddingCollection::fetch_collection_keys(&db, false).unwrap();
    assert!(!keys_after.get_values().contains(&key));
    let views_after = EmbeddingCollection::fetch_collection_keys(&db, true).unwrap();
    assert!(!views_after.get_values().contains(&view));
    let gone = find(&db, None, Some(view.clone())).unwrap();
    assert!(gone.get_key().is_empty());
    assert!(gone.get_documents().is_empty());
}

#[test]
fn save_enforces_embedding_shape() {
    let mut db = DatabaseEnvironment::open("/tmp/valentinus-db/col-embed", MAP_SIZE).unwrap();
    let name = fresh_name("shapes");
    let mut c = EmbeddingCollection::new(
        &db,
        sample_docs(),
        sample_meta(),
        sample_ids(),
        name,
        ModelType::AllMiniLmL6V2,
        String::from("model-dir"),
    )
    .unwrap();
    // the bundled model family produces 384-wide rows; 3-wide is refused
    let r = c.save(&mut db, sample_embeddings());
    assert!(matches!(r, Err(ValentinusError::OnnxError)));
    // row count must match the documents
    let r2 = c.save(&mut db, vec![vec![0.5f32.to_bits(); 384]]);
    assert!(matches!(r2, Err(ValentinusError::OnnxError)));
    // one 384-wide row per document passes
    let ok = c.save(&mut db, vec![vec![0.5f32.to_bits(); 384], vec![
        0.25f32.to_bits();
        384
    ]]);
    assert!(ok.is_ok());
    let view = c.get_view().clone();
    let found = find(&db, None, Some(view.clone())).unwrap();
    assert_eq!(found.get_embeddings().len(), 2);
    assert_eq!(found.get_embeddings()[0].len(), 384);
    EmbeddingCollection::delete(&mut db, view).unwrap();
}

#[test]
fn missing_view_reads_as_not_found() {
    let db = DatabaseEnvironment::open("/tmp/valentinus-db/col-missing", MAP_SIZE).unwrap();
    let gone = find(&db, None, Some(String::from("view-never_created_anywhere"))).unwrap();
    assert!(gone.get_key().is_empty());
    let by_key = find(&db, Some(String::from("key-none")), None).unwrap();
    assert!(by_key.get_documents().is_empty());
}
