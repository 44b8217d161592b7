//! Collections of documents with per-row metadata and embeddings, their
//! binary record format, and their lifecycle against the store: create,
//! save, find, list, delete.

use vstd::prelude::*;
use vstd::utf8::encode_utf8;
use crate::codec::{
    enc_str, enc_str_list, enc_matrix, enc_meta_list, dec_str, dec_str_list, dec_matrix,
    dec_meta_list, wf_str_seq, wf_matrix, wf_meta_seq, lemma_dec_enc_str, lemma_dec_enc_str_list,
    lemma_dec_enc_matrix, lemma_dec_enc_meta_list, encode_str, encode_str_list, encode_matrix,
    encode_meta_list, decode_string, decode_string_list, decode_matrix, decode_meta_list,
};

verus! {

/// Identifier for model used with the collection.
#[derive(Clone, Copy, PartialEq, Eq, Structural, Debug)]
pub enum ModelType {
    /// AllMiniLmL12V2 model
    AllMiniLmL12V2,
    /// AllMiniLmL6V2 model
    AllMiniLmL6V2,
    /// You can also use any model you like
    Custom,
}

impl Default for ModelType {
    fn default() -> (r: ModelType)
        ensures
            r == ModelType::AllMiniLmL6V2,
    {
        ModelType::AllMiniLmL6V2
    }
}

/// The embedding width each model family produces; the width of a
/// custom model is whatever its runtime configuration says.
pub open spec fn model_dims(mt: ModelType, custom: nat) -> nat {
    match mt {
        ModelType::Custom => custom,
        _ => 384,
    }
}

/// Use to write the vector of keys and indexes.
pub struct KeyViewIndexer {
    values: Vec<String>,
}

impl View for KeyViewIndexer {
    type V = Seq<Seq<char>>;

    closed spec fn view(&self) -> Seq<Seq<char>> {
        self.values.deep_view()
    }
}

impl Default for KeyViewIndexer {
    fn default() -> (r: KeyViewIndexer)
        ensures
            r@ == Seq::<Seq<char>>::empty(),
    {
        let r = KeyViewIndexer { values: Vec::new() };
        proof {
            assert(r@ =~= Seq::<Seq<char>>::empty());
        }
        r
    }
}

impl KeyViewIndexer {
    /// Used to create a new indexer.
    pub fn new(v: Vec<String>) -> (r: KeyViewIndexer)
        ensures
            r@ == v.deep_view(),
    {
        KeyViewIndexer { values: v }
    }

    /// Accessor for values of the indexer.
    pub fn get_values(&self) -> (r: &Vec<String>)
        ensures
            r.deep_view() == self@,
    {
        &self.values
    }
}

/// The mathematical content of a query result.
pub struct CosineResultView {
    pub documents: Seq<Seq<char>>,
    pub similarities: Seq<u32>,
    pub metadata: Seq<Seq<Seq<char>>>,
}

/// Container for the `cosine_query` results: three sequences aligned by
/// row.  A similarity is carried as the bit pattern of the score the
/// caller computed.
pub struct CosineQueryResult {
    documents: Vec<String>,
    similarities: Vec<u32>,
    metadata: Vec<Vec<String>>,
}

impl View for CosineQueryResult {
    type V = CosineResultView;

    closed spec fn view(&self) -> CosineResultView {
        CosineResultView {
            documents: self.documents.deep_view(),
            similarities: self.similarities@,
            metadata: self.metadata.deep_view(),
        }
    }
}

impl CosineQueryResult {
    /// Used to create a result from `cosine_query`.
    pub fn create(documents: Vec<String>, similarities: Vec<u32>, metadata: Vec<Vec<String>>) -> (r:
        CosineQueryResult)
        ensures
            r@.documents == documents.deep_view(),
            r@.similarities == similarities@,
            r@.metadata == metadata.deep_view(),
    {
        CosineQueryResult { documents, similarities, metadata }
    }

    /// Get documents from a query result.
    pub fn get_docs(&self) -> (r: &Vec<String>)
        ensures
            r.deep_view() == self@.documents,
    {
        &self.documents
    }

    /// Get similarities from a query result.
    pub fn get_similarities(&self) -> (r: &Vec<u32>)
        ensures
            r@ == self@.similarities,
    {
        &self.similarities
    }

    /// Get metadata from a query result.
    pub fn get_metadata(&self) -> (r: &Vec<Vec<String>>)
        ensures
            r.deep_view() == self@.metadata,
    {
        &self.metadata
    }
}

/// Error handling enum for valentinus.
#[derive(Debug)]
pub enum ValentinusError {
    /// Record bytes that did not decode.
    BincodeError,
    /// Cosine query failure.
    CosineError,
    /// Store error.
    DatabaseError(crate::store::DbError),
    /// View name must contain alphanumerics, underscores and be unique.
    InvalidViewName,
    /// Failure to filter metadata.
    Md2fsError,
    /// Failure in nearest query.
    NearestError,
    /// Failure to generate embeddings.
    OnnxError,
    /// Failure to save new collection to the database.
    SaveError,
    /// Error in testing.
    TestError,
}

/// The mathematical content of a collection record.
pub struct CollectionView {
    pub documents: Seq<Seq<char>>,
    pub embeddings: Seq<Seq<u32>>,
    pub metadata: Seq<Seq<Seq<char>>>,
    pub model_path: Seq<char>,
    pub model_type: ModelType,
    pub ids: Seq<Seq<char>>,
    pub key: Seq<char>,
    pub view: Seq<char>,
}

/// Want to write a collection to the db?
///
/// Look no further. Use `EmbeddingCollection::new()`
///
/// to create a new EmbeddingCollection. Write it to the
///
/// database with `EmbeddingCollection::save()`.
pub struct EmbeddingCollection {
    /// Ideally an array of &str slices mapped to a vector.
    documents: Vec<String>,
    /// What separates us from the other dbs.  Embeddings are set when
    /// saving; each row holds the bit patterns of one vector.
    embeddings: Vec<Vec<u32>>,
    /// Metadata documents mapped to their respective document by index.
    metadata: Vec<Vec<String>>,
    /// Path to model.onnx and tokenizer.json.
    model_path: String,
    /// Model type.
    model_type: ModelType,
    /// Ids for each document.
    ids: Vec<String>,
    /// Key for the collection itself.  Keys are recorded as `keys`.
    key: String,
    /// View name for convenience sake.  Lookup is recorded in `views`.
    view: String,
}

impl View for EmbeddingCollection {
    type V = CollectionView;

    closed spec fn view(&self) -> CollectionView {
        CollectionView {
            documents: self.documents.deep_view(),
            embeddings: self.embeddings.deep_view(),
            metadata: self.metadata.deep_view(),
            model_path: self.model_path@,
            model_type: self.model_type,
            ids: self.ids.deep_view(),
            key: self.key@,
            view: self.view@,
        }
    }
}

impl Default for EmbeddingCollection {
    fn default() -> (r: EmbeddingCollection)
        ensures
            r@ == empty_collection_view(),
    {
        let r = EmbeddingCollection {
            documents: Vec::new(),
            embeddings: Vec::new(),
            metadata: Vec::new(),
            model_path: String::new(),
            model_type: ModelType::AllMiniLmL6V2,
            ids: Vec::new(),
            key: String::new(),
            view: String::new(),
        };
        proof {
            assert(r.documents.deep_view() =~= Seq::<Seq<char>>::empty());
            assert(r.embeddings.deep_view() =~= Seq::<Seq<u32>>::empty());
            assert(r.metadata.deep_view() =~= Seq::<Seq<Seq<char>>>::empty());
            assert(r.ids.deep_view() =~= Seq::<Seq<char>>::empty());
        }
        r
    }
}

/// The empty collection, which a failed or missing lookup yields.
pub open spec fn empty_collection_view() -> CollectionView {
    CollectionView {
        documents: Seq::empty(),
        embeddings: Seq::empty(),
        metadata: Seq::empty(),
        model_path: Seq::empty(),
        model_type: ModelType::AllMiniLmL6V2,
        ids: Seq::empty(),
        key: Seq::empty(),
        view: Seq::empty(),
    }
}

// ---------------------------------------------------------------------------
// The collection record format.
// ---------------------------------------------------------------------------

pub open spec fn model_tag(mt: ModelType) -> u8 {
    match mt {
        ModelType::AllMiniLmL12V2 => 0,
        ModelType::AllMiniLmL6V2 => 1,
        ModelType::Custom => 2,
    }
}

pub open spec fn enc_model(mt: ModelType) -> Seq<u8> {
    seq![model_tag(mt)]
}

pub open spec fn dec_model(b: Seq<u8>, pos: int) -> Option<(ModelType, int)> {
    if 0 <= pos < b.len() {
        if b[pos] == 0 {
            Some((ModelType::AllMiniLmL12V2, pos + 1))
        } else if b[pos] == 1 {
            Some((ModelType::AllMiniLmL6V2, pos + 1))
        } else if b[pos] == 2 {
            Some((ModelType::Custom, pos + 1))
        } else {
            None
        }
    } else {
        None
    }
}

/// The serialized collection record: all fields in order.
pub open spec fn enc_collection(v: CollectionView) -> Seq<u8> {
    enc_str_list(v.documents) + enc_matrix(v.embeddings) + enc_meta_list(v.metadata) + enc_str(
        v.model_path,
    ) + enc_model(v.model_type) + enc_str_list(v.ids) + enc_str(v.key) + enc_str(v.view)
}

/// Decoding a collection record: all fields in order, consuming the
/// whole buffer.
#[verifier::opaque]
pub open spec fn dec_collection(b: Seq<u8>) -> Option<CollectionView> {
    match dec_str_list(b, 0) {
        None => None,
        Some((documents, p1)) => match dec_matrix(b, p1) {
            None => None,
            Some((embeddings, p2)) => match dec_meta_list(b, p2) {
                None => None,
                Some((metadata, p3)) => match dec_str(b, p3) {
                    None => None,
                    Some((model_path, p4)) => match dec_model(b, p4) {
                        None => None,
                        Some((model_type, p5)) => match dec_str_list(b, p5) {
                            None => None,
                            Some((ids, p6)) => match dec_str(b, p6) {
                                None => None,
                                Some((key, p7)) => match dec_str(b, p7) {
                                    None => None,
                                    Some((view, p8)) => if p8 == b.len() {
                                        Some(
                                            CollectionView {
                                                documents,
                                                embeddings,
                                                metadata,
                                                model_path,
                                                model_type,
                                                ids,
                                                key,
                                                view,
                                            },
                                        )
                                    } else {
                                        None
                                    },
                                },
                            },
                        },
                    },
                },
            },
        },
    }
}

/// The records this format can carry: every length fits its prefix.
pub open spec fn wf_collection_view(v: CollectionView) -> bool {
    &&& wf_str_seq(v.documents)
    &&& wf_matrix(v.embeddings)
    &&& wf_meta_seq(v.metadata)
    &&& encode_utf8(v.model_path).len() <= u64::MAX
    &&& wf_str_seq(v.ids)
    &&& encode_utf8(v.key).len() <= u64::MAX
    &&& encode_utf8(v.view).len() <= u64::MAX
}

} // verus!

verus! {

/// Decoding an encoded collection record yields it back.
pub proof fn lemma_dec_enc_collection(v: CollectionView)
    requires
        wf_collection_view(v),
    ensures
        dec_collection(enc_collection(v)) == Some(v),
{
    reveal(dec_collection);
    let b = enc_collection(v);
    let e1 = enc_str_list(v.documents);
    let e2 = enc_matrix(v.embeddings);
    let e3 = enc_meta_list(v.metadata);
    let e4 = enc_str(v.model_path);
    let e5 = enc_model(v.model_type);
    let e6 = enc_str_list(v.ids);
    let e7 = enc_str(v.key);
    let e8 = enc_str(v.view);
    let p1 = e1.len() as int;
    let p2 = p1 + e2.len();
    let p3 = p2 + e3.len();
    let p4 = p3 + e4.len();
    let p5 = p4 + e5.len();
    let p6 = p5 + e6.len();
    let p7 = p6 + e7.len();
    let p8 = p7 + e8.len();
    assert(b.len() == p8);
    assert(b.subrange(0, p1) =~= e1);
    assert(b.subrange(p1, p2) =~= e2);
    assert(b.subrange(p2, p3) =~= e3);
    assert(b.subrange(p3, p4) =~= e4);
    assert(b.subrange(p4, p5) =~= e5);
    assert(b.subrange(p5, p6) =~= e6);
    assert(b.subrange(p6, p7) =~= e7);
    assert(b.subrange(p7, p8) =~= e8);
    lemma_dec_enc_str_list(b, 0, v.documents);
    lemma_dec_enc_matrix(b, p1, v.embeddings);
    lemma_dec_enc_meta_list(b, p2, v.metadata);
    lemma_dec_enc_str(b, p3, v.model_path);
    assert(b[p4] == model_tag(v.model_type));
    assert(dec_model(b, p4) == Some((v.model_type, p4 + 1)));
    lemma_dec_enc_str_list(b, p5, v.ids);
    lemma_dec_enc_str(b, p6, v.key);
    lemma_dec_enc_str(b, p7, v.view);
}

impl EmbeddingCollection {
    /// Serialize the whole record to bytes.
    fn encode_record(&self) -> (r: Vec<u8>)
        ensures
            r@ == enc_collection(self@),
            wf_collection_view(self@),
    {
        let mut out: Vec<u8> = Vec::new();
        encode_str_list(&mut out, &self.documents);
        encode_matrix(&mut out, &self.embeddings);
        encode_meta_list(&mut out, &self.metadata);
        encode_str(&mut out, self.model_path.as_str());
        out.push(match self.model_type {
            ModelType::AllMiniLmL12V2 => 0u8,
            ModelType::AllMiniLmL6V2 => 1u8,
            ModelType::Custom => 2u8,
        });
        encode_str_list(&mut out, &self.ids);
        encode_str(&mut out, self.key.as_str());
        encode_str(&mut out, self.view.as_str());
        proof {
            assert(out@ =~= enc_collection(self@));
        }
        out
    }

    /// Deserialize a record from bytes.
    fn decode_record(b: &Vec<u8>) -> (r: Option<EmbeddingCollection>)
        ensures
            match dec_collection(b@) {
                Some(v) => r matches Some(c) && c@ == v,
                None => r is None,
            },
    {
        proof {
            reveal(dec_collection);
        }
        let (documents, p1) = match decode_string_list(b, 0) {
            Some(x) => x,
            None => {
                return None;
            },
        };
        let (embeddings, p2) = match decode_matrix(b, p1) {
            Some(x) => x,
            None => {
                return None;
            },
        };
        let (metadata, p3) = match decode_meta_list(b, p2) {
            Some(x) => x,
            None => {
                return None;
            },
        };
        let (model_path, p4) = match decode_string(b, p3) {
            Some(x) => x,
            None => {
                return None;
            },
        };
        if p4 >= b.len() {
            return None;
        }
        let tag = b[p4];
        let model_type = if tag == 0 {
            ModelType::AllMiniLmL12V2
        } else if tag == 1 {
            ModelType::AllMiniLmL6V2
        } else if tag == 2 {
            ModelType::Custom
        } else {
            return None;
        };
        let p5 = p4 + 1;
        let (ids, p6) = match decode_string_list(b, p5) {
            Some(x) => x,
            None => {
                return None;
            },
        };
        let (key, p7) = match decode_string(b, p6) {
            Some(x) => x,
            None => {
                return None;
            },
        };
        let (view, p8) = match decode_string(b, p7) {
            Some(x) => x,
            None => {
                return None;
            },
        };
        if p8 != b.len() {
            return None;
        }
        Some(
            EmbeddingCollection {
                documents,
                embeddings,
                metadata,
                model_path,
                model_type,
                ids,
                key,
                view,
            },
        )
    }
}

} // verus!

verus! {

// ---------------------------------------------------------------------------
// Well-known store keys.
// ---------------------------------------------------------------------------

/// UTF-8 encoding of a nonempty string is nonempty.
pub proof fn lemma_utf8_nonempty(s: Seq<char>)
    requires
        s.len() > 0,
    ensures
        encode_utf8(s).len() > 0,
{
    assert(encode_utf8(s) == vstd::utf8::encode_scalar(s[0] as u32) + encode_utf8(s.drop_first()));
    assert(vstd::utf8::encode_scalar(s[0] as u32).len() > 0);
}

/// The byte key under which all collection keys are indexed.
pub open spec fn keys_key() -> Seq<u8> {
    encode_utf8("keys"@)
}

/// The byte key under which all collection views are indexed.
pub open spec fn views_key() -> Seq<u8> {
    encode_utf8("views"@)
}

/// The reverse-index byte key resolving a view to its collection key.
pub open spec fn kv_key(view: Seq<char>) -> Seq<u8> {
    encode_utf8("key-"@ + view)
}

fn keys_key_vec() -> (r: Vec<u8>)
    ensures
        r@ == keys_key(),
{
    "keys".as_bytes_vec()
}

fn views_key_vec() -> (r: Vec<u8>)
    ensures
        r@ == views_key(),
{
    "views".as_bytes_vec()
}

fn kv_key_vec(view: &str) -> (r: Vec<u8>)
    ensures
        r@ == kv_key(view@),
{
    let mut s = String::from_str("key-");
    s.append(view);
    s.as_str().as_bytes_vec()
}

// ---------------------------------------------------------------------------
// Indexers in the store.
// ---------------------------------------------------------------------------

/// The values of the indexer stored under `k`: the decoded string list,
/// or nothing where the bytes do not decode.
pub open spec fn indexer_values(m: Map<Seq<u8>, Seq<u8>>, k: Seq<u8>) -> Seq<Seq<char>> {
    let bytes = crate::store::stored_bytes(m, k);
    match dec_str_list(bytes, 0) {
        Some((vs, p)) => if p == bytes.len() {
            vs
        } else {
            Seq::empty()
        },
        None => Seq::empty(),
    }
}

/// Read and decode the indexer stored under `k`.
fn read_indexer_values(db: &crate::store::DatabaseEnvironment, k: &Vec<u8>) -> (r: Result<
    Vec<String>,
    crate::store::DbError,
>)
    ensures
        r matches Ok(vs) ==> k@.len() > 0 ==> vs.deep_view() == indexer_values(
            crate::store::store_map(*db),
            k@,
        ),
{
    let bytes = match db.read(k) {
        Ok(b) => b,
        Err(e) => {
            return Err(e);
        },
    };
    match decode_string_list(&bytes, 0) {
        Some((vs, p)) => {
            if p == bytes.len() {
                Ok(vs)
            } else {
                let empty: Vec<String> = Vec::new();
                proof {
                    assert(empty.deep_view() =~= Seq::<Seq<char>>::empty());
                }
                Ok(empty)
            }
        },
        None => {
            let empty: Vec<String> = Vec::new();
            proof {
                assert(empty.deep_view() =~= Seq::<Seq<char>>::empty());
            }
            Ok(empty)
        },
    }
}

/// Serialize indexer values.
fn encode_indexer(vs: &Vec<String>) -> (r: Vec<u8>)
    ensures
        r@ == enc_str_list(vs.deep_view()),
        wf_str_seq(vs.deep_view()),
{
    let mut out: Vec<u8> = Vec::new();
    encode_str_list(&mut out, vs);
    proof {
        assert(out@ =~= enc_str_list(vs.deep_view()));
    }
    out
}

// ---------------------------------------------------------------------------
// Lookups.
// ---------------------------------------------------------------------------

/// The collection a byte value decodes to; a value that does not decode
/// (the empty value of a missing key above all) reads as the empty
/// collection, which callers treat as "not found".
pub open spec fn decoded_or_empty(bytes: Seq<u8>) -> CollectionView {
    match dec_collection(bytes) {
        Some(v) => v,
        None => empty_collection_view(),
    }
}

/// What `find` returns for a direct key lookup.
pub open spec fn find_by_key(m: Map<Seq<u8>, Seq<u8>>, key: Seq<char>) -> CollectionView {
    let kb = encode_utf8(key);
    let bytes = if kb.len() == 0 {
        Seq::<u8>::empty()
    } else {
        crate::store::stored_bytes(m, kb)
    };
    decoded_or_empty(bytes)
}

/// What `find` returns for a view lookup: the reverse index resolves
/// the view to the collection key, which is then read directly.
pub open spec fn find_by_view(m: Map<Seq<u8>, Seq<u8>>, view: Seq<char>) -> CollectionView {
    let kb = crate::store::stored_bytes(m, kv_key(view));
    let bytes = if kb.len() == 0 {
        Seq::<u8>::empty()
    } else {
        crate::store::stored_bytes(m, kb)
    };
    decoded_or_empty(bytes)
}

/// Look up a collection by key or view.  If both key and view are
/// passed, then key lookup will override the latter.  A missing record
/// reads as the empty collection: treat an empty key field as "not
/// found".
pub fn find(
    db: &crate::store::DatabaseEnvironment,
    key: Option<String>,
    view: Option<String>,
) -> (r: Result<EmbeddingCollection, ValentinusError>)
    ensures
        r matches Ok(c) ==> (key matches Some(k) ==> c@ == find_by_key(
            crate::store::store_map(*db),
            k@,
        )),
        r matches Ok(c) ==> key is None ==> (view matches Some(vw) ==> c@ == find_by_view(
            crate::store::store_map(*db),
            vw@,
        )),
        r matches Err(e) ==> e is DatabaseError || e is BincodeError,
{
    if let Some(k) = key {
        let kb = k.as_str().as_bytes_vec();
        let bytes = match db.read(&kb) {
            Ok(b) => b,
            Err(e) => {
                return Err(ValentinusError::DatabaseError(e));
            },
        };
        if bytes.len() == 0 {
            proof {
                reveal(dec_collection);
                assert(dec_str_list(Seq::<u8>::empty(), 0) is None);
            }
            return Ok(EmbeddingCollection::default());
        }
        match EmbeddingCollection::decode_record(&bytes) {
            Some(c) => Ok(c),
            None => Err(ValentinusError::BincodeError),
        }
    } else {
        let s_view = match view {
            Some(v) => v,
            None => String::new(),
        };
        let kv = kv_key_vec(s_view.as_str());
        proof {
            reveal_strlit("key-");
            assert(("key-"@ + s_view@).len() >= 4);
            lemma_utf8_nonempty("key-"@ + s_view@);
        }
        let kb = match db.read(&kv) {
            Ok(b) => b,
            Err(e) => {
                return Err(ValentinusError::DatabaseError(e));
            },
        };
        let bytes = match db.read(&kb) {
            Ok(b) => b,
            Err(e) => {
                return Err(ValentinusError::DatabaseError(e));
            },
        };
        if bytes.len() == 0 {
            proof {
                reveal(dec_collection);
                assert(dec_str_list(Seq::<u8>::empty(), 0) is None);
            }
            return Ok(EmbeddingCollection::default());
        }
        match EmbeddingCollection::decode_record(&bytes) {
            Some(c) => Ok(c),
            None => Err(ValentinusError::BincodeError),
        }
    }
}

} // verus!

verus! {

/// A character of a rendered UUID: lowercase hex digit or hyphen.
pub open spec fn is_uuid_char(c: char) -> bool {
    ('0' <= c && c <= '9') || ('a' <= c && c <= 'f') || c == '-'
}

/// Relies on uuid's Uuid::new_v4 and its Display rendering: a fresh
/// random version-4 UUID shown as 36 characters of lowercase
/// hexadecimal and hyphens.  Being random, nothing more than the shape
/// holds of the result.
#[verifier::external_body]
fn new_uuid_string() -> (r: String)
    ensures
        r@.len() == 36,
        forall|i: int| 0 <= i < 36 ==> is_uuid_char(#[trigger] r@[i]),
{
    uuid::Uuid::new_v4().to_string()
}

/// The shape of a collection's primary key: `key-` followed by the
/// rendered UUID.
pub open spec fn is_key_string(s: Seq<char>) -> bool {
    &&& s.len() == 40
    &&& s.subrange(0, 4) == "key-"@
    &&& forall|i: int| 4 <= i < 40 ==> is_uuid_char(#[trigger] s[i])
}

/// Rows of embeddings fit the collection: one row per document, all of
/// one width, and the width the model family fixes.
pub open spec fn embeddings_shape_ok(mt: ModelType, ndocs: nat, e: Seq<Seq<u32>>) -> bool {
    &&& e.len() == ndocs
    &&& forall|i: int| 0 <= i < e.len() ==> (#[trigger] e[i]).len() == e[0].len()
    &&& (e.len() > 0 && mt != ModelType::Custom ==> e[0].len() == 384)
}

fn embeddings_shape_check(mt: ModelType, ndocs: usize, e: &Vec<Vec<u32>>) -> (r: bool)
    ensures
        r == embeddings_shape_ok(mt, ndocs as nat, e.deep_view()),
{
    if e.len() != ndocs {
        return false;
    }
    if e.len() == 0 {
        return true;
    }
    let width = e[0].len();
    proof {
        assert(e.deep_view()[0] == e@[0].deep_view());
        assert(e.deep_view()[0].len() == width);
    }
    if !(mt == ModelType::Custom) && width != 384 {
        return false;
    }
    let mut i: usize = 0;
    while i < e.len()
        invariant
            0 <= i <= e@.len(),
            e.deep_view().len() == e@.len() == ndocs,
            0 < e@.len(),
            width == e.deep_view()[0].len(),
            mt != ModelType::Custom ==> width == 384,
            forall|j: int| 0 <= j < i ==> (#[trigger] e.deep_view()[j]).len() == width,
        decreases e@.len() - i,
    {
        if e[i].len() != width {
            proof {
                assert(e.deep_view()[i as int] == e@[i as int].deep_view());
                assert(e.deep_view()[i as int].len() != width);
            }
            return false;
        }
        i += 1;
    }
    true
}

/// The list with its first occurrence of `x` removed.
pub open spec fn remove_first(vs: Seq<Seq<char>>, x: Seq<char>) -> Seq<Seq<char>>
    decreases vs.len(),
{
    if vs.len() == 0 {
        vs
    } else if vs[0] == x {
        vs.drop_first()
    } else {
        seq![vs[0]] + remove_first(vs.drop_first(), x)
    }
}

/// Remove the first occurrence of `x` from the list, if any.
fn remove_first_string(vs: &mut Vec<String>, x: &String)
    ensures
        final(vs).deep_view() == remove_first(old(vs).deep_view(), x@),
{
    let n = vs.len();
    let mut i: usize = 0;
    while i < n
        invariant
            n == vs@.len(),
            0 <= i <= n,
            vs.deep_view() == old(vs).deep_view(),
            forall|j: int| 0 <= j < i ==> old(vs).deep_view()[j] != x@,
        decreases n - i,
    {
        if crate::filter::str_eq(vs[i].as_str(), x.as_str()) {
            let ghost pre = vs.deep_view();
            vs.remove(i);
            proof {
                lemma_remove_first_at(pre, x@, i as int);
                assert(vs.deep_view() =~= pre.remove(i as int));
            }
            return;
        }
        i += 1;
    }
    proof {
        lemma_remove_first_absent(vs.deep_view(), x@);
    }
}

/// Where the first occurrence sits at `i`, removal drops index `i`.
proof fn lemma_remove_first_at(vs: Seq<Seq<char>>, x: Seq<char>, i: int)
    requires
        0 <= i < vs.len(),
        vs[i] == x,
        forall|j: int| 0 <= j < i ==> vs[j] != x,
    ensures
        remove_first(vs, x) == vs.remove(i),
    decreases i,
{
    if i == 0 {
        assert(remove_first(vs, x) == vs.drop_first());
        assert(vs.drop_first() =~= vs.remove(0));
    } else {
        assert(vs[0] != x);
        lemma_remove_first_at(vs.drop_first(), x, i - 1);
        assert(seq![vs[0]] + vs.drop_first().remove(i - 1) =~= vs.remove(i));
    }
}

/// Where `x` does not occur, removal changes nothing.
proof fn lemma_remove_first_absent(vs: Seq<Seq<char>>, x: Seq<char>)
    requires
        forall|j: int| 0 <= j < vs.len() ==> vs[j] != x,
    ensures
        remove_first(vs, x) == vs,
    decreases vs.len(),
{
    if vs.len() > 0 {
        lemma_remove_first_absent(vs.drop_first(), x);
        assert(seq![vs[0]] + vs.drop_first() =~= vs);
    }
}

impl EmbeddingCollection {
    /// Create a new collection of unstructured data.  Must be saved
    /// with the `save` method.  The name must be alphanumerics and
    /// underscores, and not collide with a saved view.
    pub fn new(
        db: &crate::store::DatabaseEnvironment,
        documents: Vec<String>,
        metadata: Vec<Vec<String>>,
        ids: Vec<String>,
        name: String,
        model_type: ModelType,
        model_path: String,
    ) -> (r: Result<EmbeddingCollection, ValentinusError>)
        ensures
            !crate::is_valid_view_name(name@) ==> (r matches Err(e) && e is InvalidViewName),
            (r matches Err(e) && e is InvalidViewName) ==> (!crate::is_valid_view_name(name@)
                || indexer_values(crate::store::store_map(*db), views_key()).contains(
                "view-"@ + name@,
            )),
            r matches Ok(c) ==> {
                &&& crate::is_valid_view_name(name@)
                &&& !indexer_values(crate::store::store_map(*db), views_key()).contains(
                    "view-"@ + name@,
                )
                &&& c@.documents == documents.deep_view()
                &&& c@.metadata == metadata.deep_view()
                &&& c@.ids == ids.deep_view()
                &&& c@.model_path == model_path@
                &&& c@.model_type == model_type
                &&& c@.view == "view-"@ + name@
                &&& c@.embeddings == Seq::<Seq<u32>>::empty()
                &&& is_key_string(c@.key)
            },
            r matches Err(e) ==> e is InvalidViewName || e is DatabaseError,
            crate::is_valid_view_name(name@) && !indexer_values(
                crate::store::store_map(*db),
                views_key(),
            ).contains("view-"@ + name@) ==> (r matches Err(e) ==> e is DatabaseError),
    {
        if !crate::valid_view_name(name.as_str()) {
            return Err(ValentinusError::InvalidViewName);
        }
        // check if the views name is unique
        let views_lookup = views_key_vec();
        proof {
            reveal_strlit("views");
            lemma_utf8_nonempty("views"@);
        }
        let views = match read_indexer_values(db, &views_lookup) {
            Ok(v) => v,
            Err(e) => {
                return Err(ValentinusError::DatabaseError(e));
            },
        };
        let mut view = String::from_str("view-");
        view.append(name.as_str());
        if crate::filter::contains_string(&views, &view) {
            return Err(ValentinusError::InvalidViewName);
        }
        let id = new_uuid_string();
        let mut key = String::from_str("key-");
        key.append(id.as_str());
        proof {
            reveal_strlit("key-");
            assert(key@.subrange(0, 4) =~= "key-"@);
            assert(forall|i: int| 4 <= i < 40 ==> key@[i] == id@[i - 4]);
        }
        let empty_embeddings: Vec<Vec<u32>> = Vec::new();
        let c = EmbeddingCollection {
            documents,
            embeddings: empty_embeddings,
            metadata,
            model_path,
            model_type,
            ids,
            key,
            view,
        };
        proof {
            assert(c.embeddings.deep_view() =~= Seq::<Seq<u32>>::empty());
        }
        Ok(c)
    }

    /// Getter for documents.
    pub fn get_documents(&self) -> (r: &Vec<String>)
        ensures
            r.deep_view() == self@.documents,
    {
        &self.documents
    }

    /// Getter for metadata.
    pub fn get_metadata(&self) -> (r: &Vec<Vec<String>>)
        ensures
            r.deep_view() == self@.metadata,
    {
        &self.metadata
    }

    /// Getter for ids.
    pub fn get_ids(&self) -> (r: &Vec<String>)
        ensures
            r.deep_view() == self@.ids,
    {
        &self.ids
    }

    /// Getter for key.
    pub fn get_key(&self) -> (r: &String)
        ensures
            r@ == self@.key,
    {
        &self.key
    }

    /// Getter for view.
    pub fn get_view(&self) -> (r: &String)
        ensures
            r@ == self@.view,
    {
        &self.view
    }

    /// Getter for the embedding rows.
    pub fn get_embeddings(&self) -> (r: &Vec<Vec<u32>>)
        ensures
            r.deep_view() == self@.embeddings,
    {
        &self.embeddings
    }

    /// Getter for the model path.
    pub fn get_model_path(&self) -> (r: &String)
        ensures
            r@ == self@.model_path,
    {
        &self.model_path
    }

    /// Fetch all known keys or views in the database.
    ///
    /// By default the database will return keys.  Set the views
    /// argument to `true` to fetch all the views.
    pub fn fetch_collection_keys(
        db: &crate::store::DatabaseEnvironment,
        views: bool,
    ) -> (r: Result<KeyViewIndexer, ValentinusError>)
        ensures
            r matches Ok(ix) ==> ix@ == indexer_values(
                crate::store::store_map(*db),
                if views {
                    views_key()
                } else {
                    keys_key()
                },
            ),
            r matches Err(e) ==> e is DatabaseError,
    {
        let b_key = if views {
            views_key_vec()
        } else {
            keys_key_vec()
        };
        proof {
            reveal_strlit("views");
            reveal_strlit("keys");
            lemma_utf8_nonempty("views"@);
            lemma_utf8_nonempty("keys"@);
        }
        let values = match read_indexer_values(db, &b_key) {
            Ok(v) => v,
            Err(e) => {
                return Err(ValentinusError::DatabaseError(e));
            },
        };
        Ok(KeyViewIndexer::new(values))
    }
}

} // verus!

verus! {

/// The store after one collection has been saved: both indexers grown
/// and rewritten, the reverse index written, and the record chunked
/// under the key.
pub open spec fn save_stage1(m0: Map<Seq<u8>, Seq<u8>>, v: CollectionView) -> Map<Seq<u8>, Seq<u8>> {
    let new_keys = indexer_values(m0, keys_key()).push(v.key);
    crate::store::replaced_value(m0, keys_key(), enc_str_list(new_keys))
}

pub open spec fn save_stage2(m0: Map<Seq<u8>, Seq<u8>>, v: CollectionView) -> Map<Seq<u8>, Seq<u8>> {
    crate::store::write_chunks_model(
        save_stage1(m0, v),
        kv_key(v.view),
        encode_utf8(v.key),
        crate::store::spec_num_chunks(encode_utf8(v.key).len()) as int,
    )
}

pub open spec fn save_stage3(m0: Map<Seq<u8>, Seq<u8>>, v: CollectionView) -> Map<Seq<u8>, Seq<u8>> {
    let m2 = save_stage2(m0, v);
    let new_views = indexer_values(m2, views_key()).push(v.view);
    crate::store::replaced_value(m2, views_key(), enc_str_list(new_views))
}

pub open spec fn save_model(
    m0: Map<Seq<u8>, Seq<u8>>,
    v: CollectionView,
    e: Seq<Seq<u32>>,
) -> Map<Seq<u8>, Seq<u8>> {
    let saved = CollectionView { embeddings: e, ..v };
    crate::store::write_chunks_model(
        save_stage3(m0, v),
        encode_utf8(v.key),
        enc_collection(saved),
        crate::store::spec_num_chunks(enc_collection(saved).len()) as int,
    )
}

/// A store state that an interrupted save can leave behind: one of the
/// staged prefixes of `save_model`, each possibly cut short inside its
/// chunk walk.  A failed save leaves at worst an orphaned indexer or
/// reverse-index entry, which lookups treat as "not found".
pub open spec fn save_interrupted(
    m0: Map<Seq<u8>, Seq<u8>>,
    v: CollectionView,
    e: Seq<Seq<u32>>,
    m: Map<Seq<u8>, Seq<u8>>,
) -> bool {
    let kk = keys_key();
    let vk = views_key();
    let kbytes = enc_str_list(indexer_values(m0, kk).push(v.key));
    let m1r = crate::store::remove_chunks_model(m0, kk, crate::store::walk_c(m0, kk) as int);
    let m2 = save_stage2(m0, v);
    let vbytes = enc_str_list(indexer_values(m2, vk).push(v.view));
    let m3r = crate::store::remove_chunks_model(m2, vk, crate::store::walk_c(m2, vk) as int);
    let saved = CollectionView { embeddings: e, ..v };
    ||| m == m0
    ||| exists|j: u64| m == crate::store::remove_chunks_model(m0, kk, j as int)
    ||| exists|j: int| 0 <= j && m == crate::store::write_chunks_model(m1r, kk, kbytes, j)
    ||| exists|j: int|
        0 <= j && m == crate::store::write_chunks_model(
            save_stage1(m0, v),
            kv_key(v.view),
            encode_utf8(v.key),
            j,
        )
    ||| exists|j: u64| m == crate::store::remove_chunks_model(m2, vk, j as int)
    ||| exists|j: int| 0 <= j && m == crate::store::write_chunks_model(m3r, vk, vbytes, j)
    ||| exists|j: int|
        0 <= j && m == crate::store::write_chunks_model(
            save_stage3(m0, v),
            encode_utf8(v.key),
            enc_collection(saved),
            j,
        )
}

/// The store after a delete has removed the collection's record
/// chunks, before anything else.
pub open spec fn delete_record_removed(m0: Map<Seq<u8>, Seq<u8>>, view: Seq<char>) -> Map<
    Seq<u8>,
    Seq<u8>,
> {
    let key_b = encode_utf8(find_by_view(m0, view).key);
    if key_b.len() == 0 {
        m0
    } else {
        crate::store::remove_chunks_model(m0, key_b, crate::store::walk_c(m0, key_b) as int)
    }
}

/// The store after a delete has removed the collection's record and
/// reverse-index chunks, before the indexers are rewritten.
pub open spec fn delete_stage1(m0: Map<Seq<u8>, Seq<u8>>, view: Seq<char>) -> Map<Seq<u8>, Seq<u8>> {
    let m1 = delete_record_removed(m0, view);
    crate::store::remove_chunks_model(
        m1,
        kv_key(view),
        crate::store::walk_c(m1, kv_key(view)) as int,
    )
}

/// The store after a delete has additionally rewritten the keys
/// indexer without the collection's key.
pub open spec fn delete_stage2(m0: Map<Seq<u8>, Seq<u8>>, view: Seq<char>) -> Map<Seq<u8>, Seq<u8>> {
    let c = find_by_view(m0, view);
    let m2 = delete_stage1(m0, view);
    let new_keys = remove_first(indexer_values(m2, keys_key()), c.key);
    crate::store::replaced_value(m2, keys_key(), enc_str_list(new_keys))
}

/// The store after one collection has been deleted: its record and
/// reverse-index chunks removed, and both indexers rewritten without
/// its entries.
pub open spec fn delete_model(m0: Map<Seq<u8>, Seq<u8>>, view: Seq<char>) -> Map<Seq<u8>, Seq<u8>> {
    let m3 = delete_stage2(m0, view);
    let new_views = remove_first(indexer_values(m3, views_key()), view);
    crate::store::replaced_value(m3, views_key(), enc_str_list(new_views))
}

/// A store state that an interrupted delete can leave behind: one of
/// the staged prefixes of `delete_model`, each possibly cut short
/// inside its chunk walk.  The record's chunks go first, so a failed
/// delete leaves at worst indexer entries pointing at an absent record,
/// which lookups treat as "not found".
pub open spec fn delete_interrupted(
    m0: Map<Seq<u8>, Seq<u8>>,
    view: Seq<char>,
    m: Map<Seq<u8>, Seq<u8>>,
) -> bool {
    let c = find_by_view(m0, view);
    let kb = encode_utf8(c.key);
    let ra = delete_record_removed(m0, view);
    let kk = keys_key();
    let vk = views_key();
    let s1 = delete_stage1(m0, view);
    let kbytes = enc_str_list(remove_first(indexer_values(s1, kk), c.key));
    let s1r = crate::store::remove_chunks_model(s1, kk, crate::store::walk_c(s1, kk) as int);
    let s2 = delete_stage2(m0, view);
    let vbytes = enc_str_list(remove_first(indexer_values(s2, vk), view));
    let s2r = crate::store::remove_chunks_model(s2, vk, crate::store::walk_c(s2, vk) as int);
    ||| m == m0
    ||| exists|j: u64| m == crate::store::remove_chunks_model(m0, kb, j as int)
    ||| exists|j: u64| m == crate::store::remove_chunks_model(ra, kv_key(view), j as int)
    ||| exists|j: u64| m == crate::store::remove_chunks_model(s1, kk, j as int)
    ||| exists|j: int| 0 <= j && m == crate::store::write_chunks_model(s1r, kk, kbytes, j)
    ||| exists|j: u64| m == crate::store::remove_chunks_model(s2, vk, j as int)
    ||| exists|j: int| 0 <= j && m == crate::store::write_chunks_model(s2r, vk, vbytes, j)
}

impl EmbeddingCollection {
    /// Save a collection to the database: append the key to the keys
    /// indexer, write the view's reverse index, append the view to the
    /// views indexer, adopt the given embedding rows, and chunk-write
    /// the serialized record under the collection's key.  The rows must
    /// be one per document, all of one width, 384 for the bundled model
    /// families.
    pub fn save(
        &mut self,
        db: &mut crate::store::DatabaseEnvironment,
        embeddings: Vec<Vec<u32>>,
    ) -> (r: Result<(), ValentinusError>)
        ensures
            !embeddings_shape_ok(
                old(self)@.model_type,
                old(self)@.documents.len(),
                embeddings.deep_view(),
            ) ==> (r matches Err(e) && e is OnnxError) && *final(self) == *old(self) && *final(db)
                == *old(db),
            r is Ok ==> embeddings_shape_ok(
                old(self)@.model_type,
                old(self)@.documents.len(),
                embeddings.deep_view(),
            ),
            r is Ok ==> final(self)@ == (CollectionView {
                embeddings: embeddings.deep_view(),
                ..old(self)@
            }),
            r is Ok ==> crate::store::store_map(*final(db)) == save_model(
                crate::store::store_map(*old(db)),
                old(self)@,
                embeddings.deep_view(),
            ),
            r matches Err(e) ==> e is OnnxError || e is DatabaseError,
            embeddings_shape_ok(
                old(self)@.model_type,
                old(self)@.documents.len(),
                embeddings.deep_view(),
            ) ==> (r matches Err(e) ==> e is DatabaseError),
            r is Err ==> save_interrupted(
                crate::store::store_map(*old(db)),
                old(self)@,
                embeddings.deep_view(),
                crate::store::store_map(*final(db)),
            ),
    {
        let ghost m0 = crate::store::store_map(*db);
        let ghost v0 = self@;
        let ghost e0 = embeddings.deep_view();
        if !embeddings_shape_check(self.model_type, self.documents.len(), &embeddings) {
            proof {
                assert(save_interrupted(m0, v0, e0, crate::store::store_map(*db)));
            }
            return Err(ValentinusError::OnnxError);
        }
        // keys indexer: read, append, replace
        let keys_k = keys_key_vec();
        proof {
            reveal_strlit("keys");
            lemma_utf8_nonempty("keys"@);
        }
        let mut keys_list = match read_indexer_values(db, &keys_k) {
            Ok(v) => v,
            Err(e) => {
                proof {
                    assert(save_interrupted(m0, v0, e0, crate::store::store_map(*db)));
                }
                return Err(ValentinusError::DatabaseError(e));
            },
        };
        let ghost keys_before = keys_list.deep_view();
        keys_list.push(self.key.clone());
        proof {
            assert(keys_list.deep_view() =~= keys_before.push(self@.key));
        }
        let keys_bytes = encode_indexer(&keys_list);
        match db.delete(&keys_k) {
            Ok(()) => {},
            Err(e) => {
                proof {
                    assert(save_interrupted(m0, v0, e0, crate::store::store_map(*db)));
                }
                return Err(ValentinusError::DatabaseError(e));
            },
        }
        match crate::store::write_chunks(db, &keys_k, &keys_bytes) {
            Ok(()) => {},
            Err(e) => {
                proof {
                    assert(save_interrupted(m0, v0, e0, crate::store::store_map(*db)));
                }
                return Err(ValentinusError::DatabaseError(e));
            },
        }
        proof {
            assert(crate::store::store_map(*db) == save_stage1(m0, v0));
        }
        // reverse index: key-<view> resolves to the collection key
        let kvk = kv_key_vec(self.view.as_str());
        let key_bytes_v = self.key.as_str().as_bytes_vec();
        match crate::store::write_chunks(db, &kvk, &key_bytes_v) {
            Ok(()) => {},
            Err(e) => {
                proof {
                    assert(save_interrupted(m0, v0, e0, crate::store::store_map(*db)));
                }
                return Err(ValentinusError::DatabaseError(e));
            },
        }
        proof {
            assert(crate::store::store_map(*db) == save_stage2(m0, v0));
        }
        // views indexer: read, append, replace
        let views_k = views_key_vec();
        proof {
            reveal_strlit("views");
            lemma_utf8_nonempty("views"@);
        }
        let mut views_list = match read_indexer_values(db, &views_k) {
            Ok(v) => v,
            Err(e) => {
                proof {
                    let nkv = crate::store::spec_num_chunks(encode_utf8(v0.key).len()) as int;
                    assert(crate::store::store_map(*db) == crate::store::write_chunks_model(
                        save_stage1(m0, v0),
                        kv_key(v0.view),
                        encode_utf8(v0.key),
                        nkv,
                    ));
                    assert(save_interrupted(m0, v0, e0, crate::store::store_map(*db)));
                }
                return Err(ValentinusError::DatabaseError(e));
            },
        };
        let ghost views_before = views_list.deep_view();
        views_list.push(self.view.clone());
        proof {
            assert(views_list.deep_view() =~= views_before.push(self@.view));
        }
        let views_bytes = encode_indexer(&views_list);
        match db.delete(&views_k) {
            Ok(()) => {},
            Err(e) => {
                proof {
                    assert(save_interrupted(m0, v0, e0, crate::store::store_map(*db)));
                }
                return Err(ValentinusError::DatabaseError(e));
            },
        }
        match crate::store::write_chunks(db, &views_k, &views_bytes) {
            Ok(()) => {},
            Err(e) => {
                proof {
                    assert(save_interrupted(m0, v0, e0, crate::store::store_map(*db)));
                }
                return Err(ValentinusError::DatabaseError(e));
            },
        }
        proof {
            assert(crate::store::store_map(*db) == save_stage3(m0, v0));
        }
        // adopt the embeddings and write the record
        self.embeddings = embeddings;
        let record = self.encode_record();
        let key_b = self.key.as_str().as_bytes_vec();
        proof {
            vstd::bytes::lemma_auto_spec_u64_to_from_le_bytes();
            assert(record@.len() >= 8);
            assert(self@ == (CollectionView { embeddings: e0, ..v0 }));
        }
        match crate::store::write_chunks(db, &key_b, &record) {
            Ok(()) => {},
            Err(e) => {
                proof {
                    assert(save_interrupted(m0, v0, e0, crate::store::store_map(*db)));
                }
                return Err(ValentinusError::DatabaseError(e));
            },
        }
        Ok(())
    }

    /// Delete a collection from the database: remove its record chunks
    /// and reverse index, and rewrite both indexers without its
    /// entries.
    pub fn delete(
        db: &mut crate::store::DatabaseEnvironment,
        view_name: String,
    ) -> (r: Result<(), ValentinusError>)
        ensures
            r is Ok ==> crate::store::store_map(*final(db)) == delete_model(
                crate::store::store_map(*old(db)),
                view_name@,
            ),
            r matches Err(e) ==> e is DatabaseError || e is BincodeError,
            r is Err ==> delete_interrupted(
                crate::store::store_map(*old(db)),
                view_name@,
                crate::store::store_map(*final(db)),
            ),
    {
        let ghost m0 = crate::store::store_map(*db);
        let collection = match find(db, None, Some(view_name.clone())) {
            Ok(c) => c,
            Err(e) => {
                proof {
                    assert(delete_interrupted(m0, view_name@, crate::store::store_map(*db)));
                }
                return Err(e);
            },
        };
        // remove the record chunks
        let key_b = collection.key.as_str().as_bytes_vec();
        let ghost kb = encode_utf8(find_by_view(m0, view_name@).key);
        proof {
            assert(key_b@ == kb);
        }
        match db.delete(&key_b) {
            Ok(()) => {},
            Err(e) => {
                proof {
                    let jw = choose|j: u64|
                        crate::store::store_map(*db) == crate::store::remove_chunks_model(
                            m0,
                            key_b@,
                            j as int,
                        );
                    assert(crate::store::store_map(*db) == crate::store::remove_chunks_model(
                        m0,
                        kb,
                        jw as int,
                    ));
                    assert(delete_interrupted(m0, view_name@, crate::store::store_map(*db)));
                }
                return Err(ValentinusError::DatabaseError(e));
            },
        }
        let ghost ra = delete_record_removed(m0, view_name@);
        proof {
            assert(crate::store::store_map(*db) == ra);
        }
        // remove the reverse index
        let kvk = kv_key_vec(view_name.as_str());
        proof {
            reveal_strlit("key-");
            assert(("key-"@ + view_name@).len() >= 4);
            lemma_utf8_nonempty("key-"@ + view_name@);
        }
        match db.delete(&kvk) {
            Ok(()) => {},
            Err(e) => {
                proof {
                    let jw = choose|j: u64|
                        crate::store::store_map(*db) == crate::store::remove_chunks_model(
                            ra,
                            kvk@,
                            j as int,
                        );
                    assert(crate::store::store_map(*db) == crate::store::remove_chunks_model(
                        ra,
                        kv_key(view_name@),
                        jw as int,
                    ));
                    assert(exists|j: u64|
                        crate::store::store_map(*db) == crate::store::remove_chunks_model(
                            ra,
                            kv_key(view_name@),
                            j as int,
                        ));
                    assert(delete_interrupted(m0, view_name@, crate::store::store_map(*db)));
                }
                return Err(ValentinusError::DatabaseError(e));
            },
        }
        proof {
            assert(crate::store::store_map(*db) == delete_stage1(m0, view_name@));
        }
        // rewrite the keys indexer without this key
        let keys_k = keys_key_vec();
        proof {
            reveal_strlit("keys");
            lemma_utf8_nonempty("keys"@);
        }
        let mut keys_list = match read_indexer_values(db, &keys_k) {
            Ok(v) => v,
            Err(e) => {
                proof {
                    let s1 = delete_stage1(m0, view_name@);
                    assert(crate::store::store_map(*db) == crate::store::remove_chunks_model(
                        s1,
                        keys_key(),
                        0,
                    ));
                    assert(delete_interrupted(m0, view_name@, crate::store::store_map(*db)));
                }
                return Err(ValentinusError::DatabaseError(e));
            },
        };
        remove_first_string(&mut keys_list, &collection.key);
        let keys_bytes = encode_indexer(&keys_list);
        match db.delete(&keys_k) {
            Ok(()) => {},
            Err(e) => {
                proof {
                    assert(delete_interrupted(m0, view_name@, crate::store::store_map(*db)));
                }
                return Err(ValentinusError::DatabaseError(e));
            },
        }
        match crate::store::write_chunks(db, &keys_k, &keys_bytes) {
            Ok(()) => {},
            Err(e) => {
                proof {
                    assert(delete_interrupted(m0, view_name@, crate::store::store_map(*db)));
                }
                return Err(ValentinusError::DatabaseError(e));
            },
        }
        proof {
            assert(crate::store::store_map(*db) == delete_stage2(m0, view_name@));
        }
        // rewrite the views indexer without this view
        let views_k = views_key_vec();
        proof {
            reveal_strlit("views");
            lemma_utf8_nonempty("views"@);
        }
        let mut views_list = match read_indexer_values(db, &views_k) {
            Ok(v) => v,
            Err(e) => {
                proof {
                    let s2 = delete_stage2(m0, view_name@);
                    assert(crate::store::store_map(*db) == crate::store::remove_chunks_model(
                        s2,
                        views_key(),
                        0,
                    ));
                    assert(delete_interrupted(m0, view_name@, crate::store::store_map(*db)));
                }
                return Err(ValentinusError::DatabaseError(e));
            },
        };
        remove_first_string(&mut views_list, &view_name);
        let views_bytes = encode_indexer(&views_list);
        match db.delete(&views_k) {
            Ok(()) => {},
            Err(e) => {
                proof {
                    assert(delete_interrupted(m0, view_name@, crate::store::store_map(*db)));
                }
                return Err(ValentinusError::DatabaseError(e));
            },
        }
        match crate::store::write_chunks(db, &views_k, &views_bytes) {
            Ok(()) => {},
            Err(e) => {
                proof {
                    assert(delete_interrupted(m0, view_name@, crate::store::store_map(*db)));
                }
                return Err(ValentinusError::DatabaseError(e));
            },
        }
        Ok(())
    }
}

} // verus!

verus! {

/// The shape of a collection's view string: `view-` followed by the
/// user's name.
pub open spec fn is_view_string(s: Seq<char>) -> bool {
    s.len() >= 5 && s.subrange(0, 5) == "view-"@
}

/// UTF-8 encoding is injective.
pub proof fn lemma_utf8_injective(a: Seq<char>, b: Seq<char>)
    requires
        encode_utf8(a) == encode_utf8(b),
    ensures
        a == b,
{
    vstd::utf8::encode_utf8_decode_utf8(a);
    vstd::utf8::encode_utf8_decode_utf8(b);
}

/// The four byte keys a save touches are pairwise distinct: the two
/// well-known indexer keys, the view's reverse index, and the record
/// key.
pub proof fn lemma_store_keys_distinct(key: Seq<char>, view: Seq<char>)
    requires
        is_key_string(key),
        is_view_string(view),
    ensures
        keys_key() != views_key(),
        keys_key() != kv_key(view),
        keys_key() != encode_utf8(key),
        views_key() != kv_key(view),
        views_key() != encode_utf8(key),
        kv_key(view) != encode_utf8(key),
{
    reveal_strlit("keys");
    reveal_strlit("views");
    reveal_strlit("view-");
    reveal_strlit("key-");
    let kvs = "key-"@ + view;
    assert(kvs.len() >= 9);
    assert(kvs[4] == view[0]);
    assert(view[0] == "view-"@[0]);
    assert(view[0] == 'v');
    assert(key[4] != 'v') by {
        assert(is_uuid_char(key[4]));
    }
    assert(kvs[4] != key[4]);
    assert(kvs != key);
    if keys_key() == views_key() {
        lemma_utf8_injective("keys"@, "views"@);
    }
    if keys_key() == kv_key(view) {
        lemma_utf8_injective("keys"@, kvs);
    }
    if keys_key() == encode_utf8(key) {
        lemma_utf8_injective("keys"@, key);
    }
    if views_key() == kv_key(view) {
        lemma_utf8_injective("views"@, kvs);
    }
    if views_key() == encode_utf8(key) {
        lemma_utf8_injective("views"@, key);
    }
    if kv_key(view) == encode_utf8(key) {
        lemma_utf8_injective(kvs, key);
    }
}

/// Every decoded string list is well formed: the lengths that came out
/// of the prefixes fit back into them.
pub proof fn lemma_dec_str_seq_wf(b: Seq<u8>, pos: int, count: nat)
    requires
        crate::codec::dec_str_seq(b, pos, count) is Some,
    ensures
        ({
            let vs = (crate::codec::dec_str_seq(b, pos, count)->0).0;
            &&& vs.len() == count
            &&& forall|i: int|
                0 <= i < vs.len() ==> encode_utf8(#[trigger] vs[i]).len() <= u64::MAX
        }),
    decreases count,
{
    if count > 0 {
        let (s, p) = dec_str(b, pos)->0;
        let n = (crate::codec::dec_u64(b, pos)->0).0;
        let q = (crate::codec::dec_u64(b, pos)->0).1;
        let body = b.subrange(q, q + n as int);
        vstd::utf8::decode_utf8_encode_utf8(body);
        assert(encode_utf8(s).len() == body.len());
        lemma_dec_str_seq_wf(b, p, (count - 1) as nat);
        let rest = (crate::codec::dec_str_seq(b, p, (count - 1) as nat)->0).0;
        let vs = (crate::codec::dec_str_seq(b, pos, count)->0).0;
        assert(vs == seq![s] + rest);
        assert(forall|i: int| 1 <= i < vs.len() ==> vs[i] == rest[i - 1]);
    }
}

/// The values of any stored indexer are well formed.
pub proof fn lemma_indexer_values_wf(m: Map<Seq<u8>, Seq<u8>>, k: Seq<u8>)
    ensures
        wf_str_seq(indexer_values(m, k)),
{
    let bytes = crate::store::stored_bytes(m, k);
    match dec_str_list(bytes, 0) {
        Some((vs, p)) => {
            if p == bytes.len() {
                let n = (crate::codec::dec_u64(bytes, 0)->0).0;
                lemma_dec_str_seq_wf(bytes, 8, n as nat);
            } else {
                assert(indexer_values(m, k) =~= Seq::<Seq<char>>::empty());
            }
        },
        None => {
            assert(indexer_values(m, k) =~= Seq::<Seq<char>>::empty());
        },
    }
}

} // verus!

verus! {

/// A collection saved into the store is found again intact, both under
/// its key and under its view: the record that the chunk walk and the
/// decoder return carries the same documents, embeddings, metadata,
/// ids, key and view that were saved.
pub proof fn lemma_save_then_find(m0: Map<Seq<u8>, Seq<u8>>, v: CollectionView, e: Seq<Seq<u32>>)
    requires
        wf_collection_view(CollectionView { embeddings: e, ..v }),
        is_key_string(v.key),
        is_view_string(v.view),
        enc_collection(CollectionView { embeddings: e, ..v }).len() <= usize::MAX,
        encode_utf8(v.key).len() <= usize::MAX,
        enc_str_list(indexer_values(m0, keys_key()).push(v.key)).len() <= usize::MAX,
        enc_str_list(indexer_values(m0, views_key()).push(v.view)).len() <= usize::MAX,
        crate::store::chunks_dense(m0, keys_key()),
        crate::store::chunks_dense(m0, views_key()),
        forall|j: u64| !crate::store::has_chunk(m0, kv_key(v.view), j),
        forall|j: u64| !crate::store::has_chunk(m0, encode_utf8(v.key), j),
    ensures
        find_by_key(save_model(m0, v, e), v.key) == (CollectionView { embeddings: e, ..v }),
        find_by_view(save_model(m0, v, e), v.view) == (CollectionView { embeddings: e, ..v }),
{
    let saved = CollectionView { embeddings: e, ..v };
    let kb = encode_utf8(v.key);
    let kv = kv_key(v.view);
    let kk = keys_key();
    let vk = views_key();
    lemma_store_keys_distinct(v.key, v.view);
    assert(v.key.len() == 40);
    lemma_utf8_nonempty(v.key);
    reveal_strlit("key-");
    assert(("key-"@ + v.view).len() >= 4);
    lemma_utf8_nonempty("key-"@ + v.view);
    let new_keys = indexer_values(m0, kk).push(v.key);
    let kbytes = enc_str_list(new_keys);
    let m1 = crate::store::replaced_value(m0, kk, kbytes);
    assert forall|j: u64| #[trigger] crate::store::chunk_at(m1, kv, j) == crate::store::chunk_at(
        m0,
        kv,
        j,
    ) by {
        crate::store::lemma_replaced_other_key(m0, kk, kbytes, kv, j);
    }
    assert forall|j: u64| #[trigger] crate::store::chunk_at(m1, kb, j) == crate::store::chunk_at(
        m0,
        kb,
        j,
    ) by {
        crate::store::lemma_replaced_other_key(m0, kk, kbytes, kb, j);
    }
    assert forall|j: u64| #[trigger] crate::store::chunk_at(m1, vk, j) == crate::store::chunk_at(
        m0,
        vk,
        j,
    ) by {
        crate::store::lemma_replaced_other_key(m0, kk, kbytes, vk, j);
    }
    let nkv = crate::store::spec_num_chunks(kb.len()) as int;
    let m2 = crate::store::write_chunks_model(m1, kv, kb, nkv);
    assert forall|j: u64| !crate::store::has_chunk(m1, kv, j) by {
        assert(!crate::store::has_chunk(m0, kv, j));
    }
    crate::store::lemma_write_fresh_reads(m1, kv, kb);
    assert(crate::store::stored_bytes(m2, kv) == kb);
    assert forall|j: u64| #[trigger] crate::store::chunk_at(m2, kb, j) == crate::store::chunk_at(
        m1,
        kb,
        j,
    ) by {
        crate::store::lemma_model_other_key_chunks(m1, kv, kb, nkv, kb, j);
    }
    assert forall|j: u64| #[trigger] crate::store::chunk_at(m2, vk, j) == crate::store::chunk_at(
        m1,
        vk,
        j,
    ) by {
        crate::store::lemma_model_other_key_chunks(m1, kv, kb, nkv, vk, j);
    }
    // the views indexer read at m2 equals the one at m0
    crate::store::lemma_stored_bytes_equal(m2, m0, vk);
    assert(indexer_values(m2, vk) == indexer_values(m0, vk));
    let new_views = indexer_values(m2, vk).push(v.view);
    let vbytes = enc_str_list(new_views);
    let m3 = crate::store::replaced_value(m2, vk, vbytes);
    assert forall|j: u64| #[trigger] crate::store::chunk_at(m3, kb, j) == crate::store::chunk_at(
        m2,
        kb,
        j,
    ) by {
        crate::store::lemma_replaced_other_key(m2, vk, vbytes, kb, j);
    }
    assert forall|j: u64| #[trigger] crate::store::chunk_at(m3, kv, j) == crate::store::chunk_at(
        m2,
        kv,
        j,
    ) by {
        crate::store::lemma_replaced_other_key(m2, vk, vbytes, kv, j);
    }
    let enc = enc_collection(saved);
    assert(enc.len() >= 8) by {
        vstd::bytes::lemma_auto_spec_u64_to_from_le_bytes();
    }
    let nrec = crate::store::spec_num_chunks(enc.len()) as int;
    let m4 = crate::store::write_chunks_model(m3, kb, enc, nrec);
    assert(m4 == save_model(m0, v, e));
    assert forall|j: u64| !crate::store::has_chunk(m3, kb, j) by {
        assert(!crate::store::has_chunk(m0, kb, j));
    }
    crate::store::lemma_write_fresh_reads(m3, kb, enc);
    assert(crate::store::stored_bytes(m4, kb) == enc);
    // the reverse index survives the record write
    assert forall|j: u64| #[trigger] crate::store::chunk_at(m4, kv, j) == crate::store::chunk_at(
        m3,
        kv,
        j,
    ) by {
        crate::store::lemma_model_other_key_chunks(m3, kb, enc, nrec, kv, j);
    }
    crate::store::lemma_stored_bytes_equal(m4, m2, kv);
    assert(crate::store::stored_bytes(m4, kv) == kb);
    // decode
    lemma_dec_enc_collection(saved);
    assert(find_by_key(m4, v.key) == saved);
    assert(kb.len() > 0);
    assert(find_by_view(m4, v.view) == saved);
}

/// After a save both indexers carry the collection: the keys indexer
/// grows by its key and the views indexer by its view.
pub proof fn lemma_save_indexers(m0: Map<Seq<u8>, Seq<u8>>, v: CollectionView, e: Seq<Seq<u32>>)
    requires
        is_key_string(v.key),
        is_view_string(v.view),
        encode_utf8(v.key).len() <= u64::MAX,
        encode_utf8(v.view).len() <= u64::MAX,
        enc_str_list(indexer_values(m0, keys_key()).push(v.key)).len() <= usize::MAX,
        enc_str_list(indexer_values(m0, views_key()).push(v.view)).len() <= usize::MAX,
        indexer_values(m0, keys_key()).len() < u64::MAX,
        indexer_values(m0, views_key()).len() < u64::MAX,
        crate::store::chunks_dense(m0, keys_key()),
        crate::store::chunks_dense(m0, views_key()),
    ensures
        indexer_values(save_model(m0, v, e), keys_key()) == indexer_values(
            m0,
            keys_key(),
        ).push(v.key),
        indexer_values(save_model(m0, v, e), views_key()) == indexer_values(
            m0,
            views_key(),
        ).push(v.view),
        indexer_values(save_model(m0, v, e), keys_key()).contains(v.key),
        indexer_values(save_model(m0, v, e), views_key()).contains(v.view),
{
    let saved = CollectionView { embeddings: e, ..v };
    let kb = encode_utf8(v.key);
    let kv = kv_key(v.view);
    let kk = keys_key();
    let vk = views_key();
    lemma_store_keys_distinct(v.key, v.view);
    reveal_strlit("keys");
    reveal_strlit("views");
    lemma_utf8_nonempty("keys"@);
    lemma_utf8_nonempty("views"@);
    let new_keys = indexer_values(m0, kk).push(v.key);
    let kbytes = enc_str_list(new_keys);
    assert(kbytes.len() >= 8) by {
        vstd::bytes::lemma_auto_spec_u64_to_from_le_bytes();
    }
    let m1 = crate::store::replaced_value(m0, kk, kbytes);
    crate::store::lemma_replaced_value_reads(m0, kk, kbytes);
    assert(crate::store::stored_bytes(m1, kk) == kbytes);
    assert(wf_str_seq(new_keys)) by {
        lemma_indexer_values_wf(m0, kk);
        assert forall|i: int|
            0 <= i < new_keys.len() implies encode_utf8(#[trigger] new_keys[i]).len()
            <= u64::MAX by {
            if i < new_keys.len() - 1 {
                assert(new_keys[i] == indexer_values(m0, kk)[i]);
                assert(encode_utf8(indexer_values(m0, kk)[i]).len() <= u64::MAX);
            }
        }
    }
    assert(kbytes.subrange(0, kbytes.len() as int) =~= kbytes);
    crate::codec::lemma_dec_enc_str_list(kbytes, 0, new_keys);
    assert(indexer_values(m1, kk) == new_keys);
    let nkv = crate::store::spec_num_chunks(kb.len()) as int;
    let m2 = crate::store::write_chunks_model(m1, kv, kb, nkv);
    assert forall|j: u64| #[trigger] crate::store::chunk_at(m2, kk, j) == crate::store::chunk_at(
        m1,
        kk,
        j,
    ) by {
        crate::store::lemma_model_other_key_chunks(m1, kv, kb, nkv, kk, j);
    }
    assert forall|j: u64| #[trigger] crate::store::chunk_at(m2, vk, j) == crate::store::chunk_at(
        m1,
        vk,
        j,
    ) by {
        crate::store::lemma_model_other_key_chunks(m1, kv, kb, nkv, vk, j);
    }
    assert forall|j: u64| #[trigger] crate::store::chunk_at(m1, vk, j) == crate::store::chunk_at(
        m0,
        vk,
        j,
    ) by {
        crate::store::lemma_replaced_other_key(m0, kk, kbytes, vk, j);
    }
    crate::store::lemma_stored_bytes_equal(m2, m0, vk);
    assert(indexer_values(m2, vk) == indexer_values(m0, vk));
    let new_views = indexer_values(m2, vk).push(v.view);
    let vbytes = enc_str_list(new_views);
    assert(vbytes.len() >= 8) by {
        vstd::bytes::lemma_auto_spec_u64_to_from_le_bytes();
    }
    let m3 = crate::store::replaced_value(m2, vk, vbytes);
    assert(crate::store::chunks_dense(m2, vk)) by {
        assert forall|n: u64|
            1 <= n && #[trigger] crate::store::has_chunk(m2, vk, n) implies crate::store::has_chunk(
            m2,
            vk,
            (n - 1) as u64,
        ) by {
            assert(crate::store::chunk_at(m2, vk, n) == crate::store::chunk_at(m0, vk, n));
            assert(crate::store::chunk_at(m2, vk, (n - 1) as u64) == crate::store::chunk_at(
                m0,
                vk,
                (n - 1) as u64,
            ));
            assert(crate::store::has_chunk(m0, vk, n));
            assert(crate::store::has_chunk(m0, vk, (n - 1) as u64));
        }
    }
    crate::store::lemma_replaced_value_reads(m2, vk, vbytes);
    assert(crate::store::stored_bytes(m3, vk) == vbytes);
    assert(wf_str_seq(new_views)) by {
        lemma_indexer_values_wf(m2, vk);
        assert forall|i: int|
            0 <= i < new_views.len() implies encode_utf8(#[trigger] new_views[i]).len()
            <= u64::MAX by {
            if i < new_views.len() - 1 {
                assert(new_views[i] == indexer_values(m2, vk)[i]);
                assert(encode_utf8(indexer_values(m2, vk)[i]).len() <= u64::MAX);
            }
        }
    }
    assert(vbytes.subrange(0, vbytes.len() as int) =~= vbytes);
    crate::codec::lemma_dec_enc_str_list(vbytes, 0, new_views);
    assert(indexer_values(m3, vk) == new_views);
    assert forall|j: u64| #[trigger] crate::store::chunk_at(m3, kk, j) == crate::store::chunk_at(
        m2,
        kk,
        j,
    ) by {
        crate::store::lemma_replaced_other_key(m2, vk, vbytes, kk, j);
    }
    let enc = enc_collection(saved);
    let nrec = crate::store::spec_num_chunks(enc.len()) as int;
    let m4 = crate::store::write_chunks_model(m3, kb, enc, nrec);
    assert(m4 == save_model(m0, v, e));
    assert forall|j: u64| #[trigger] crate::store::chunk_at(m4, kk, j) == crate::store::chunk_at(
        m3,
        kk,
        j,
    ) by {
        crate::store::lemma_model_other_key_chunks(m3, kb, enc, nrec, kk, j);
    }
    assert forall|j: u64| #[trigger] crate::store::chunk_at(m4, vk, j) == crate::store::chunk_at(
        m3,
        vk,
        j,
    ) by {
        crate::store::lemma_model_other_key_chunks(m3, kb, enc, nrec, vk, j);
    }
    crate::store::lemma_stored_bytes_equal(m4, m1, kk);
    crate::store::lemma_stored_bytes_equal(m4, m3, vk);
    assert(indexer_values(m4, kk) == new_keys);
    assert(indexer_values(m4, vk) == new_views);
    assert(new_keys[new_keys.len() - 1] == v.key);
    assert(new_views[new_views.len() - 1] == v.view);
}

} // verus!

verus! {

/// A key whose first chunk is absent stores nothing.
pub proof fn lemma_stored_empty_no_first_chunk(m: Map<Seq<u8>, Seq<u8>>, k: Seq<u8>)
    requires
        !crate::store::has_chunk(m, k, 0),
    ensures
        crate::store::stored_bytes(m, k) == Seq::<u8>::empty(),
{
    assert(crate::store::walk_stop(m, k, 0));
    crate::store::lemma_walk_stop_unique(m, k, 0, crate::store::walk_c(m, k));
}

/// Removing an entry keeps the rest well formed.
pub proof fn lemma_wf_remove_first(vs: Seq<Seq<char>>, x: Seq<char>)
    requires
        wf_str_seq(vs),
    ensures
        wf_str_seq(remove_first(vs, x)),
        remove_first(vs, x).len() <= vs.len(),
    decreases vs.len(),
{
    if vs.len() == 0 {
    } else if vs[0] == x {
        assert(forall|i: int|
            0 <= i < vs.drop_first().len() ==> #[trigger] vs.drop_first()[i] == vs[i + 1]);
    } else {
        assert(wf_str_seq(vs.drop_first())) by {
            assert(forall|i: int|
                0 <= i < vs.drop_first().len() ==> #[trigger] vs.drop_first()[i] == vs[i + 1]);
        }
        lemma_wf_remove_first(vs.drop_first(), x);
        let r = seq![vs[0]] + remove_first(vs.drop_first(), x);
        assert(forall|i: int|
            1 <= i < r.len() ==> #[trigger] r[i] == remove_first(vs.drop_first(), x)[i - 1]);
    }
}

/// After removing the only occurrence of an entry, the list no longer
/// holds it.
pub proof fn lemma_remove_first_excludes(vs: Seq<Seq<char>>, x: Seq<char>)
    requires
        forall|i: int, j: int| 0 <= i < j < vs.len() ==> !(vs[i] == x && vs[j] == x),
    ensures
        !remove_first(vs, x).contains(x),
    decreases vs.len(),
{
    if vs.len() > 0 {
        if vs[0] == x {
            assert(forall|i: int|
                0 <= i < vs.drop_first().len() ==> #[trigger] vs.drop_first()[i] == vs[i + 1]);
            if vs.drop_first().contains(x) {
                let i = choose|i: int|
                    0 <= i < vs.drop_first().len() && vs.drop_first()[i] == x;
                assert(vs[0] == x && vs[i + 1] == x);
            }
        } else {
            assert(forall|i: int|
                0 <= i < vs.drop_first().len() ==> #[trigger] vs.drop_first()[i] == vs[i + 1]);
            lemma_remove_first_excludes(vs.drop_first(), x);
            let r = seq![vs[0]] + remove_first(vs.drop_first(), x);
            if r.contains(x) {
                let i = choose|i: int| 0 <= i < r.len() && r[i] == x;
                assert(i > 0);
                assert(remove_first(vs.drop_first(), x)[i - 1] == x);
                assert(remove_first(vs.drop_first(), x).contains(x));
            }
        }
    }
}

/// After a delete the record is gone and both indexers have lost the
/// collection's entries: the view no longer resolves, and each indexer
/// reads as its old value with the first occurrence removed.
/// After the removal phase of a delete, both indexers still read as
/// before, stay dense, and the reverse index's first chunk is gone.
#[verifier::spinoff_prover]
pub proof fn lemma_delete_stage1_facts(m0: Map<Seq<u8>, Seq<u8>>, view: Seq<char>)
    requires
        is_view_string(view),
        is_key_string(find_by_view(m0, view).key),
        crate::store::chunks_dense(m0, keys_key()),
        crate::store::chunks_dense(m0, views_key()),
    ensures
        indexer_values(delete_stage1(m0, view), keys_key()) == indexer_values(m0, keys_key()),
        indexer_values(delete_stage1(m0, view), views_key()) == indexer_values(m0, views_key()),
        crate::store::chunks_dense(delete_stage1(m0, view), keys_key()),
        crate::store::chunks_dense(delete_stage1(m0, view), views_key()),
        !crate::store::has_chunk(delete_stage1(m0, view), kv_key(view), 0),
{
    let c = find_by_view(m0, view);
    let kb = encode_utf8(c.key);
    let kv = kv_key(view);
    let kk = keys_key();
    let vk = views_key();
    lemma_store_keys_distinct(c.key, view);
    assert(c.key.len() == 40);
    lemma_utf8_nonempty(c.key);
    let c1 = crate::store::walk_c(m0, kb);
    let m1 = crate::store::remove_chunks_model(m0, kb, c1 as int);
    crate::store::lemma_remove_preserves_stored(m0, kb, c1 as int, kv);
    crate::store::lemma_remove_preserves_stored(m0, kb, c1 as int, kk);
    crate::store::lemma_remove_preserves_stored(m0, kb, c1 as int, vk);
    let c2 = crate::store::walk_c(m1, kv);
    let m2 = crate::store::remove_chunks_model(m1, kv, c2 as int);
    assert(m2 == delete_stage1(m0, view));
    assert(!crate::store::has_chunk(m2, kv, 0)) by {
        crate::store::lemma_walk_stop_exists(m1, kv);
        assert(crate::store::walk_stop(m1, kv, c2));
        if c2 == 0 {
            crate::store::lemma_remove_model_chunk_at(m1, kv, 0, 0);
        } else {
            crate::store::lemma_remove_model_removes(m1, kv, c2 as int, 0);
        }
    }
    crate::store::lemma_remove_preserves_stored(m1, kv, c2 as int, kk);
    crate::store::lemma_remove_preserves_stored(m1, kv, c2 as int, vk);
}

/// After a delete the record is gone and both indexers have lost the
/// collection's entries: the view no longer resolves, and each indexer
/// reads as its old value with the first occurrence removed.
#[verifier::rlimit(100)]
#[verifier::spinoff_prover]
pub proof fn lemma_delete_removes(m0: Map<Seq<u8>, Seq<u8>>, view: Seq<char>)
    requires
        is_view_string(view),
        is_key_string(find_by_view(m0, view).key),
        enc_str_list(
            remove_first(indexer_values(m0, keys_key()), find_by_view(m0, view).key),
        ).len() <= usize::MAX,
        enc_str_list(remove_first(indexer_values(m0, views_key()), view)).len() <= usize::MAX,
        crate::store::chunks_dense(m0, keys_key()),
        crate::store::chunks_dense(m0, views_key()),
    ensures
        find_by_view(delete_model(m0, view), view) == empty_collection_view(),
        indexer_values(delete_model(m0, view), keys_key()) == remove_first(
            indexer_values(m0, keys_key()),
            find_by_view(m0, view).key,
        ),
        indexer_values(delete_model(m0, view), views_key()) == remove_first(
            indexer_values(m0, views_key()),
            view,
        ),
{
    let c = find_by_view(m0, view);
    let kv = kv_key(view);
    let kk = keys_key();
    let vk = views_key();
    lemma_store_keys_distinct(c.key, view);
    reveal_strlit("keys");
    reveal_strlit("views");
    lemma_utf8_nonempty("keys"@);
    lemma_utf8_nonempty("views"@);
    let m2 = delete_stage1(m0, view);
    lemma_delete_stage1_facts(m0, view);
    let new_keys = remove_first(indexer_values(m2, kk), c.key);
    let kbytes = enc_str_list(new_keys);
    assert(kbytes.len() >= 8) by {
        vstd::bytes::lemma_auto_spec_u64_to_from_le_bytes();
    }
    let m3 = crate::store::replaced_value(m2, kk, kbytes);
    crate::store::lemma_replaced_value_reads(m2, kk, kbytes);
    assert(wf_str_seq(new_keys)) by {
        lemma_indexer_values_wf(m2, kk);
        lemma_wf_remove_first(indexer_values(m2, kk), c.key);
    }
    assert(kbytes.subrange(0, kbytes.len() as int) =~= kbytes);
    crate::codec::lemma_dec_enc_str_list(kbytes, 0, new_keys);
    assert(indexer_values(m3, kk) == new_keys);
    crate::store::lemma_replaced_preserves_stored(m2, kk, kbytes, vk);
    crate::store::lemma_replaced_preserves_stored(m2, kk, kbytes, kv);
    let new_views = remove_first(indexer_values(m3, vk), view);
    let vbytes = enc_str_list(new_views);
    assert(vbytes.len() >= 8) by {
        vstd::bytes::lemma_auto_spec_u64_to_from_le_bytes();
    }
    let m4 = crate::store::replaced_value(m3, vk, vbytes);
    assert(m4 == delete_model(m0, view));
    crate::store::lemma_replaced_value_reads(m3, vk, vbytes);
    assert(wf_str_seq(new_views)) by {
        lemma_indexer_values_wf(m3, vk);
        lemma_wf_remove_first(indexer_values(m3, vk), view);
    }
    assert(vbytes.subrange(0, vbytes.len() as int) =~= vbytes);
    crate::codec::lemma_dec_enc_str_list(vbytes, 0, new_views);
    assert(indexer_values(m4, vk) == new_views);
    crate::store::lemma_replaced_preserves_stored(m3, vk, vbytes, kk);
    assert(indexer_values(m4, kk) == new_keys);
    crate::store::lemma_replaced_preserves_stored(m3, vk, vbytes, kv);
    assert(!crate::store::has_chunk(m4, kv, 0));
    lemma_stored_empty_no_first_chunk(m4, kv);
    assert(find_by_view(m4, view) == empty_collection_view()) by {
        reveal(dec_collection);
        assert(crate::codec::dec_str_list(Seq::<u8>::empty(), 0) is None);
    }
}

} // verus!

verus! {

/// Concatenate embedding batches row-wise into one matrix, in batch
/// order: the batched generation of embeddings hands its pieces here.
pub fn concat_batches(batches: &Vec<Vec<Vec<u32>>>) -> (r: Vec<Vec<u32>>)
    ensures
        r.deep_view() == batches.deep_view().flatten(),
{
    let mut out: Vec<Vec<u32>> = Vec::new();
    let ghost dv = batches.deep_view();
    proof {
        assert(out.deep_view() =~= dv.take(0).flatten());
    }
    let mut i: usize = 0;
    while i < batches.len()
        invariant
            dv == batches.deep_view(),
            dv.len() == batches@.len(),
            0 <= i <= batches@.len(),
            out.deep_view() == dv.take(i as int).flatten(),
        decreases batches@.len() - i,
    {
        let batch = &batches[i];
        proof {
            assert(batch.deep_view() == dv[i as int]);
        }
        let mut j: usize = 0;
        while j < batch.len()
            invariant
                dv == batches.deep_view(),
                0 <= i < dv.len(),
                batch == &batches[i as int],
                batch.deep_view() == dv[i as int],
                batch.deep_view().len() == batch@.len(),
                0 <= j <= batch@.len(),
                out.deep_view() == dv.take(i as int).flatten() + dv[i as int].take(j as int),
            decreases batch@.len() - j,
        {
            let ghost out_pre = out.deep_view();
            out.push(batch[j].clone());
            proof {
                assert(batch@[j as int].deep_view() =~= batch@[j as int]@);
                assert(out.deep_view() =~= out_pre.push(dv[i as int][j as int]));
                assert(dv[i as int].take(j as int + 1) =~= dv[i as int].take(j as int).push(
                    dv[i as int][j as int],
                ));
                assert(out.deep_view() =~= dv.take(i as int).flatten() + dv[i as int].take(
                    j as int + 1,
                ));
            }
            j += 1;
        }
        proof {
            assert(dv[i as int].take(batch@.len() as int) =~= dv[i as int]);
            assert(dv.take(i as int).push(dv[i as int]) =~= dv.take(i as int + 1));
            dv.take(i as int).lemma_flatten_push(dv[i as int]);
            assert(out.deep_view() == dv.take(i as int + 1).flatten());
        }
        i += 1;
    }
    proof {
        assert(dv.take(dv.len() as int) =~= dv);
    }
    out
}

} // verus!
