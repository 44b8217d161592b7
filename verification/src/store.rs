//! The ordered key-value store.  An LMDB environment sits behind a small
//! set of trusted wrappers whose contracts speak of `store_map`, the
//! mathematical content of the store; on top of them the chunked encoder
//! splits oversize values across sub-keys `K ‖ BE64(n)` and is verified
//! to reassemble them exactly.

use vstd::prelude::*;
use crate::codec::{be64, u64_to_be_bytes_vec, lemma_be64_injective};

verus! {

/// kn0sys_lmdb_rs's error type, carried through unchanged.
#[verifier::external_type_specification]
#[verifier::external_body]
pub struct ExMdbError(kn0sys_lmdb_rs::MdbError);

/// The database environment for handling primary database operations:
/// one open LMDB environment and its default database.
#[verifier::external_body]
pub struct DatabaseEnvironment {
    env: kn0sys_lmdb_rs::Environment,
    handle: kn0sys_lmdb_rs::DbHandle,
}

/// What the store holds: every present key mapped to its value.
pub uninterp spec fn store_map(db: DatabaseEnvironment) -> Map<Seq<u8>, Seq<u8>>;

/// A store operation failure.
#[derive(Debug)]
pub enum DbError {
    /// A write was attempted under an empty primary key.
    EmptyKey,
    /// The backing store reported an error.
    Backend(kn0sys_lmdb_rs::MdbError),
}

impl DatabaseEnvironment {
    /// Relies on kn0sys_lmdb_rs's EnvBuilder::open and
    /// Environment::get_default_db: opens (creating the directory if
    /// missing) an environment at `path` with the given map size.
    /// Nothing is promised of the contents found on disk.
    #[verifier::external_body]
    pub fn open(path: &str, map_size: u64) -> Result<DatabaseEnvironment, kn0sys_lmdb_rs::MdbError> {
        let env = kn0sys_lmdb_rs::EnvBuilder::new().map_size(map_size).open(path, 0o777)?;
        let handle = env.get_default_db(kn0sys_lmdb_rs::DbFlags::empty())?;
        Ok(DatabaseEnvironment { env, handle })
    }
}

/// Relies on kn0sys_lmdb_rs's Database::insert (mdb_put with
/// MDB_NOOVERWRITE, committed in one write transaction): adds the pair
/// when the key is absent, returns KeyExists when it is present, and
/// rejects the empty key (MDB_BAD_VALSIZE).
#[verifier::external_body]
fn db_insert(db: &mut DatabaseEnvironment, k: &Vec<u8>, v: &Vec<u8>) -> (r: Result<
    (),
    kn0sys_lmdb_rs::MdbError,
>)
    ensures
        r is Ok ==> !store_map(*old(db)).contains_key(k@) && store_map(*final(db)) == store_map(
            *old(db),
        ).insert(k@, v@),
        r is Err ==> store_map(*final(db)) == store_map(*old(db)),
        store_map(*old(db)).contains_key(k@) ==> r is Err,
        k@.len() == 0 ==> r is Err,
{
    let txn = db.env.new_transaction()?;
    {
        let d = txn.bind(&db.handle);
        d.insert(k, v)?;
    }
    txn.commit()
}

/// Relies on kn0sys_lmdb_rs's Database::get in one read-only
/// transaction: returns the stored value, or NotFound when the key is
/// absent, which this wrapper converts to the empty value.
#[verifier::external_body]
fn db_get(db: &DatabaseEnvironment, k: &Vec<u8>) -> (r: Result<Vec<u8>, kn0sys_lmdb_rs::MdbError>)
    ensures
        r matches Ok(v) ==> v@ == (if store_map(*db).contains_key(k@) {
            store_map(*db)[k@]
        } else {
            Seq::<u8>::empty()
        }),
{
    let reader = db.env.get_reader()?;
    let d = reader.bind(&db.handle);
    match d.get::<Vec<u8>>(k) {
        Ok(v) => Ok(v),
        Err(kn0sys_lmdb_rs::MdbError::NotFound) => Ok(Vec::new()),
        Err(e) => Err(e),
    }
}

/// Relies on kn0sys_lmdb_rs's Database::del, committed in one write
/// transaction: removes the key; NotFound (key already absent) is
/// converted to success, since the removal already holds.
#[verifier::external_body]
fn db_del(db: &mut DatabaseEnvironment, k: &Vec<u8>) -> (r: Result<(), kn0sys_lmdb_rs::MdbError>)
    ensures
        r is Ok ==> store_map(*final(db)) == store_map(*old(db)).remove(k@),
        r is Err ==> store_map(*final(db)) == store_map(*old(db)),
{
    let txn = db.env.new_transaction()?;
    let outcome = {
        let d = txn.bind(&db.handle);
        match d.del(k) {
            Ok(()) => Ok(()),
            Err(kn0sys_lmdb_rs::MdbError::NotFound) => Ok(()),
            Err(e) => Err(e),
        }
    };
    outcome?;
    txn.commit()
}

// ---------------------------------------------------------------------------
// The chunk model.
// ---------------------------------------------------------------------------

/// Values are split into chunks of at most this many bytes.
pub const CHUNK_SIZE: usize = 65536;

/// The sub-key of chunk `n` of the value stored under `k`.
pub open spec fn chunk_key(k: Seq<u8>, n: u64) -> Seq<u8> {
    k + be64(n)
}

/// The bytes of chunk `n`, empty when absent.
pub open spec fn chunk_at(m: Map<Seq<u8>, Seq<u8>>, k: Seq<u8>, n: u64) -> Seq<u8> {
    if m.contains_key(chunk_key(k, n)) {
        m[chunk_key(k, n)]
    } else {
        Seq::<u8>::empty()
    }
}

pub open spec fn has_chunk(m: Map<Seq<u8>, Seq<u8>>, k: Seq<u8>, n: u64) -> bool {
    chunk_at(m, k, n).len() > 0
}

/// Chunks `0 .. count` concatenated in order.
pub open spec fn concat_chunks(m: Map<Seq<u8>, Seq<u8>>, k: Seq<u8>, count: int) -> Seq<u8>
    decreases count,
{
    if count <= 0 {
        Seq::<u8>::empty()
    } else {
        concat_chunks(m, k, count - 1) + chunk_at(m, k, (count - 1) as u64)
    }
}

/// How many chunks a value of `len` bytes is split into.
pub open spec fn spec_num_chunks(len: nat) -> nat {
    if len == 0 {
        0
    } else {
        ((len - 1) as int / (CHUNK_SIZE as int) + 1) as nat
    }
}

/// Chunk `i` of the value `v`.
pub open spec fn chunk_slice(v: Seq<u8>, i: int) -> Seq<u8> {
    if (i + 1) * CHUNK_SIZE <= v.len() {
        v.subrange(i * CHUNK_SIZE, (i + 1) * CHUNK_SIZE)
    } else {
        v.subrange(i * CHUNK_SIZE, v.len() as int)
    }
}

/// The store after chunks `0 .. j` of `v` have been written under `k`.
pub open spec fn write_chunks_model(
    m: Map<Seq<u8>, Seq<u8>>,
    k: Seq<u8>,
    v: Seq<u8>,
    j: int,
) -> Map<Seq<u8>, Seq<u8>>
    decreases j,
{
    if j <= 0 {
        m
    } else {
        write_chunks_model(m, k, v, j - 1).insert(chunk_key(k, (j - 1) as u64), chunk_slice(v, j - 1))
    }
}

/// Sub-keys of the same primary key differ whenever their indexes do.
pub proof fn lemma_chunk_key_injective(k: Seq<u8>, i: u64, j: u64)
    requires
        i != j,
    ensures
        chunk_key(k, i) != chunk_key(k, j),
{
    if chunk_key(k, i) == chunk_key(k, j) {
        assert(be64(i) =~= chunk_key(k, i).subrange(k.len() as int, k.len() as int + 8));
        assert(be64(j) =~= chunk_key(k, j).subrange(k.len() as int, k.len() as int + 8));
        lemma_be64_injective(i, j);
    }
}

// ---------------------------------------------------------------------------
// The chunked writer.
// ---------------------------------------------------------------------------

/// Builds the sub-key of chunk `n` under `k`.
fn make_chunk_key(k: &Vec<u8>, n: u64) -> (r: Vec<u8>)
    ensures
        r@ == chunk_key(k@, n),
{
    let mut ck = k.clone();
    let mut tail = u64_to_be_bytes_vec(n);
    proof {
        assert(ck@ =~= k@);
    }
    ck.append(&mut tail);
    ck
}

/// Write a value under `k`, split into chunks of at most `CHUNK_SIZE`
/// bytes stored at `k ‖ BE64(0)`, `k ‖ BE64(1)`, and so on.  Writing is
/// non-overwriting: a key whose first chunk is already present is
/// rejected by the store with KeyExists, and the caller is expected to
/// delete first.  Empty keys are rejected.
pub fn write_chunks(db: &mut DatabaseEnvironment, k: &Vec<u8>, v: &Vec<u8>) -> (r: Result<
    (),
    DbError,
>)
    ensures
        r is Ok && v@.len() == 0 ==> store_map(*final(db)) == store_map(*old(db)),
        r is Ok && v@.len() > 0 ==> k@.len() > 0 && !store_map(*old(db)).contains_key(
            chunk_key(k@, 0),
        ) && store_map(*final(db)) == write_chunks_model(
            store_map(*old(db)),
            k@,
            v@,
            spec_num_chunks(v@.len()) as int,
        ),
        r is Err ==> exists|j: int|
            0 <= j <= spec_num_chunks(v@.len()) && store_map(*final(db)) == write_chunks_model(
                store_map(*old(db)),
                k@,
                v@,
                j,
            ),
        k@.len() == 0 && v@.len() > 0 ==> r is Err,
        v@.len() > 0 && store_map(*old(db)).contains_key(chunk_key(k@, 0)) ==> r is Err
            && store_map(*final(db)) == store_map(*old(db)),
{
    let ghost m0 = store_map(*db);
    if v.len() == 0 {
        return Ok(());
    }
    if k.len() == 0 {
        proof {
            assert(store_map(*db) == write_chunks_model(m0, k@, v@, 0));
        }
        return Err(DbError::EmptyKey);
    }
    let num: usize = (v.len() - 1) / CHUNK_SIZE + 1;
    proof {
        vstd::arithmetic::div_mod::lemma_fundamental_div_mod(v@.len() - 1, CHUNK_SIZE as int);
    }
    let mut i: usize = 0;
    while i < num
        invariant
            m0 == store_map(*old(db)),
            0 < num == spec_num_chunks(v@.len()),
            0 < v@.len() <= usize::MAX,
            k@.len() > 0,
            (num - 1) * CHUNK_SIZE <= v@.len() - 1,
            0 <= i <= num,
            store_map(*db) == write_chunks_model(m0, k@, v@, i as int),
            i > 0 ==> !m0.contains_key(chunk_key(k@, 0)),
        decreases num - i,
    {
        proof {
            vstd::arithmetic::mul::lemma_mul_inequality(
                i as int,
                (num - 1) as int,
                CHUNK_SIZE as int,
            );
        }
        let ck = make_chunk_key(k, i as u64);
        let start = i * CHUNK_SIZE;
        let end = if v.len() - start > CHUNK_SIZE {
            start + CHUNK_SIZE
        } else {
            v.len()
        };
        let chunk = vstd::slice::slice_to_vec(vstd::slice::slice_subrange(v.as_slice(), start, end));
        proof {
            assert(chunk@ =~= chunk_slice(v@, i as int));
        }
        match db_insert(db, &ck, &chunk) {
            Ok(()) => {},
            Err(e) => {
                proof {
                    assert(store_map(*db) == write_chunks_model(m0, k@, v@, i as int));
                    if m0.contains_key(chunk_key(k@, 0)) {
                        assert(i == 0);
                        assert(store_map(*db) == m0);
                    }
                }
                return Err(DbError::Backend(e));
            },
        }
        proof {
            if i == 0 {
                assert(write_chunks_model(m0, k@, v@, 0) == m0);
            }
        }
        i += 1;
    }
    Ok(())
}

} // verus!

verus! {

/// The store after chunks `0 .. j` of key `k` have been removed.
pub open spec fn remove_chunks_model(m: Map<Seq<u8>, Seq<u8>>, k: Seq<u8>, j: int) -> Map<
    Seq<u8>,
    Seq<u8>,
>
    decreases j,
{
    if j <= 0 {
        m
    } else {
        remove_chunks_model(m, k, j - 1).remove(chunk_key(k, (j - 1) as u64))
    }
}

/// Removing the first `t` chunks leaves every later chunk untouched.
pub proof fn lemma_remove_model_chunk_at(m: Map<Seq<u8>, Seq<u8>>, k: Seq<u8>, t: int, j: u64)
    requires
        t <= j,
    ensures
        chunk_at(remove_chunks_model(m, k, t), k, j) == chunk_at(m, k, j),
    decreases t,
{
    if t > 0 {
        lemma_chunk_key_injective(k, (t - 1) as u64, j);
        lemma_remove_model_chunk_at(m, k, t - 1, j);
    }
}

impl DatabaseEnvironment {
    /// Read the chunked value stored under `k`: the concatenation of the
    /// chunks found at `k ‖ BE64(0)`, `k ‖ BE64(1)`, … up to the first
    /// absent one.  A missing key reads as the empty byte sequence, and
    /// so does the empty key.
    pub fn read(&self, k: &Vec<u8>) -> (r: Result<Vec<u8>, DbError>)
        ensures
            r matches Ok(res) ==> k@.len() == 0 ==> res@ == Seq::<u8>::empty(),
            r matches Ok(res) ==> k@.len() > 0 ==> res@ == stored_bytes(store_map(*self), k@),
            r matches Err(e) ==> e is Backend,
    {
        if k.len() == 0 {
            return Ok(Vec::new());
        }
        let mut result: Vec<u8> = Vec::new();
        let mut n: u64 = 0;
        proof {
            assert(result@ =~= concat_chunks(store_map(*self), k@, 0));
        }
        while n < u64::MAX
            invariant
                k@.len() > 0,
                forall|j: u64| j < n ==> has_chunk(store_map(*self), k@, j),
                result@ == concat_chunks(store_map(*self), k@, n as int),
            decreases u64::MAX - n,
        {
            let ck = make_chunk_key(k, n);
            let mut chunk = match db_get(self, &ck) {
                Ok(c) => c,
                Err(e) => {
                    return Err(DbError::Backend(e));
                },
            };
            if chunk.len() == 0 {
                proof {
                    assert(!has_chunk(store_map(*self), k@, n));
                    assert(walk_stop(store_map(*self), k@, n));
                    lemma_walk_stop_unique(store_map(*self), k@, n, walk_c(store_map(*self), k@));
                }
                return Ok(result);
            }
            result.append(&mut chunk);
            n += 1;
        }
        proof {
            assert(walk_stop(store_map(*self), k@, u64::MAX));
            lemma_walk_stop_unique(store_map(*self), k@, u64::MAX, walk_c(store_map(*self), k@));
        }
        Ok(result)
    }

    /// Delete the chunked value stored under `k`: every chunk up to the
    /// first absent one is removed.  The empty key deletes nothing.
    pub fn delete(&mut self, k: &Vec<u8>) -> (r: Result<(), DbError>)
        ensures
            r is Ok && k@.len() == 0 ==> store_map(*final(self)) == store_map(*old(self)),
            r is Ok && k@.len() > 0 ==> store_map(*final(self)) == remove_chunks_model(
                store_map(*old(self)),
                k@,
                walk_c(store_map(*old(self)), k@) as int,
            ),
            r is Err ==> exists|j: u64|
                store_map(*final(self)) == remove_chunks_model(
                    store_map(*old(self)),
                    k@,
                    j as int,
                ),
    {
        if k.len() == 0 {
            return Ok(());
        }
        let ghost m0 = store_map(*self);
        let mut n: u64 = 0;
        while n < u64::MAX
            invariant
                m0 == store_map(*old(self)),
                k@.len() > 0,
                forall|j: u64| j < n ==> has_chunk(m0, k@, j),
                store_map(*self) == remove_chunks_model(m0, k@, n as int),
            decreases u64::MAX - n,
        {
            let ck = make_chunk_key(k, n);
            let chunk = match db_get(self, &ck) {
                Ok(c) => c,
                Err(e) => {
                    return Err(DbError::Backend(e));
                },
            };
            proof {
                lemma_remove_model_chunk_at(m0, k@, n as int, n);
            }
            if chunk.len() == 0 {
                proof {
                    assert(!has_chunk(m0, k@, n));
                    assert(walk_stop(m0, k@, n));
                    lemma_walk_stop_unique(m0, k@, n, walk_c(m0, k@));
                }
                return Ok(());
            }
            match db_del(self, &ck) {
                Ok(()) => {},
                Err(e) => {
                    return Err(DbError::Backend(e));
                },
            }
            n += 1;
        }
        proof {
            assert(walk_stop(m0, k@, u64::MAX));
            lemma_walk_stop_unique(m0, k@, u64::MAX, walk_c(m0, k@));
        }
        Ok(())
    }
}

} // verus!

verus! {

// ---------------------------------------------------------------------------
// Laws of the chunked encoding.
// ---------------------------------------------------------------------------

/// The dense-prefix invariant of stored chunk sequences: a present
/// chunk is never preceded by an absent one.
pub open spec fn chunks_dense(m: Map<Seq<u8>, Seq<u8>>, k: Seq<u8>) -> bool {
    forall|n: u64| 1 <= n && #[trigger] has_chunk(m, k, n) ==> has_chunk(m, k, (n - 1) as u64)
}

/// Under the dense-prefix invariant, an absent first chunk means every
/// chunk is absent.
pub proof fn lemma_dense_absent_at(m: Map<Seq<u8>, Seq<u8>>, k: Seq<u8>, n: u64)
    requires
        chunks_dense(m, k),
        !has_chunk(m, k, 0),
    ensures
        !has_chunk(m, k, n),
    decreases n,
{
    if n > 0 {
        lemma_dense_absent_at(m, k, (n - 1) as u64);
    }
}

/// After writing `t` chunks, every earlier chunk holds its slice.
pub proof fn lemma_model_chunk_at(m: Map<Seq<u8>, Seq<u8>>, k: Seq<u8>, v: Seq<u8>, t: int, j: u64)
    requires
        0 <= j < t <= u64::MAX,
    ensures
        chunk_at(write_chunks_model(m, k, v, t), k, j) == chunk_slice(v, j as int),
    decreases t,
{
    if j == t - 1 {
    } else {
        lemma_chunk_key_injective(k, (t - 1) as u64, j);
        lemma_model_chunk_at(m, k, v, t - 1, j);
    }
}

/// Writing chunks of `k` touches no other key of the store.
pub proof fn lemma_model_preserves_other(
    m: Map<Seq<u8>, Seq<u8>>,
    k: Seq<u8>,
    v: Seq<u8>,
    t: int,
    other: Seq<u8>,
)
    requires
        forall|i: u64| i < t ==> other != chunk_key(k, i),
    ensures
        write_chunks_model(m, k, v, t).contains_key(other) == m.contains_key(other),
        m.contains_key(other) ==> write_chunks_model(m, k, v, t)[other] == m[other],
    decreases t,
{
    if t > 0 {
        lemma_model_preserves_other(m, k, v, t - 1, other);
    }
}

/// In particular, later chunks of `k` itself are untouched.
pub proof fn lemma_model_chunk_at_beyond(
    m: Map<Seq<u8>, Seq<u8>>,
    k: Seq<u8>,
    v: Seq<u8>,
    t: int,
    j: u64,
)
    requires
        j >= t,
    ensures
        chunk_at(write_chunks_model(m, k, v, t), k, j) == chunk_at(m, k, j),
{
    assert forall|i: u64| i < t implies chunk_key(k, j) != chunk_key(k, i) by {
        lemma_chunk_key_injective(k, j, i);
    }
    lemma_model_preserves_other(m, k, v, t, chunk_key(k, j));
}

/// Concatenating the first `t` written chunks yields the first
/// `t * CHUNK_SIZE` bytes of the value.
pub proof fn lemma_concat_written(m2: Map<Seq<u8>, Seq<u8>>, k: Seq<u8>, v: Seq<u8>, t: int)
    requires
        0 < v.len() <= usize::MAX,
        0 <= t <= spec_num_chunks(v.len()),
        forall|j: u64| j < t ==> chunk_at(m2, k, j) == chunk_slice(v, j as int),
    ensures
        concat_chunks(m2, k, t) == (if t * CHUNK_SIZE <= v.len() {
            v.take(t * CHUNK_SIZE)
        } else {
            v
        }),
    decreases t,
{
    if t > 0 {
        lemma_concat_written(m2, k, v, t - 1);
        assert(chunk_at(m2, k, (t - 1) as u64) == chunk_slice(v, t - 1));
        if t * CHUNK_SIZE <= v.len() {
            assert(v.take((t - 1) * CHUNK_SIZE) + v.subrange(
                (t - 1) * CHUNK_SIZE,
                t * CHUNK_SIZE,
            ) =~= v.take(t * CHUNK_SIZE));
        } else {
            assert((t - 1) * CHUNK_SIZE < v.len()) by {
                vstd::arithmetic::div_mod::lemma_fundamental_div_mod(
                    v.len() - 1,
                    CHUNK_SIZE as int,
                );
                vstd::arithmetic::mul::lemma_mul_inequality(
                    t - 1,
                    (spec_num_chunks(v.len()) - 1) as int,
                    CHUNK_SIZE as int,
                );
            }
            if (t - 1) * CHUNK_SIZE <= v.len() {
                assert(v.take((t - 1) * CHUNK_SIZE) + v.subrange(
                    (t - 1) * CHUNK_SIZE,
                    v.len() as int,
                ) =~= v);
            }
        }
    } else {
        assert(v.take(0) =~= Seq::<u8>::empty());
    }
}

/// The round trip of the chunked store: writing a value under a key
/// whose chunk sequence is absent (and dense), then reading it back by
/// the chunk-walk that `read` performs, returns the value bit for bit,
/// whatever stopping point the walk exhibits.
pub proof fn lemma_chunk_round_trip(m: Map<Seq<u8>, Seq<u8>>, k: Seq<u8>, v: Seq<u8>)
    requires
        k.len() > 0,
        0 < v.len() <= usize::MAX,
        chunks_dense(m, k),
        !m.contains_key(chunk_key(k, 0)),
    ensures
        ({
            let m2 = write_chunks_model(m, k, v, spec_num_chunks(v.len()) as int);
            forall|c: u64|
                ((forall|j: u64| j < c ==> has_chunk(m2, k, j)) && (c == u64::MAX || !has_chunk(
                    m2,
                    k,
                    c,
                ))) ==> concat_chunks(m2, k, c as int) == v
        }),
{
    let len = v.len() as int;
    let nm = spec_num_chunks(v.len()) as int;
    let m2 = write_chunks_model(m, k, v, nm);
    vstd::arithmetic::div_mod::lemma_fundamental_div_mod(len - 1, CHUNK_SIZE as int);
    assert(nm - 1 == (len - 1) / (CHUNK_SIZE as int));
    assert((nm - 1) * CHUNK_SIZE <= len - 1);
    assert(nm <= len);
    assert(nm < u64::MAX);
    assert forall|j: u64| j < nm implies has_chunk(m2, k, j) by {
        lemma_model_chunk_at(m, k, v, nm, j);
        vstd::arithmetic::mul::lemma_mul_inequality(j as int, nm - 1, CHUNK_SIZE as int);
        assert(chunk_slice(v, j as int).len() > 0);
    }
    assert forall|j: u64| j >= nm implies !has_chunk(m2, k, j) by {
        lemma_model_chunk_at_beyond(m, k, v, nm, j);
        lemma_dense_absent_at(m, k, j);
    }
    assert forall|c: u64|
        ((forall|j: u64| j < c ==> has_chunk(m2, k, j)) && (c == u64::MAX || !has_chunk(
            m2,
            k,
            c,
        ))) implies concat_chunks(m2, k, c as int) == v by {
        if c < nm {
            assert(has_chunk(m2, k, c));
        } else if c > nm {
            assert(has_chunk(m2, k, nm as u64));
        }
        assert(c == nm);
        assert forall|j: u64| j < nm implies chunk_at(m2, k, j) == chunk_slice(v, j as int) by {
            lemma_model_chunk_at(m, k, v, nm, j);
        }
        lemma_concat_written(m2, k, v, nm);
        assert(nm * CHUNK_SIZE > len - 1) by {
            vstd::arithmetic::div_mod::lemma_fundamental_div_mod(len - 1, CHUNK_SIZE as int);
        }
    }
}

} // verus!

verus! {

/// A stopping point of the chunk walk: every chunk before it present,
/// and it absent (or the walk exhausted).
pub open spec fn walk_stop(m: Map<Seq<u8>, Seq<u8>>, k: Seq<u8>, c: u64) -> bool {
    (forall|j: u64| j < c ==> has_chunk(m, k, j)) && (c == u64::MAX || !has_chunk(m, k, c))
}

/// The walk has exactly one stopping point.
pub proof fn lemma_walk_stop_unique(m: Map<Seq<u8>, Seq<u8>>, k: Seq<u8>, c1: u64, c2: u64)
    requires
        walk_stop(m, k, c1),
        walk_stop(m, k, c2),
    ensures
        c1 == c2,
{
    if c1 < c2 {
        assert(has_chunk(m, k, c1));
    } else if c2 < c1 {
        assert(has_chunk(m, k, c2));
    }
}

pub proof fn lemma_walk_stop_exists_from(m: Map<Seq<u8>, Seq<u8>>, k: Seq<u8>, j0: u64)
    requires
        !has_chunk(m, k, j0),
    ensures
        exists|c: u64| walk_stop(m, k, c),
    decreases j0,
{
    if forall|j: u64| j < j0 ==> has_chunk(m, k, j) {
        assert(walk_stop(m, k, j0));
    } else {
        let j1 = choose|j1: u64| j1 < j0 && !has_chunk(m, k, j1);
        lemma_walk_stop_exists_from(m, k, j1);
    }
}

pub proof fn lemma_walk_stop_exists(m: Map<Seq<u8>, Seq<u8>>, k: Seq<u8>)
    ensures
        exists|c: u64| walk_stop(m, k, c),
{
    if forall|j: u64| j < u64::MAX ==> has_chunk(m, k, j) {
        assert(walk_stop(m, k, u64::MAX));
    } else {
        let j0 = choose|j0: u64| j0 < u64::MAX && !has_chunk(m, k, j0);
        lemma_walk_stop_exists_from(m, k, j0);
    }
}

/// Where the chunk walk of `k` stops.
pub open spec fn walk_c(m: Map<Seq<u8>, Seq<u8>>, k: Seq<u8>) -> u64 {
    choose|c: u64| walk_stop(m, k, c)
}

/// The value the chunk walk of `k` reassembles: what `read` returns.
pub open spec fn stored_bytes(m: Map<Seq<u8>, Seq<u8>>, k: Seq<u8>) -> Seq<u8> {
    concat_chunks(m, k, walk_c(m, k) as int)
}

/// The store after the value under `k` has been replaced by `v`:
/// what one delete-then-write round leaves.
pub open spec fn replaced_value(m: Map<Seq<u8>, Seq<u8>>, k: Seq<u8>, v: Seq<u8>) -> Map<
    Seq<u8>,
    Seq<u8>,
> {
    write_chunks_model(
        remove_chunks_model(m, k, walk_c(m, k) as int),
        k,
        v,
        spec_num_chunks(v.len()) as int,
    )
}

/// Sub-keys determine their primary key and index: two chunk keys agree
/// only when both parts do.
pub proof fn lemma_chunk_key_pairs(k1: Seq<u8>, i: u64, k2: Seq<u8>, j: u64)
    requires
        chunk_key(k1, i) == chunk_key(k2, j),
    ensures
        k1 == k2,
        i == j,
{
    assert(be64(i).len() == 8);
    assert(be64(j).len() == 8);
    assert(chunk_key(k1, i).len() == k1.len() + 8);
    assert(chunk_key(k2, j).len() == k2.len() + 8);
    assert(k1.len() + 8 == k2.len() + 8);
    assert(k1 =~= chunk_key(k1, i).subrange(0, k1.len() as int));
    assert(k2 =~= chunk_key(k2, j).subrange(0, k2.len() as int));
    assert(be64(i) =~= chunk_key(k1, i).subrange(k1.len() as int, k1.len() as int + 8));
    assert(be64(j) =~= chunk_key(k2, j).subrange(k2.len() as int, k2.len() as int + 8));
    lemma_be64_injective(i, j);
}

/// Writing the chunks of one key leaves every other key's chunks alone.
pub proof fn lemma_model_other_key_chunks(
    m: Map<Seq<u8>, Seq<u8>>,
    k: Seq<u8>,
    v: Seq<u8>,
    t: int,
    k2: Seq<u8>,
    j: u64,
)
    requires
        k2 != k,
    ensures
        chunk_at(write_chunks_model(m, k, v, t), k2, j) == chunk_at(m, k2, j),
{
    assert forall|i: u64| i < t implies chunk_key(k2, j) != chunk_key(k, i) by {
        if chunk_key(k2, j) == chunk_key(k, i) {
            lemma_chunk_key_pairs(k2, j, k, i);
        }
    }
    lemma_model_preserves_other(m, k, v, t, chunk_key(k2, j));
}

/// Removing the chunks of one key leaves every other key's chunks alone.
pub proof fn lemma_remove_model_other_key_chunks(
    m: Map<Seq<u8>, Seq<u8>>,
    k: Seq<u8>,
    t: int,
    k2: Seq<u8>,
    j: u64,
)
    requires
        k2 != k,
    ensures
        chunk_at(remove_chunks_model(m, k, t), k2, j) == chunk_at(m, k2, j),
    decreases t,
{
    if t > 0 {
        lemma_remove_model_other_key_chunks(m, k, t - 1, k2, j);
        if chunk_key(k2, j) == chunk_key(k, (t - 1) as u64) {
            lemma_chunk_key_pairs(k2, j, k, (t - 1) as u64);
        }
    }
}

} // verus!

verus! {

/// Density propagates absence upward: above an absent chunk everything
/// is absent.
pub proof fn lemma_dense_absent_above(m: Map<Seq<u8>, Seq<u8>>, k: Seq<u8>, c: u64, j: u64)
    requires
        chunks_dense(m, k),
        !has_chunk(m, k, c),
        j >= c,
    ensures
        !has_chunk(m, k, j),
    decreases j - c,
{
    if j > c {
        lemma_dense_absent_above(m, k, c, (j - 1) as u64);
    }
}

/// Removing the first `t` chunks leaves them absent.
pub proof fn lemma_remove_model_removes(m: Map<Seq<u8>, Seq<u8>>, k: Seq<u8>, t: int, j: u64)
    requires
        0 <= j < t,
    ensures
        !has_chunk(remove_chunks_model(m, k, t), k, j),
    decreases t,
{
    if j == t - 1 {
    } else {
        lemma_remove_model_removes(m, k, t - 1, j);
    }
}

/// Equal chunk structure means equal walk results.
pub proof fn lemma_concat_equal(
    m1: Map<Seq<u8>, Seq<u8>>,
    m2: Map<Seq<u8>, Seq<u8>>,
    k: Seq<u8>,
    c: int,
)
    requires
        forall|j: u64| chunk_at(m1, k, j) == chunk_at(m2, k, j),
    ensures
        concat_chunks(m1, k, c) == concat_chunks(m2, k, c),
    decreases c,
{
    if c > 0 {
        lemma_concat_equal(m1, m2, k, c - 1);
    }
}

/// Equal chunk structure means the same stored value.
pub proof fn lemma_stored_bytes_equal(m1: Map<Seq<u8>, Seq<u8>>, m2: Map<Seq<u8>, Seq<u8>>, k: Seq<
    u8,
>)
    requires
        forall|j: u64| chunk_at(m1, k, j) == chunk_at(m2, k, j),
    ensures
        stored_bytes(m1, k) == stored_bytes(m2, k),
        walk_c(m1, k) == walk_c(m2, k),
{
    lemma_walk_stop_exists(m1, k);
    lemma_walk_stop_exists(m2, k);
    let c1 = walk_c(m1, k);
    let c2 = walk_c(m2, k);
    assert(walk_stop(m1, k, c1));
    assert(walk_stop(m2, k, c2));
    assert forall|j: u64| j < c1 implies has_chunk(m2, k, j) by {
        assert(has_chunk(m1, k, j));
        assert(chunk_at(m1, k, j) == chunk_at(m2, k, j));
    }
    if c1 != u64::MAX {
        assert(chunk_at(m1, k, c1) == chunk_at(m2, k, c1));
    }
    assert(walk_stop(m2, k, c1));
    lemma_walk_stop_unique(m2, k, c1, c2);
    lemma_concat_equal(m1, m2, k, c1 as int);
}

/// Writing a value under a key with no present chunks, then walking it,
/// returns the value.
pub proof fn lemma_write_fresh_reads(m: Map<Seq<u8>, Seq<u8>>, k: Seq<u8>, v: Seq<u8>)
    requires
        k.len() > 0,
        0 < v.len() <= usize::MAX,
        forall|j: u64| !has_chunk(m, k, j),
    ensures
        ({
            let m2 = write_chunks_model(m, k, v, spec_num_chunks(v.len()) as int);
            stored_bytes(m2, k) == v
        }),
{
    let len = v.len() as int;
    let nm = spec_num_chunks(v.len()) as int;
    let m2 = write_chunks_model(m, k, v, nm);
    vstd::arithmetic::div_mod::lemma_fundamental_div_mod(len - 1, CHUNK_SIZE as int);
    assert((nm - 1) * CHUNK_SIZE <= len - 1);
    assert(nm <= len);
    assert(nm < u64::MAX);
    assert forall|j: u64| j < nm implies has_chunk(m2, k, j) by {
        lemma_model_chunk_at(m, k, v, nm, j);
        vstd::arithmetic::mul::lemma_mul_inequality(j as int, nm - 1, CHUNK_SIZE as int);
        assert(chunk_slice(v, j as int).len() > 0);
    }
    assert(!has_chunk(m2, k, nm as u64)) by {
        lemma_model_chunk_at_beyond(m, k, v, nm, nm as u64);
        assert(!has_chunk(m, k, nm as u64));
    }
    assert(walk_stop(m2, k, nm as u64));
    lemma_walk_stop_unique(m2, k, nm as u64, walk_c(m2, k));
    assert forall|j: u64| j < nm implies chunk_at(m2, k, j) == chunk_slice(v, j as int) by {
        lemma_model_chunk_at(m, k, v, nm, j);
    }
    lemma_concat_written(m2, k, v, nm);
    assert(nm * CHUNK_SIZE > len - 1);
}

/// Replacing the value under a dense key, then walking it, returns the
/// new value.
pub proof fn lemma_replaced_value_reads(m: Map<Seq<u8>, Seq<u8>>, k: Seq<u8>, v: Seq<u8>)
    requires
        k.len() > 0,
        0 < v.len() <= usize::MAX,
        chunks_dense(m, k),
    ensures
        stored_bytes(replaced_value(m, k, v), k) == v,
{
    lemma_walk_stop_exists(m, k);
    let c0 = walk_c(m, k);
    assert(walk_stop(m, k, c0));
    let m1 = remove_chunks_model(m, k, c0 as int);
    let len = v.len() as int;
    let nm = spec_num_chunks(v.len()) as int;
    vstd::arithmetic::div_mod::lemma_fundamental_div_mod(len - 1, CHUNK_SIZE as int);
    assert((nm - 1) * CHUNK_SIZE <= len - 1);
    assert(nm <= len);
    assert(nm < u64::MAX);
    let m2 = write_chunks_model(m1, k, v, nm);
    assert forall|j: u64| j < nm implies has_chunk(m2, k, j) by {
        lemma_model_chunk_at(m1, k, v, nm, j);
        vstd::arithmetic::mul::lemma_mul_inequality(j as int, nm - 1, CHUNK_SIZE as int);
        assert(chunk_slice(v, j as int).len() > 0);
    }
    assert(!has_chunk(m1, k, nm as u64)) by {
        if nm < c0 {
            lemma_remove_model_removes(m, k, c0 as int, nm as u64);
        } else {
            lemma_remove_model_chunk_at(m, k, c0 as int, nm as u64);
            assert(c0 != u64::MAX);
            lemma_dense_absent_above(m, k, c0, nm as u64);
        }
    }
    assert(!has_chunk(m2, k, nm as u64)) by {
        lemma_model_chunk_at_beyond(m1, k, v, nm, nm as u64);
    }
    assert(walk_stop(m2, k, nm as u64));
    lemma_walk_stop_unique(m2, k, nm as u64, walk_c(m2, k));
    assert forall|j: u64| j < nm implies chunk_at(m2, k, j) == chunk_slice(v, j as int) by {
        lemma_model_chunk_at(m1, k, v, nm, j);
    }
    lemma_concat_written(m2, k, v, nm);
    assert(nm * CHUNK_SIZE > len - 1);
}

/// Replacing one key's value leaves every other key's chunks alone.
pub proof fn lemma_replaced_other_key(m: Map<Seq<u8>, Seq<u8>>, k: Seq<u8>, v: Seq<u8>, k2: Seq<
    u8,
>, j: u64)
    requires
        k2 != k,
    ensures
        chunk_at(replaced_value(m, k, v), k2, j) == chunk_at(m, k2, j),
{
    let m1 = remove_chunks_model(m, k, walk_c(m, k) as int);
    lemma_remove_model_other_key_chunks(m, k, walk_c(m, k) as int, k2, j);
    lemma_model_other_key_chunks(m1, k, v, spec_num_chunks(v.len()) as int, k2, j);
}

} // verus!

verus! {

/// Removing one key's chunks leaves every other key's stored value,
/// walk and density alone.
pub proof fn lemma_remove_preserves_stored(m: Map<Seq<u8>, Seq<u8>>, k: Seq<u8>, t: int, k2: Seq<
    u8,
>)
    requires
        k2 != k,
    ensures
        stored_bytes(remove_chunks_model(m, k, t), k2) == stored_bytes(m, k2),
        walk_c(remove_chunks_model(m, k, t), k2) == walk_c(m, k2),
        chunks_dense(m, k2) ==> chunks_dense(remove_chunks_model(m, k, t), k2),
        forall|j: u64| #[trigger] chunk_at(remove_chunks_model(m, k, t), k2, j) == chunk_at(
            m,
            k2,
            j,
        ),
{
    assert forall|j: u64| #[trigger] chunk_at(remove_chunks_model(m, k, t), k2, j) == chunk_at(
        m,
        k2,
        j,
    ) by {
        lemma_remove_model_other_key_chunks(m, k, t, k2, j);
    }
    lemma_stored_bytes_equal(remove_chunks_model(m, k, t), m, k2);
    if chunks_dense(m, k2) {
        assert forall|n: u64|
            1 <= n && #[trigger] has_chunk(remove_chunks_model(m, k, t), k2, n) implies has_chunk(
            remove_chunks_model(m, k, t),
            k2,
            (n - 1) as u64,
        ) by {
            assert(chunk_at(remove_chunks_model(m, k, t), k2, n) == chunk_at(m, k2, n));
            assert(chunk_at(remove_chunks_model(m, k, t), k2, (n - 1) as u64) == chunk_at(m, k2, (n - 1) as u64));
            assert(has_chunk(m, k2, n));
            assert(has_chunk(m, k2, (n - 1) as u64));
        }
    }
}

/// Writing one key's chunks leaves every other key's stored value,
/// walk and density alone.
pub proof fn lemma_write_preserves_stored(
    m: Map<Seq<u8>, Seq<u8>>,
    k: Seq<u8>,
    v: Seq<u8>,
    t: int,
    k2: Seq<u8>,
)
    requires
        k2 != k,
    ensures
        stored_bytes(write_chunks_model(m, k, v, t), k2) == stored_bytes(m, k2),
        walk_c(write_chunks_model(m, k, v, t), k2) == walk_c(m, k2),
        chunks_dense(m, k2) ==> chunks_dense(write_chunks_model(m, k, v, t), k2),
        forall|j: u64| #[trigger] chunk_at(write_chunks_model(m, k, v, t), k2, j) == chunk_at(
            m,
            k2,
            j,
        ),
{
    assert forall|j: u64| #[trigger] chunk_at(write_chunks_model(m, k, v, t), k2, j) == chunk_at(
        m,
        k2,
        j,
    ) by {
        lemma_model_other_key_chunks(m, k, v, t, k2, j);
    }
    lemma_stored_bytes_equal(write_chunks_model(m, k, v, t), m, k2);
    if chunks_dense(m, k2) {
        assert forall|n: u64|
            1 <= n && #[trigger] has_chunk(write_chunks_model(m, k, v, t), k2, n) implies has_chunk(
            write_chunks_model(m, k, v, t),
            k2,
            (n - 1) as u64,
        ) by {
            assert(chunk_at(write_chunks_model(m, k, v, t), k2, n) == chunk_at(m, k2, n));
            assert(chunk_at(write_chunks_model(m, k, v, t), k2, (n - 1) as u64) == chunk_at(m, k2, (n - 1) as u64));
            assert(has_chunk(m, k2, n));
            assert(has_chunk(m, k2, (n - 1) as u64));
        }
    }
}

/// Replacing one key's value leaves every other key's stored value,
/// walk and density alone.
pub proof fn lemma_replaced_preserves_stored(m: Map<Seq<u8>, Seq<u8>>, k: Seq<u8>, v: Seq<u8>, k2: Seq<
    u8,
>)
    requires
        k2 != k,
    ensures
        stored_bytes(replaced_value(m, k, v), k2) == stored_bytes(m, k2),
        walk_c(replaced_value(m, k, v), k2) == walk_c(m, k2),
        chunks_dense(m, k2) ==> chunks_dense(replaced_value(m, k, v), k2),
        chunk_at(replaced_value(m, k, v), k2, 0) == chunk_at(m, k2, 0),
{
    assert forall|j: u64| #[trigger] chunk_at(replaced_value(m, k, v), k2, j) == chunk_at(
        m,
        k2,
        j,
    ) by {
        lemma_replaced_other_key(m, k, v, k2, j);
    }
    lemma_stored_bytes_equal(replaced_value(m, k, v), m, k2);
    if chunks_dense(m, k2) {
        assert forall|n: u64|
            1 <= n && #[trigger] has_chunk(replaced_value(m, k, v), k2, n) implies has_chunk(
            replaced_value(m, k, v),
            k2,
            (n - 1) as u64,
        ) by {
            assert(chunk_at(replaced_value(m, k, v), k2, n) == chunk_at(m, k2, n));
            assert(chunk_at(replaced_value(m, k, v), k2, (n - 1) as u64) == chunk_at(m, k2, (n - 1) as u64));
            assert(has_chunk(m, k2, n));
            assert(has_chunk(m, k2, (n - 1) as u64));
        }
    }
}

} // verus!
