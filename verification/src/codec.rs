//! Binary encoding of the records this database persists: integers,
//! strings, string lists, and the collection record itself.  The format
//! is internal to this crate; every decoder is proved to invert its
//! encoder.

use vstd::prelude::*;
use vstd::bytes::*;
use vstd::utf8::*;

verus! {

// ---------------------------------------------------------------------------
// Big-endian u64, used to address the chunks of one stored value.
// ---------------------------------------------------------------------------

/// The eight big-endian bytes of `x`, appended to a primary key to form
/// the sub-key of one chunk.
pub open spec fn be64(x: u64) -> Seq<u8> {
    seq![
        ((x >> 56) & 0xff) as u8,
        ((x >> 48) & 0xff) as u8,
        ((x >> 40) & 0xff) as u8,
        ((x >> 32) & 0xff) as u8,
        ((x >> 24) & 0xff) as u8,
        ((x >> 16) & 0xff) as u8,
        ((x >> 8) & 0xff) as u8,
        (x & 0xff) as u8,
    ]
}

pub fn u64_to_be_bytes_vec(x: u64) -> (r: Vec<u8>)
    ensures
        r@ == be64(x),
{
    let mut r: Vec<u8> = Vec::new();
    r.push(((x >> 56) & 0xff) as u8);
    r.push(((x >> 48) & 0xff) as u8);
    r.push(((x >> 40) & 0xff) as u8);
    r.push(((x >> 32) & 0xff) as u8);
    r.push(((x >> 24) & 0xff) as u8);
    r.push(((x >> 16) & 0xff) as u8);
    r.push(((x >> 8) & 0xff) as u8);
    r.push((x & 0xff) as u8);
    proof {
        assert(r@ =~= be64(x));
    }
    r
}

pub proof fn lemma_be64_injective(a: u64, b: u64)
    requires
        be64(a) == be64(b),
    ensures
        a == b,
{
    assert(be64(a)[0] == be64(b)[0]);
    assert(be64(a)[1] == be64(b)[1]);
    assert(be64(a)[2] == be64(b)[2]);
    assert(be64(a)[3] == be64(b)[3]);
    assert(be64(a)[4] == be64(b)[4]);
    assert(be64(a)[5] == be64(b)[5]);
    assert(be64(a)[6] == be64(b)[6]);
    assert(be64(a)[7] == be64(b)[7]);
    assert({
        &&& ((a >> 56) & 0xff) as u8 == ((b >> 56) & 0xff) as u8
        &&& ((a >> 48) & 0xff) as u8 == ((b >> 48) & 0xff) as u8
        &&& ((a >> 40) & 0xff) as u8 == ((b >> 40) & 0xff) as u8
        &&& ((a >> 32) & 0xff) as u8 == ((b >> 32) & 0xff) as u8
        &&& ((a >> 24) & 0xff) as u8 == ((b >> 24) & 0xff) as u8
        &&& ((a >> 16) & 0xff) as u8 == ((b >> 16) & 0xff) as u8
        &&& ((a >> 8) & 0xff) as u8 == ((b >> 8) & 0xff) as u8
        &&& (a & 0xff) as u8 == (b & 0xff) as u8
    } ==> a == b) by (bit_vector);
}

// ---------------------------------------------------------------------------
// Record field encodings, all little-endian, length-prefixed.
// ---------------------------------------------------------------------------

pub open spec fn enc_u64(x: u64) -> Seq<u8> {
    spec_u64_to_le_bytes(x)
}

pub open spec fn enc_u32(x: u32) -> Seq<u8> {
    spec_u32_to_le_bytes(x)
}

/// A string is its UTF-8 byte length followed by its UTF-8 bytes.
pub open spec fn enc_str(s: Seq<char>) -> Seq<u8> {
    enc_u64(encode_utf8(s).len() as u64) + encode_utf8(s)
}

/// Spec-level decoder for a u64 at `pos`; returns the value and the
/// position just past it.
pub open spec fn dec_u64(b: Seq<u8>, pos: int) -> Option<(u64, int)> {
    if 0 <= pos && pos + 8 <= b.len() {
        Some((spec_u64_from_le_bytes(b.subrange(pos, pos + 8)), pos + 8))
    } else {
        None
    }
}

pub open spec fn dec_u32(b: Seq<u8>, pos: int) -> Option<(u32, int)> {
    if 0 <= pos && pos + 4 <= b.len() {
        Some((spec_u32_from_le_bytes(b.subrange(pos, pos + 4)), pos + 4))
    } else {
        None
    }
}

pub open spec fn dec_str(b: Seq<u8>, pos: int) -> Option<(Seq<char>, int)> {
    match dec_u64(b, pos) {
        None => None,
        Some((n, p)) => {
            if p + n <= b.len() && valid_utf8(b.subrange(p, p + n as int)) {
                Some((decode_utf8(b.subrange(p, p + n as int)), p + n as int))
            } else {
                None
            }
        },
    }
}

/// Decoding an encoded u64 embedded in a larger buffer yields it back.
pub proof fn lemma_dec_enc_u64(b: Seq<u8>, pos: int, x: u64)
    requires
        0 <= pos,
        pos + 8 <= b.len(),
        b.subrange(pos, pos + 8) == enc_u64(x),
    ensures
        dec_u64(b, pos) == Some((x, pos + 8)),
{
    lemma_auto_spec_u64_to_from_le_bytes();
}

pub proof fn lemma_dec_enc_u32(b: Seq<u8>, pos: int, x: u32)
    requires
        0 <= pos,
        pos + 4 <= b.len(),
        b.subrange(pos, pos + 4) == enc_u32(x),
    ensures
        dec_u32(b, pos) == Some((x, pos + 4)),
{
    lemma_auto_spec_u32_to_from_le_bytes();
    assert(spec_u32_to_le_bytes(x).len() == 4);
}

/// Decoding an encoded string embedded in a larger buffer yields it back.
pub proof fn lemma_dec_enc_str(b: Seq<u8>, pos: int, s: Seq<char>)
    requires
        0 <= pos,
        encode_utf8(s).len() <= u64::MAX,
        pos + enc_str(s).len() <= b.len(),
        b.subrange(pos, pos + enc_str(s).len()) == enc_str(s),
    ensures
        dec_str(b, pos) == Some((s, pos + enc_str(s).len())),
{
    let bytes = encode_utf8(s);
    let n = bytes.len() as u64;
    let total = enc_str(s).len();
    lemma_auto_spec_u64_to_from_le_bytes();
    assert(enc_u64(n).len() == 8);
    assert(total == 8 + bytes.len());
    assert(b.subrange(pos, pos + 8) =~= enc_str(s).subrange(0, 8));
    assert(enc_str(s).subrange(0, 8) =~= enc_u64(n));
    lemma_dec_enc_u64(b, pos, n);
    assert(b.subrange(pos + 8, pos + total) =~= enc_str(s).subrange(8, total as int));
    assert(enc_str(s).subrange(8, total as int) =~= bytes);
    encode_utf8_valid_utf8(s);
    encode_utf8_decode_utf8(s);
}

} // verus!

verus! {

// ---------------------------------------------------------------------------
// Lists: a u64 element count followed by the encoded elements.
// ---------------------------------------------------------------------------

pub open spec fn enc_str_seq(vs: Seq<Seq<char>>) -> Seq<u8>
    decreases vs.len(),
{
    if vs.len() == 0 {
        Seq::empty()
    } else {
        enc_str(vs[0]) + enc_str_seq(vs.drop_first())
    }
}

/// A string list is its length followed by each string in order.
pub open spec fn enc_str_list(vs: Seq<Seq<char>>) -> Seq<u8> {
    enc_u64(vs.len() as u64) + enc_str_seq(vs)
}

/// Every string list this format can carry: lengths fit the u64 prefixes.
pub open spec fn wf_str_seq(vs: Seq<Seq<char>>) -> bool {
    &&& vs.len() <= u64::MAX
    &&& forall|i: int| 0 <= i < vs.len() ==> encode_utf8(#[trigger] vs[i]).len() <= u64::MAX
}

pub open spec fn dec_str_seq(b: Seq<u8>, pos: int, count: nat) -> Option<(Seq<Seq<char>>, int)>
    decreases count,
{
    if count == 0 {
        Some((Seq::empty(), pos))
    } else {
        match dec_str(b, pos) {
            None => None,
            Some((s, p)) => match dec_str_seq(b, p, (count - 1) as nat) {
                None => None,
                Some((rest, p2)) => Some((seq![s] + rest, p2)),
            },
        }
    }
}

pub open spec fn dec_str_list(b: Seq<u8>, pos: int) -> Option<(Seq<Seq<char>>, int)> {
    match dec_u64(b, pos) {
        None => None,
        Some((n, p)) => dec_str_seq(b, p, n as nat),
    }
}

pub proof fn lemma_dec_enc_str_seq(b: Seq<u8>, pos: int, vs: Seq<Seq<char>>)
    requires
        wf_str_seq(vs),
        0 <= pos,
        pos + enc_str_seq(vs).len() <= b.len(),
        b.subrange(pos, pos + enc_str_seq(vs).len()) == enc_str_seq(vs),
    ensures
        dec_str_seq(b, pos, vs.len()) == Some((vs, pos + enc_str_seq(vs).len())),
    decreases vs.len(),
{
    if vs.len() == 0 {
        assert(vs =~= Seq::<Seq<char>>::empty());
    } else {
        let e0 = enc_str(vs[0]);
        let rest = enc_str_seq(vs.drop_first());
        let total = enc_str_seq(vs).len();
        assert(enc_str_seq(vs) == e0 + rest);
        assert(b.subrange(pos, pos + e0.len() as int) =~= enc_str_seq(vs).subrange(
            0,
            e0.len() as int,
        ));
        assert(enc_str_seq(vs).subrange(0, e0.len() as int) =~= e0);
        lemma_dec_enc_str(b, pos, vs[0]);
        let p = pos + e0.len();
        assert(b.subrange(p, pos + total) =~= enc_str_seq(vs).subrange(
            e0.len() as int,
            total as int,
        ));
        assert(enc_str_seq(vs).subrange(e0.len() as int, total as int) =~= rest);
        assert(wf_str_seq(vs.drop_first())) by {
            assert(forall|i: int|
                0 <= i < vs.drop_first().len() ==> #[trigger] vs.drop_first()[i] == vs[i + 1]);
        }
        lemma_dec_enc_str_seq(b, p, vs.drop_first());
        assert(seq![vs[0]] + vs.drop_first() =~= vs);
    }
}

pub proof fn lemma_dec_enc_str_list(b: Seq<u8>, pos: int, vs: Seq<Seq<char>>)
    requires
        wf_str_seq(vs),
        0 <= pos,
        pos + enc_str_list(vs).len() <= b.len(),
        b.subrange(pos, pos + enc_str_list(vs).len()) == enc_str_list(vs),
    ensures
        dec_str_list(b, pos) == Some((vs, pos + enc_str_list(vs).len())),
{
    let n = vs.len() as u64;
    let total = enc_str_list(vs).len();
    lemma_auto_spec_u64_to_from_le_bytes();
    assert(b.subrange(pos, pos + 8) =~= enc_str_list(vs).subrange(0, 8));
    assert(enc_str_list(vs).subrange(0, 8) =~= enc_u64(n));
    lemma_dec_enc_u64(b, pos, n);
    assert(b.subrange(pos + 8, pos + total) =~= enc_str_list(vs).subrange(8, total as int));
    assert(enc_str_list(vs).subrange(8, total as int) =~= enc_str_seq(vs));
    lemma_dec_enc_str_seq(b, pos + 8, vs);
}

// ---------------------------------------------------------------------------
// Rows of u32 values: the bit patterns of one embedding row.
// ---------------------------------------------------------------------------

pub open spec fn enc_u32_seq(xs: Seq<u32>) -> Seq<u8>
    decreases xs.len(),
{
    if xs.len() == 0 {
        Seq::empty()
    } else {
        enc_u32(xs[0]) + enc_u32_seq(xs.drop_first())
    }
}

/// One matrix row: its length followed by each entry.
pub open spec fn enc_u32_row(xs: Seq<u32>) -> Seq<u8> {
    enc_u64(xs.len() as u64) + enc_u32_seq(xs)
}

pub open spec fn enc_row_seq(rows: Seq<Seq<u32>>) -> Seq<u8>
    decreases rows.len(),
{
    if rows.len() == 0 {
        Seq::empty()
    } else {
        enc_u32_row(rows[0]) + enc_row_seq(rows.drop_first())
    }
}

/// A matrix: its row count followed by each row.
pub open spec fn enc_matrix(rows: Seq<Seq<u32>>) -> Seq<u8> {
    enc_u64(rows.len() as u64) + enc_row_seq(rows)
}

pub open spec fn wf_matrix(rows: Seq<Seq<u32>>) -> bool {
    &&& rows.len() <= u64::MAX
    &&& forall|i: int| 0 <= i < rows.len() ==> (#[trigger] rows[i]).len() <= u64::MAX
}

pub open spec fn dec_u32_seq(b: Seq<u8>, pos: int, count: nat) -> Option<(Seq<u32>, int)>
    decreases count,
{
    if count == 0 {
        Some((Seq::empty(), pos))
    } else {
        match dec_u32(b, pos) {
            None => None,
            Some((x, p)) => match dec_u32_seq(b, p, (count - 1) as nat) {
                None => None,
                Some((rest, p2)) => Some((seq![x] + rest, p2)),
            },
        }
    }
}

pub open spec fn dec_u32_row(b: Seq<u8>, pos: int) -> Option<(Seq<u32>, int)> {
    match dec_u64(b, pos) {
        None => None,
        Some((n, p)) => dec_u32_seq(b, p, n as nat),
    }
}

pub open spec fn dec_row_seq(b: Seq<u8>, pos: int, count: nat) -> Option<(Seq<Seq<u32>>, int)>
    decreases count,
{
    if count == 0 {
        Some((Seq::empty(), pos))
    } else {
        match dec_u32_row(b, pos) {
            None => None,
            Some((row, p)) => match dec_row_seq(b, p, (count - 1) as nat) {
                None => None,
                Some((rest, p2)) => Some((seq![row] + rest, p2)),
            },
        }
    }
}

pub open spec fn dec_matrix(b: Seq<u8>, pos: int) -> Option<(Seq<Seq<u32>>, int)> {
    match dec_u64(b, pos) {
        None => None,
        Some((n, p)) => dec_row_seq(b, p, n as nat),
    }
}

pub proof fn lemma_dec_enc_u32_seq(b: Seq<u8>, pos: int, xs: Seq<u32>)
    requires
        0 <= pos,
        pos + enc_u32_seq(xs).len() <= b.len(),
        b.subrange(pos, pos + enc_u32_seq(xs).len()) == enc_u32_seq(xs),
    ensures
        dec_u32_seq(b, pos, xs.len()) == Some((xs, pos + enc_u32_seq(xs).len())),
    decreases xs.len(),
{
    lemma_auto_spec_u32_to_from_le_bytes();
    if xs.len() == 0 {
        assert(xs =~= Seq::<u32>::empty());
    } else {
        let e0 = enc_u32(xs[0]);
        let rest = enc_u32_seq(xs.drop_first());
        let total = enc_u32_seq(xs).len();
        assert(enc_u32_seq(xs) == e0 + rest);
        assert(b.subrange(pos, pos + 4) =~= enc_u32_seq(xs).subrange(0, 4));
        assert(enc_u32_seq(xs).subrange(0, 4) =~= e0);
        lemma_dec_enc_u32(b, pos, xs[0]);
        assert(b.subrange(pos + 4, pos + total) =~= enc_u32_seq(xs).subrange(4, total as int));
        assert(enc_u32_seq(xs).subrange(4, total as int) =~= rest);
        lemma_dec_enc_u32_seq(b, pos + 4, xs.drop_first());
        assert(seq![xs[0]] + xs.drop_first() =~= xs);
    }
}

pub proof fn lemma_dec_enc_u32_row(b: Seq<u8>, pos: int, xs: Seq<u32>)
    requires
        xs.len() <= u64::MAX,
        0 <= pos,
        pos + enc_u32_row(xs).len() <= b.len(),
        b.subrange(pos, pos + enc_u32_row(xs).len()) == enc_u32_row(xs),
    ensures
        dec_u32_row(b, pos) == Some((xs, pos + enc_u32_row(xs).len())),
{
    let n = xs.len() as u64;
    let total = enc_u32_row(xs).len();
    lemma_auto_spec_u64_to_from_le_bytes();
    assert(b.subrange(pos, pos + 8) =~= enc_u32_row(xs).subrange(0, 8));
    assert(enc_u32_row(xs).subrange(0, 8) =~= enc_u64(n));
    lemma_dec_enc_u64(b, pos, n);
    assert(b.subrange(pos + 8, pos + total) =~= enc_u32_row(xs).subrange(8, total as int));
    assert(enc_u32_row(xs).subrange(8, total as int) =~= enc_u32_seq(xs));
    lemma_dec_enc_u32_seq(b, pos + 8, xs);
}

pub proof fn lemma_dec_enc_row_seq(b: Seq<u8>, pos: int, rows: Seq<Seq<u32>>)
    requires
        wf_matrix(rows),
        0 <= pos,
        pos + enc_row_seq(rows).len() <= b.len(),
        b.subrange(pos, pos + enc_row_seq(rows).len()) == enc_row_seq(rows),
    ensures
        dec_row_seq(b, pos, rows.len()) == Some((rows, pos + enc_row_seq(rows).len())),
    decreases rows.len(),
{
    if rows.len() == 0 {
        assert(rows =~= Seq::<Seq<u32>>::empty());
    } else {
        let e0 = enc_u32_row(rows[0]);
        let rest = enc_row_seq(rows.drop_first());
        let total = enc_row_seq(rows).len();
        assert(enc_row_seq(rows) == e0 + rest);
        assert(b.subrange(pos, pos + e0.len() as int) =~= enc_row_seq(rows).subrange(
            0,
            e0.len() as int,
        ));
        assert(enc_row_seq(rows).subrange(0, e0.len() as int) =~= e0);
        lemma_dec_enc_u32_row(b, pos, rows[0]);
        let p = pos + e0.len();
        assert(b.subrange(p, pos + total) =~= enc_row_seq(rows).subrange(
            e0.len() as int,
            total as int,
        ));
        assert(enc_row_seq(rows).subrange(e0.len() as int, total as int) =~= rest);
        assert(wf_matrix(rows.drop_first())) by {
            assert(forall|i: int|
                0 <= i < rows.drop_first().len() ==> #[trigger] rows.drop_first()[i] == rows[i
                    + 1]);
        }
        lemma_dec_enc_row_seq(b, p, rows.drop_first());
        assert(seq![rows[0]] + rows.drop_first() =~= rows);
    }
}

pub proof fn lemma_dec_enc_matrix(b: Seq<u8>, pos: int, rows: Seq<Seq<u32>>)
    requires
        wf_matrix(rows),
        0 <= pos,
        pos + enc_matrix(rows).len() <= b.len(),
        b.subrange(pos, pos + enc_matrix(rows).len()) == enc_matrix(rows),
    ensures
        dec_matrix(b, pos) == Some((rows, pos + enc_matrix(rows).len())),
{
    let n = rows.len() as u64;
    let total = enc_matrix(rows).len();
    lemma_auto_spec_u64_to_from_le_bytes();
    assert(b.subrange(pos, pos + 8) =~= enc_matrix(rows).subrange(0, 8));
    assert(enc_matrix(rows).subrange(0, 8) =~= enc_u64(n));
    lemma_dec_enc_u64(b, pos, n);
    assert(b.subrange(pos + 8, pos + total) =~= enc_matrix(rows).subrange(8, total as int));
    assert(enc_matrix(rows).subrange(8, total as int) =~= enc_row_seq(rows));
    lemma_dec_enc_row_seq(b, pos + 8, rows);
}

// ---------------------------------------------------------------------------
// Lists of string lists: the per-row metadata documents.
// ---------------------------------------------------------------------------

pub open spec fn enc_meta_seq(ms: Seq<Seq<Seq<char>>>) -> Seq<u8>
    decreases ms.len(),
{
    if ms.len() == 0 {
        Seq::empty()
    } else {
        enc_str_list(ms[0]) + enc_meta_seq(ms.drop_first())
    }
}

/// Metadata: its row count followed by one string list per row.
pub open spec fn enc_meta_list(ms: Seq<Seq<Seq<char>>>) -> Seq<u8> {
    enc_u64(ms.len() as u64) + enc_meta_seq(ms)
}

pub open spec fn wf_meta_seq(ms: Seq<Seq<Seq<char>>>) -> bool {
    &&& ms.len() <= u64::MAX
    &&& forall|i: int| 0 <= i < ms.len() ==> wf_str_seq(#[trigger] ms[i])
}

pub open spec fn dec_meta_seq(b: Seq<u8>, pos: int, count: nat) -> Option<
    (Seq<Seq<Seq<char>>>, int),
>
    decreases count,
{
    if count == 0 {
        Some((Seq::empty(), pos))
    } else {
        match dec_str_list(b, pos) {
            None => None,
            Some((m, p)) => match dec_meta_seq(b, p, (count - 1) as nat) {
                None => None,
                Some((rest, p2)) => Some((seq![m] + rest, p2)),
            },
        }
    }
}

pub open spec fn dec_meta_list(b: Seq<u8>, pos: int) -> Option<(Seq<Seq<Seq<char>>>, int)> {
    match dec_u64(b, pos) {
        None => None,
        Some((n, p)) => dec_meta_seq(b, p, n as nat),
    }
}

pub proof fn lemma_dec_enc_meta_seq(b: Seq<u8>, pos: int, ms: Seq<Seq<Seq<char>>>)
    requires
        wf_meta_seq(ms),
        0 <= pos,
        pos + enc_meta_seq(ms).len() <= b.len(),
        b.subrange(pos, pos + enc_meta_seq(ms).len()) == enc_meta_seq(ms),
    ensures
        dec_meta_seq(b, pos, ms.len()) == Some((ms, pos + enc_meta_seq(ms).len())),
    decreases ms.len(),
{
    if ms.len() == 0 {
        assert(ms =~= Seq::<Seq<Seq<char>>>::empty());
    } else {
        let e0 = enc_str_list(ms[0]);
        let rest = enc_meta_seq(ms.drop_first());
        let total = enc_meta_seq(ms).len();
        assert(enc_meta_seq(ms) == e0 + rest);
        assert(b.subrange(pos, pos + e0.len() as int) =~= enc_meta_seq(ms).subrange(
            0,
            e0.len() as int,
        ));
        assert(enc_meta_seq(ms).subrange(0, e0.len() as int) =~= e0);
        lemma_dec_enc_str_list(b, pos, ms[0]);
        let p = pos + e0.len();
        assert(b.subrange(p, pos + total) =~= enc_meta_seq(ms).subrange(
            e0.len() as int,
            total as int,
        ));
        assert(enc_meta_seq(ms).subrange(e0.len() as int, total as int) =~= rest);
        assert(wf_meta_seq(ms.drop_first())) by {
            assert(forall|i: int|
                0 <= i < ms.drop_first().len() ==> #[trigger] ms.drop_first()[i] == ms[i + 1]);
        }
        lemma_dec_enc_meta_seq(b, p, ms.drop_first());
        assert(seq![ms[0]] + ms.drop_first() =~= ms);
    }
}

pub proof fn lemma_dec_enc_meta_list(b: Seq<u8>, pos: int, ms: Seq<Seq<Seq<char>>>)
    requires
        wf_meta_seq(ms),
        0 <= pos,
        pos + enc_meta_list(ms).len() <= b.len(),
        b.subrange(pos, pos + enc_meta_list(ms).len()) == enc_meta_list(ms),
    ensures
        dec_meta_list(b, pos) == Some((ms, pos + enc_meta_list(ms).len())),
{
    let n = ms.len() as u64;
    let total = enc_meta_list(ms).len();
    lemma_auto_spec_u64_to_from_le_bytes();
    assert(b.subrange(pos, pos + 8) =~= enc_meta_list(ms).subrange(0, 8));
    assert(enc_meta_list(ms).subrange(0, 8) =~= enc_u64(n));
    lemma_dec_enc_u64(b, pos, n);
    assert(b.subrange(pos + 8, pos + total) =~= enc_meta_list(ms).subrange(8, total as int));
    assert(enc_meta_list(ms).subrange(8, total as int) =~= enc_meta_seq(ms));
    lemma_dec_enc_meta_seq(b, pos + 8, ms);
}

} // verus!

verus! {

// ---------------------------------------------------------------------------
// Concatenation laws used by the encoder loops.
// ---------------------------------------------------------------------------

pub proof fn lemma_enc_str_seq_concat(a: Seq<Seq<char>>, c: Seq<Seq<char>>)
    ensures
        enc_str_seq(a + c) == enc_str_seq(a) + enc_str_seq(c),
    decreases a.len(),
{
    if a.len() == 0 {
        assert(a + c =~= c);
        assert(enc_str_seq(a) + enc_str_seq(c) =~= enc_str_seq(c));
    } else {
        assert((a + c).drop_first() =~= a.drop_first() + c);
        lemma_enc_str_seq_concat(a.drop_first(), c);
        assert(enc_str_seq(a + c) =~= enc_str_seq(a) + enc_str_seq(c));
    }
}

pub proof fn lemma_enc_row_seq_concat(a: Seq<Seq<u32>>, c: Seq<Seq<u32>>)
    ensures
        enc_row_seq(a + c) == enc_row_seq(a) + enc_row_seq(c),
    decreases a.len(),
{
    if a.len() == 0 {
        assert(a + c =~= c);
        assert(enc_row_seq(a) + enc_row_seq(c) =~= enc_row_seq(c));
    } else {
        assert((a + c).drop_first() =~= a.drop_first() + c);
        lemma_enc_row_seq_concat(a.drop_first(), c);
        assert(enc_row_seq(a + c) =~= enc_row_seq(a) + enc_row_seq(c));
    }
}

pub proof fn lemma_enc_u32_seq_concat(a: Seq<u32>, c: Seq<u32>)
    ensures
        enc_u32_seq(a + c) == enc_u32_seq(a) + enc_u32_seq(c),
    decreases a.len(),
{
    if a.len() == 0 {
        assert(a + c =~= c);
        assert(enc_u32_seq(a) + enc_u32_seq(c) =~= enc_u32_seq(c));
    } else {
        assert((a + c).drop_first() =~= a.drop_first() + c);
        lemma_enc_u32_seq_concat(a.drop_first(), c);
        assert(enc_u32_seq(a + c) =~= enc_u32_seq(a) + enc_u32_seq(c));
    }
}

pub proof fn lemma_enc_meta_seq_concat(a: Seq<Seq<Seq<char>>>, c: Seq<Seq<Seq<char>>>)
    ensures
        enc_meta_seq(a + c) == enc_meta_seq(a) + enc_meta_seq(c),
    decreases a.len(),
{
    if a.len() == 0 {
        assert(a + c =~= c);
        assert(enc_meta_seq(a) + enc_meta_seq(c) =~= enc_meta_seq(c));
    } else {
        assert((a + c).drop_first() =~= a.drop_first() + c);
        lemma_enc_meta_seq_concat(a.drop_first(), c);
        assert(enc_meta_seq(a + c) =~= enc_meta_seq(a) + enc_meta_seq(c));
    }
}


pub proof fn lemma_enc_str_seq_singleton(v: Seq<char>)
    ensures
        enc_str_seq(seq![v]) == enc_str(v),
{
    assert(seq![v].drop_first() =~= Seq::<Seq<char>>::empty());
    assert(enc_str_seq(Seq::<Seq<char>>::empty()) =~= Seq::<u8>::empty());
    assert(enc_str_seq(seq![v]) =~= enc_str(v));
}

pub proof fn lemma_enc_u32_seq_singleton(v: u32)
    ensures
        enc_u32_seq(seq![v]) == enc_u32(v),
{
    assert(seq![v].drop_first() =~= Seq::<u32>::empty());
    assert(enc_u32_seq(Seq::<u32>::empty()) =~= Seq::<u8>::empty());
    assert(enc_u32_seq(seq![v]) =~= enc_u32(v));
}

pub proof fn lemma_enc_row_seq_singleton(v: Seq<u32>)
    ensures
        enc_row_seq(seq![v]) == enc_u32_row(v),
{
    assert(seq![v].drop_first() =~= Seq::<Seq<u32>>::empty());
    assert(enc_row_seq(Seq::<Seq<u32>>::empty()) =~= Seq::<u8>::empty());
    assert(enc_row_seq(seq![v]) =~= enc_u32_row(v));
}

pub proof fn lemma_enc_meta_seq_singleton(v: Seq<Seq<char>>)
    ensures
        enc_meta_seq(seq![v]) == enc_str_list(v),
{
    assert(seq![v].drop_first() =~= Seq::<Seq<Seq<char>>>::empty());
    assert(enc_meta_seq(Seq::<Seq<Seq<char>>>::empty()) =~= Seq::<u8>::empty());
    assert(enc_meta_seq(seq![v]) =~= enc_str_list(v));
}

// ---------------------------------------------------------------------------
// Executable encoders.  Each appends one encoding to `out`.
// ---------------------------------------------------------------------------

pub fn encode_u64(out: &mut Vec<u8>, x: u64)
    ensures
        final(out)@ == old(out)@ + enc_u64(x),
{
    let bs = u64_to_le_bytes(x);
    out.extend_from_slice(bs.as_slice());
}

pub fn encode_u32(out: &mut Vec<u8>, x: u32)
    ensures
        final(out)@ == old(out)@ + enc_u32(x),
{
    let bs = u32_to_le_bytes(x);
    out.extend_from_slice(bs.as_slice());
}

pub fn encode_str(out: &mut Vec<u8>, s: &str)
    ensures
        final(out)@ == old(out)@ + enc_str(s@),
        encode_utf8(s@).len() <= u64::MAX,
{
    let bs = s.as_bytes();
    encode_u64(out, bs.len() as u64);
    out.extend_from_slice(bs);
    proof {
        assert(out@ =~= old(out)@ + enc_str(s@));
    }
}

pub fn encode_str_list(out: &mut Vec<u8>, vs: &Vec<String>)
    ensures
        final(out)@ == old(out)@ + enc_str_list(vs.deep_view()),
        wf_str_seq(vs.deep_view()),
{
    encode_u64(out, vs.len() as u64);
    let ghost dv = vs.deep_view();
    let mut i: usize = 0;
    while i < vs.len()
        invariant
            0 <= i <= vs.len(),
            dv == vs.deep_view(),
            dv.len() == vs@.len(),
            out@ == old(out)@ + enc_u64(vs@.len() as u64) + enc_str_seq(dv.take(i as int)),
            forall|j: int| 0 <= j < i ==> encode_utf8(#[trigger] dv[j]).len() <= u64::MAX,
        decreases vs.len() - i,
    {
        proof {
            assert(dv.take(i as int + 1) =~= dv.take(i as int) + seq![dv[i as int]]);
            lemma_enc_str_seq_concat(dv.take(i as int), seq![dv[i as int]]);
            lemma_enc_str_seq_singleton(dv[i as int]);
            assert(dv[i as int] == vs@[i as int]@);
        }
        encode_str(out, vs[i].as_str());
        i += 1;
    }
    proof {
        assert(dv.take(vs@.len() as int) =~= dv);
        assert(out@ =~= old(out)@ + enc_str_list(vs.deep_view()));
    }
}

pub fn encode_u32_row(out: &mut Vec<u8>, xs: &Vec<u32>)
    ensures
        final(out)@ == old(out)@ + enc_u32_row(xs@),
        xs@.len() <= u64::MAX,
{
    encode_u64(out, xs.len() as u64);
    let mut i: usize = 0;
    while i < xs.len()
        invariant
            0 <= i <= xs.len(),
            out@ == old(out)@ + enc_u64(xs@.len() as u64) + enc_u32_seq(xs@.take(i as int)),
        decreases xs.len() - i,
    {
        proof {
            assert(xs@.take(i as int + 1) =~= xs@.take(i as int) + seq![xs@[i as int]]);
            lemma_enc_u32_seq_concat(xs@.take(i as int), seq![xs@[i as int]]);
            lemma_enc_u32_seq_singleton(xs@[i as int]);
        }
        encode_u32(out, xs[i]);
        i += 1;
    }
    proof {
        assert(xs@.take(xs@.len() as int) =~= xs@);
        assert(out@ =~= old(out)@ + enc_u32_row(xs@));
    }
}

pub fn encode_matrix(out: &mut Vec<u8>, rows: &Vec<Vec<u32>>)
    ensures
        final(out)@ == old(out)@ + enc_matrix(rows.deep_view()),
        wf_matrix(rows.deep_view()),
{
    encode_u64(out, rows.len() as u64);
    let ghost dv = rows.deep_view();
    let mut i: usize = 0;
    while i < rows.len()
        invariant
            0 <= i <= rows.len(),
            dv == rows.deep_view(),
            dv.len() == rows@.len(),
            out@ == old(out)@ + enc_u64(rows@.len() as u64) + enc_row_seq(dv.take(i as int)),
            forall|j: int| 0 <= j < i ==> (#[trigger] dv[j]).len() <= u64::MAX,
        decreases rows.len() - i,
    {
        proof {
            assert(dv.take(i as int + 1) =~= dv.take(i as int) + seq![dv[i as int]]);
            lemma_enc_row_seq_concat(dv.take(i as int), seq![dv[i as int]]);
            lemma_enc_row_seq_singleton(dv[i as int]);
            assert(dv[i as int] == rows@[i as int]@);
        }
        encode_u32_row(out, &rows[i]);
        i += 1;
    }
    proof {
        assert(dv.take(rows@.len() as int) =~= dv);
        assert(out@ =~= old(out)@ + enc_matrix(rows.deep_view()));
    }
}

pub fn encode_meta_list(out: &mut Vec<u8>, ms: &Vec<Vec<String>>)
    ensures
        final(out)@ == old(out)@ + enc_meta_list(ms.deep_view()),
        wf_meta_seq(ms.deep_view()),
{
    encode_u64(out, ms.len() as u64);
    let ghost dv = ms.deep_view();
    let mut i: usize = 0;
    while i < ms.len()
        invariant
            0 <= i <= ms.len(),
            dv == ms.deep_view(),
            dv.len() == ms@.len(),
            out@ == old(out)@ + enc_u64(ms@.len() as u64) + enc_meta_seq(dv.take(i as int)),
            forall|j: int| 0 <= j < i ==> wf_str_seq(#[trigger] dv[j]),
        decreases ms.len() - i,
    {
        proof {
            assert(dv.take(i as int + 1) =~= dv.take(i as int) + seq![dv[i as int]]);
            lemma_enc_meta_seq_concat(dv.take(i as int), seq![dv[i as int]]);
            lemma_enc_meta_seq_singleton(dv[i as int]);
            assert(dv[i as int] == ms@[i as int].deep_view());
        }
        encode_str_list(out, &ms[i]);
        i += 1;
    }
    proof {
        assert(dv.take(ms@.len() as int) =~= dv);
        assert(out@ =~= old(out)@ + enc_meta_list(ms.deep_view()));
    }
}

} // verus!

verus! {

// ---------------------------------------------------------------------------
// Executable decoders.  Each one returns exactly what the spec decoder
// returns on the same bytes.
// ---------------------------------------------------------------------------

pub fn decode_u64(b: &Vec<u8>, pos: usize) -> (r: Option<(u64, usize)>)
    ensures
        match dec_u64(b@, pos as int) {
            Some(vp) => r matches Some(x) && x.0 == vp.0 && x.1 == vp.1,
            None => r is None,
        },
{
    if pos <= b.len() && b.len() - pos >= 8 {
        let s = vstd::slice::slice_subrange(b.as_slice(), pos, pos + 8);
        let x = u64_from_le_bytes(s);
        Some((x, pos + 8))
    } else {
        None
    }
}

pub fn decode_u32(b: &Vec<u8>, pos: usize) -> (r: Option<(u32, usize)>)
    ensures
        match dec_u32(b@, pos as int) {
            Some(vp) => r matches Some(x) && x.0 == vp.0 && x.1 == vp.1,
            None => r is None,
        },
{
    if pos <= b.len() && b.len() - pos >= 4 {
        let s = vstd::slice::slice_subrange(b.as_slice(), pos, pos + 4);
        let x = u32_from_le_bytes(s);
        Some((x, pos + 4))
    } else {
        None
    }
}

/// Relies on String::from_utf8: it succeeds exactly on valid UTF-8 input
/// and returns the decoded characters.
#[verifier::external_body]
fn bytes_to_string(v: Vec<u8>) -> (r: Option<String>)
    ensures
        r is Some <==> valid_utf8(v@),
        r matches Some(s) ==> s@ == decode_utf8(v@),
{
    match String::from_utf8(v) {
        Ok(s) => Some(s),
        Err(_) => None,
    }
}

pub fn decode_string(b: &Vec<u8>, pos: usize) -> (r: Option<(String, usize)>)
    ensures
        match dec_str(b@, pos as int) {
            Some(vp) => r matches Some(x) && x.0@ == vp.0 && x.1 == vp.1,
            None => r is None,
        },
{
    match decode_u64(b, pos) {
        None => None,
        Some((n, p)) => {
            if n <= (b.len() - p) as u64 {
                let nn = n as usize;
                let bytes = vstd::slice::slice_to_vec(
                    vstd::slice::slice_subrange(b.as_slice(), p, p + nn),
                );
                match bytes_to_string(bytes) {
                    Some(s) => Some((s, p + nn)),
                    None => None,
                }
            } else {
                None
            }
        },
    }
}

pub fn decode_string_list(b: &Vec<u8>, pos: usize) -> (r: Option<(Vec<String>, usize)>)
    ensures
        match dec_str_list(b@, pos as int) {
            Some(vp) => r matches Some(x) && x.0.deep_view() == vp.0 && x.1 == vp.1,
            None => r is None,
        },
{
    match decode_u64(b, pos) {
        None => None,
        Some((n, p0)) => {
            let mut acc: Vec<String> = Vec::new();
            let mut p: usize = p0;
            let mut i: u64 = 0;
            proof {
                assert(acc.deep_view() =~= Seq::<Seq<char>>::empty());
            }
            while i < n
                invariant
                    0 <= i <= n,
                    dec_u64(b@, pos as int) == Some((n, p0 as int)),
                    dec_str_seq(b@, p0 as int, n as nat) == (match dec_str_seq(
                        b@,
                        p as int,
                        (n - i) as nat,
                    ) {
                        Some((rest, q)) => Some((acc.deep_view() + rest, q)),
                        None => None::<(Seq<Seq<char>>, int)>,
                    }),
                decreases n - i,
            {
                let ghost acc_old = acc.deep_view();
                match decode_string(b, p) {
                    None => {
                        proof {
                            assert(dec_str(b@, p as int) is None);
                            assert(dec_str_seq(b@, p as int, (n - i) as nat) is None);
                            assert(dec_str_seq(b@, p0 as int, n as nat) is None);
                            assert(dec_str_list(b@, pos as int) is None);
                        }
                        return None;
                    },
                    Some((s, p2)) => {
                        proof {
                            assert(dec_str(b@, p as int) matches Some(vp) && vp.0 == s@ && vp.1
                                == p2 as int);
                        }
                        acc.push(s);
                        proof {
                            assert(acc.deep_view() =~= acc_old + seq![s@]);
                            assert forall|rest: Seq<Seq<char>>|
                                true implies (acc_old + seq![s@]) + rest =~= acc_old + (seq![s@]
                                + rest) by {}
                        }
                        p = p2;
                        i += 1;
                    },
                }
            }
            proof {
                assert(dec_str_seq(b@, p as int, 0) == Some((Seq::<Seq<char>>::empty(), p as int)));
                assert(acc.deep_view() + Seq::<Seq<char>>::empty() =~= acc.deep_view());
            }
            Some((acc, p))
        },
    }
}

pub fn decode_u32_row(b: &Vec<u8>, pos: usize) -> (r: Option<(Vec<u32>, usize)>)
    ensures
        match dec_u32_row(b@, pos as int) {
            Some(vp) => r matches Some(x) && x.0@ == vp.0 && x.1 == vp.1,
            None => r is None,
        },
{
    match decode_u64(b, pos) {
        None => None,
        Some((n, p0)) => {
            let mut acc: Vec<u32> = Vec::new();
            let mut p: usize = p0;
            let mut i: u64 = 0;
            proof {
                assert(acc@ =~= Seq::<u32>::empty());
            }
            while i < n
                invariant
                    0 <= i <= n,
                    dec_u64(b@, pos as int) == Some((n, p0 as int)),
                    dec_u32_seq(b@, p0 as int, n as nat) == (match dec_u32_seq(
                        b@,
                        p as int,
                        (n - i) as nat,
                    ) {
                        Some((rest, q)) => Some((acc@ + rest, q)),
                        None => None::<(Seq<u32>, int)>,
                    }),
                decreases n - i,
            {
                let ghost acc_old = acc@;
                match decode_u32(b, p) {
                    None => {
                        proof {
                            assert(dec_u32(b@, p as int) is None);
                            assert(dec_u32_seq(b@, p as int, (n - i) as nat) is None);
                            assert(dec_u32_seq(b@, p0 as int, n as nat) is None);
                            assert(dec_u32_row(b@, pos as int) is None);
                        }
                        return None;
                    },
                    Some((x, p2)) => {
                        acc.push(x);
                        proof {
                            assert(acc@ =~= acc_old + seq![x]);
                            assert forall|rest: Seq<u32>|
                                true implies (acc_old + seq![x]) + rest =~= acc_old + (seq![x]
                                + rest) by {}
                        }
                        p = p2;
                        i += 1;
                    },
                }
            }
            proof {
                assert(dec_u32_seq(b@, p as int, 0) == Some((Seq::<u32>::empty(), p as int)));
                assert(acc@ + Seq::<u32>::empty() =~= acc@);
            }
            Some((acc, p))
        },
    }
}

pub fn decode_matrix(b: &Vec<u8>, pos: usize) -> (r: Option<(Vec<Vec<u32>>, usize)>)
    ensures
        match dec_matrix(b@, pos as int) {
            Some(vp) => r matches Some(x) && x.0.deep_view() == vp.0 && x.1 == vp.1,
            None => r is None,
        },
{
    match decode_u64(b, pos) {
        None => None,
        Some((n, p0)) => {
            let mut acc: Vec<Vec<u32>> = Vec::new();
            let mut p: usize = p0;
            let mut i: u64 = 0;
            proof {
                assert(acc.deep_view() =~= Seq::<Seq<u32>>::empty());
            }
            while i < n
                invariant
                    0 <= i <= n,
                    dec_u64(b@, pos as int) == Some((n, p0 as int)),
                    dec_row_seq(b@, p0 as int, n as nat) == (match dec_row_seq(
                        b@,
                        p as int,
                        (n - i) as nat,
                    ) {
                        Some((rest, q)) => Some((acc.deep_view() + rest, q)),
                        None => None::<(Seq<Seq<u32>>, int)>,
                    }),
                decreases n - i,
            {
                let ghost acc_old = acc.deep_view();
                match decode_u32_row(b, p) {
                    None => {
                        proof {
                            assert(dec_u32_row(b@, p as int) is None);
                            assert(dec_row_seq(b@, p as int, (n - i) as nat) is None);
                            assert(dec_row_seq(b@, p0 as int, n as nat) is None);
                            assert(dec_matrix(b@, pos as int) is None);
                        }
                        return None;
                    },
                    Some((row, p2)) => {
                        let ghost rowv = row@;
                        proof {
                            assert(row.deep_view() =~= rowv);
                        }
                        acc.push(row);
                        proof {
                            assert(acc.deep_view() =~= acc_old + seq![rowv]);
                            assert forall|rest: Seq<Seq<u32>>|
                                true implies (acc_old + seq![rowv]) + rest =~= acc_old + (
                            seq![rowv] + rest) by {}
                        }
                        p = p2;
                        i += 1;
                    },
                }
            }
            proof {
                assert(dec_row_seq(b@, p as int, 0) == Some((Seq::<Seq<u32>>::empty(), p as int)));
                assert(acc.deep_view() + Seq::<Seq<u32>>::empty() =~= acc.deep_view());
            }
            Some((acc, p))
        },
    }
}

pub fn decode_meta_list(b: &Vec<u8>, pos: usize) -> (r: Option<(Vec<Vec<String>>, usize)>)
    ensures
        match dec_meta_list(b@, pos as int) {
            Some(vp) => r matches Some(x) && x.0.deep_view() == vp.0 && x.1 == vp.1,
            None => r is None,
        },
{
    match decode_u64(b, pos) {
        None => None,
        Some((n, p0)) => {
            let mut acc: Vec<Vec<String>> = Vec::new();
            let mut p: usize = p0;
            let mut i: u64 = 0;
            proof {
                assert(acc.deep_view() =~= Seq::<Seq<Seq<char>>>::empty());
            }
            while i < n
                invariant
                    0 <= i <= n,
                    dec_u64(b@, pos as int) == Some((n, p0 as int)),
                    dec_meta_seq(b@, p0 as int, n as nat) == (match dec_meta_seq(
                        b@,
                        p as int,
                        (n - i) as nat,
                    ) {
                        Some((rest, q)) => Some((acc.deep_view() + rest, q)),
                        None => None::<(Seq<Seq<Seq<char>>>, int)>,
                    }),
                decreases n - i,
            {
                let ghost acc_old = acc.deep_view();
                match decode_string_list(b, p) {
                    None => {
                        proof {
                            assert(dec_str_list(b@, p as int) is None);
                            assert(dec_meta_seq(b@, p as int, (n - i) as nat) is None);
                            assert(dec_meta_seq(b@, p0 as int, n as nat) is None);
                            assert(dec_meta_list(b@, pos as int) is None);
                        }
                        return None;
                    },
                    Some((m, p2)) => {
                        let ghost mv = m.deep_view();
                        acc.push(m);
                        proof {
                            assert(acc.deep_view() =~= acc_old + seq![mv]);
                            assert forall|rest: Seq<Seq<Seq<char>>>|
                                true implies (acc_old + seq![mv]) + rest =~= acc_old + (seq![mv]
                                + rest) by {}
                        }
                        p = p2;
                        i += 1;
                    },
                }
            }
            proof {
                assert(dec_meta_seq(b@, p as int, 0) == Some(
                    (Seq::<Seq<Seq<char>>>::empty(), p as int),
                ));
                assert(acc.deep_view() + Seq::<Seq<Seq<char>>>::empty() =~= acc.deep_view());
            }
            Some((acc, p))
        },
    }
}

} // verus!
