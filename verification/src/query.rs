//! The verified heart of the query engine.  Scores arrive as the bit
//! patterns of the 32-bit floats the numeric runtime produced; rows are
//! kept in scan order when their metadata passes the filter and their
//! score is positive, and the first `k` are returned when `k` bounds
//! the result.  The nearest-neighbour lookup resolves the returned
//! vector to its row index.

use vstd::prelude::*;
use crate::embeddings::CosineQueryResult;
use crate::filter::{filter_where, spec_filter_where};

verus! {

/// Whether the 32-bit float with these bits compares greater than
/// zero: positive sign, not a zero, and not a NaN.
pub open spec fn f32_bits_positive(b: u32) -> bool {
    &&& b & 0x8000_0000u32 == 0
    &&& b != 0
    &&& !(b & 0x7f80_0000u32 == 0x7f80_0000u32 && b & 0x007f_ffffu32 != 0)
}

fn bits_positive(b: u32) -> (r: bool)
    ensures
        r == f32_bits_positive(b),
{
    b & 0x8000_0000u32 == 0 && b != 0 && !(b & 0x7f80_0000u32 == 0x7f80_0000u32 && b
        & 0x007f_ffffu32 != 0)
}

/// One row survives the scan: its metadata passes the filter (no
/// filter passes everything) and its score is positive.
pub open spec fn row_passes(
    filters: Option<Seq<Seq<char>>>,
    meta: Seq<Seq<char>>,
    score: u32,
) -> bool {
    &&& (match filters {
        Some(fs) => spec_filter_where(fs, meta),
        None => true,
    })
    &&& f32_bits_positive(score)
}

/// The indices of the rows among the first `i` that survive the scan,
/// in row order.
pub open spec fn kept_rows(
    metas: Seq<Seq<Seq<char>>>,
    scores: Seq<u32>,
    filters: Option<Seq<Seq<char>>>,
    i: int,
) -> Seq<int>
    decreases i,
{
    if i <= 0 {
        Seq::empty()
    } else if row_passes(filters, metas[i - 1], scores[i - 1]) {
        kept_rows(metas, scores, filters, i - 1).push(i - 1)
    } else {
        kept_rows(metas, scores, filters, i - 1)
    }
}

/// Every kept index is a passing row, every passing row is kept, and
/// row order is preserved.
pub proof fn lemma_kept_rows_correct(
    metas: Seq<Seq<Seq<char>>>,
    scores: Seq<u32>,
    filters: Option<Seq<Seq<char>>>,
    i: int,
)
    ensures
        forall|t: int|
            0 <= t < kept_rows(metas, scores, filters, i).len() ==> {
                let j = #[trigger] kept_rows(metas, scores, filters, i)[t];
                0 <= j < i && row_passes(filters, metas[j], scores[j])
            },
        forall|j: int|
            0 <= j < i && row_passes(filters, metas[j], scores[j]) ==> kept_rows(
                metas,
                scores,
                filters,
                i,
            ).contains(j),
        forall|t1: int, t2: int|
            0 <= t1 < t2 < kept_rows(metas, scores, filters, i).len() ==> kept_rows(
                metas,
                scores,
                filters,
                i,
            )[t1] < kept_rows(metas, scores, filters, i)[t2],
    decreases i,
{
    if i > 0 {
        lemma_kept_rows_correct(metas, scores, filters, i - 1);
        let prev = kept_rows(metas, scores, filters, i - 1);
        if row_passes(filters, metas[i - 1], scores[i - 1]) {
            let cur = prev.push(i - 1);
            assert forall|j: int|
                0 <= j < i && row_passes(filters, metas[j], scores[j]) implies cur.contains(
                j,
            ) by {
                if j < i - 1 {
                    assert(prev.contains(j));
                    let t = choose|t: int| 0 <= t < prev.len() && prev[t] == j;
                    assert(cur[t] == j);
                } else {
                    assert(cur[cur.len() - 1] == j);
                }
            }
        } else {
            assert forall|j: int|
                0 <= j < i && row_passes(filters, metas[j], scores[j]) implies prev.contains(
                j,
            ) by {
                if j < i - 1 {
                    assert(prev.contains(j));
                }
            }
        }
    }
}

/// How many rows a query returns: all survivors when `k` is zero or
/// exceeds them, else the first `k`.
pub open spec fn result_count(kept: int, k: int) -> int {
    if k == 0 || kept < k {
        kept
    } else {
        k
    }
}

/// Retain the rows that pass the filter with a positive score, in row
/// order, and return the first `num_results` of them (all of them when
/// `num_results` is zero or exceeds their count): the three parallel
/// sequences of a cosine query's answer.
pub fn cosine_select(
    documents: &Vec<String>,
    metadata: &Vec<Vec<String>>,
    scores: &Vec<u32>,
    num_results: usize,
    f_where: Option<&Vec<String>>,
) -> (r: CosineQueryResult)
    requires
        documents@.len() == metadata@.len(),
        documents@.len() == scores@.len(),
    ensures
        ({
            let filters = match f_where {
                Some(fs) => Some(fs.deep_view()),
                None => None,
            };
            let sel = kept_rows(
                metadata.deep_view(),
                scores@,
                filters,
                documents@.len() as int,
            );
            let cnt = result_count(sel.len() as int, num_results as int);
            &&& r@.documents == Seq::new(cnt as nat, |t: int| documents.deep_view()[sel[t]])
            &&& r@.similarities == Seq::new(cnt as nat, |t: int| scores@[sel[t]])
            &&& r@.metadata == Seq::new(cnt as nat, |t: int| metadata.deep_view()[sel[t]])
        }),
{
    let ghost filters = match f_where {
        Some(fs) => Some(fs.deep_view()),
        None => None,
    };
    let is_filtering = f_where.is_some();
    let mut r_docs: Vec<String> = Vec::new();
    let mut r_sims: Vec<u32> = Vec::new();
    let mut r_meta: Vec<Vec<String>> = Vec::new();
    let n = documents.len();
    let mut i: usize = 0;
    while i < n
        invariant
            n == documents@.len(),
            documents@.len() == metadata@.len(),
            documents@.len() == scores@.len(),
            0 <= i <= n,
            filters == (match f_where {
                Some(fs) => Some(fs.deep_view()),
                None => None::<Seq<Seq<char>>>,
            }),
            is_filtering == f_where is Some,
            ({
                let sel = kept_rows(metadata.deep_view(), scores@, filters, i as int);
                &&& r_docs.deep_view() =~= Seq::new(
                    sel.len(),
                    |t: int| documents.deep_view()[sel[t]],
                )
                &&& r_sims@ =~= Seq::new(sel.len(), |t: int| scores@[sel[t]])
                &&& r_meta.deep_view() =~= Seq::new(
                    sel.len(),
                    |t: int| metadata.deep_view()[sel[t]],
                )
            }),
        decreases n - i,
    {
        let ghost sel_pre = kept_rows(metadata.deep_view(), scores@, filters, i as int);
        let passes_filter = if is_filtering {
            let fs = match f_where {
                Some(fs) => fs,
                None => {
                    return CosineQueryResult::create(r_docs, r_sims, r_meta);
                },
            };
            filter_where(fs.as_slice(), metadata[i].as_slice())
        } else {
            true
        };
        if passes_filter && bits_positive(scores[i]) {
            proof {
                assert(row_passes(filters, metadata.deep_view()[i as int], scores@[i as int]));
            }
            let ghost docs_pre = r_docs.deep_view();
            let ghost sims_pre = r_sims@;
            let ghost meta_pre = r_meta.deep_view();
            r_docs.push(documents[i].clone());
            r_sims.push(scores[i]);
            r_meta.push(metadata[i].clone());
            proof {
                let sel = kept_rows(metadata.deep_view(), scores@, filters, i as int + 1);
                assert(sel =~= sel_pre.push(i as int));
                assert(r_docs.deep_view() =~= docs_pre.push(
                    documents.deep_view()[i as int],
                ));
                assert(r_meta.deep_view() =~= meta_pre.push(metadata.deep_view()[i as int]));
                assert(r_docs.deep_view() =~= Seq::new(
                    sel.len(),
                    |t: int| documents.deep_view()[sel[t]],
                ));
                assert(r_sims@ =~= Seq::new(sel.len(), |t: int| scores@[sel[t]]));
                assert(r_meta.deep_view() =~= Seq::new(
                    sel.len(),
                    |t: int| metadata.deep_view()[sel[t]],
                ));
            }
        } else {
            proof {
                assert(!row_passes(filters, metadata.deep_view()[i as int], scores@[i as int]));
                assert(kept_rows(metadata.deep_view(), scores@, filters, i as int + 1)
                    =~= sel_pre);
            }
        }
        i += 1;
    }
    let ghost sel = kept_rows(metadata.deep_view(), scores@, filters, n as int);
    if num_results != 0 && r_docs.len() >= num_results {
        let ghost docs_pre = r_docs.deep_view();
        let ghost meta_pre = r_meta.deep_view();
        r_docs.truncate(num_results);
        r_sims.truncate(num_results);
        r_meta.truncate(num_results);
        proof {
            let cnt = result_count(sel.len() as int, num_results as int);
            assert(r_docs.deep_view() =~= docs_pre.take(num_results as int));
            assert(r_meta.deep_view() =~= meta_pre.take(num_results as int));
            assert(r_docs.deep_view() =~= Seq::new(
                cnt as nat,
                |t: int| documents.deep_view()[sel[t]],
            ));
            assert(r_sims@ =~= Seq::new(cnt as nat, |t: int| scores@[sel[t]]));
            assert(r_meta.deep_view() =~= Seq::new(
                cnt as nat,
                |t: int| metadata.deep_view()[sel[t]],
            ));
        }
    }
    CosineQueryResult::create(r_docs, r_sims, r_meta)
}

// ---------------------------------------------------------------------------
// Nearest lookup.
// ---------------------------------------------------------------------------

/// The first row of the matrix equal to the sought vector, from `i`.
pub open spec fn first_match_from(e: Seq<Seq<u32>>, nb: Seq<u32>, i: int) -> Option<int>
    decreases e.len() - i,
{
    if !(0 <= i < e.len()) {
        None
    } else if e[i] == nb {
        Some(i)
    } else {
        first_match_from(e, nb, i + 1)
    }
}

/// A single-row collection can only answer with its one row: where the
/// sought vector is a row of a one-row matrix, the match is row zero.
pub proof fn lemma_nearest_single_row(e: Seq<Seq<u32>>, nb: Seq<u32>)
    requires
        e.len() == 1,
        e.contains(nb),
    ensures
        first_match_from(e, nb, 0) == Some(0int),
{
    let i = choose|i: int| 0 <= i < e.len() && e[i] == nb;
    assert(i == 0);
}

fn u32_row_eq(a: &Vec<u32>, b: &Vec<u32>) -> (r: bool)
    ensures
        r == (a@ == b@),
{
    if a.len() != b.len() {
        return false;
    }
    let mut i: usize = 0;
    while i < a.len()
        invariant
            a@.len() == b@.len(),
            0 <= i <= a@.len(),
            forall|j: int| 0 <= j < i ==> a@[j] == b@[j],
        decreases a@.len() - i,
    {
        if a[i] != b[i] {
            return false;
        }
        i += 1;
    }
    proof {
        assert(a@ =~= b@);
    }
    true
}

/// The row index whose embedding equals the returned neighbour, ties
/// broken by the first match in row order; nothing when no row matches.
pub fn nearest_row(embeddings: &Vec<Vec<u32>>, neighbor: &Vec<u32>) -> (r: Option<usize>)
    ensures
        match first_match_from(embeddings.deep_view(), neighbor@, 0) {
            Some(i) => r matches Some(x) && x == i,
            None => r is None,
        },
{
    let n = embeddings.len();
    let mut i: usize = 0;
    proof {
        assert(embeddings.deep_view().len() == embeddings@.len());
    }
    while i < n
        invariant
            n == embeddings@.len(),
            embeddings.deep_view().len() == embeddings@.len(),
            0 <= i <= n,
            first_match_from(embeddings.deep_view(), neighbor@, 0) == first_match_from(
                embeddings.deep_view(),
                neighbor@,
                i as int,
            ),
        decreases n - i,
    {
        let same = u32_row_eq(&embeddings[i], neighbor);
        proof {
            assert(embeddings@[i as int].deep_view() =~= embeddings@[i as int]@);
        }
        if same {
            proof {
                assert(embeddings.deep_view()[i as int] == neighbor@);
            }
            return Some(i);
        }
        proof {
            assert(embeddings.deep_view()[i as int] != neighbor@);
        }
        i += 1;
    }
    None
}

} // verus!

verus! {

/// A top-one query answers with at most one row, and any answer is a
/// surviving row: its metadata passes the filter and its score is
/// positive.
pub proof fn lemma_top_one_is_passing_row(
    metas: Seq<Seq<Seq<char>>>,
    scores: Seq<u32>,
    filters: Option<Seq<Seq<char>>>,
    n: int,
)
    ensures
        result_count(kept_rows(metas, scores, filters, n).len() as int, 1) <= 1,
        result_count(kept_rows(metas, scores, filters, n).len() as int, 1) == 1 ==> {
            let j = kept_rows(metas, scores, filters, n)[0];
            0 <= j < n && row_passes(filters, metas[j], scores[j])
        },
{
    lemma_kept_rows_correct(metas, scores, filters, n);
}

} // verus!

verus! {

/// A query with `k` of zero returns every retained row.
pub proof fn lemma_zero_k_returns_all(kept: int)
    ensures
        result_count(kept, 0) == kept,
{
}

/// A query without filters applies none: a row survives on its score
/// alone.
pub proof fn lemma_no_filter_keeps_positive_rows(meta: Seq<Seq<char>>, score: u32)
    ensures
        row_passes(None, meta, score) == f32_bits_positive(score),
{
}

/// A query over an empty collection returns empty sequences: no rows
/// are kept, whatever the filters and `k`.
pub proof fn lemma_empty_collection_empty_result(
    filters: Option<Seq<Seq<char>>>,
    k: int,
)
    requires
        k >= 0,
    ensures
        kept_rows(Seq::empty(), Seq::empty(), filters, 0).len() == 0,
        result_count(kept_rows(Seq::empty(), Seq::empty(), filters, 0).len() as int, k) == 0,
{
}

} // verus!
