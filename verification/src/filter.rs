//! The metadata filter language: a filter is a one-key JSON document
//! `{key: {op: value}}` with `op` among `eq, gt, gte, lt, lte, in`; a
//! metadata document is `{key: value}`.  A filter matches a metadata
//! document when the keys agree and the values stand in the stated
//! relation; integers compare by value whether written signed or
//! unsigned, strings compare only under `eq`, and `in` tests membership
//! of the document's string in the filter's array.  Anything that does
//! not parse matches nothing.

use vstd::prelude::*;
use crate::json::{
    p_doc, parse_doc, scalar_view, DocV, Scalar, ScalarV,
};

verus! {

/// Where clause keys.
pub enum FilterOperations {
    EqualTo,
    GreaterThanEqualTo,
    GreaterThan,
    In,
    LessThan,
    LessThanEqualTo,
    Noop,
}

/// The operation named by an `op` string; anything unknown reads as
/// equality.
pub open spec fn op_of(s: Seq<char>) -> FilterOperations {
    if s == "gt"@ {
        FilterOperations::GreaterThan
    } else if s == "gte"@ {
        FilterOperations::GreaterThanEqualTo
    } else if s == "in"@ {
        FilterOperations::In
    } else if s == "lt"@ {
        FilterOperations::LessThan
    } else if s == "lte"@ {
        FilterOperations::LessThanEqualTo
    } else {
        FilterOperations::EqualTo
    }
}

/// Character-wise string comparison.
pub fn str_eq(a: &str, b: &str) -> (r: bool)
    ensures
        r == (a@ == b@),
{
    let la = a.unicode_len();
    let lb = b.unicode_len();
    if la != lb {
        return false;
    }
    let mut i: usize = 0;
    while i < la
        invariant
            la == a@.len() == b@.len(),
            0 <= i <= la,
            forall|j: int| 0 <= j < i ==> a@[j] == b@[j],
        decreases la - i,
    {
        if a.get_char(i) != b.get_char(i) {
            return false;
        }
        i += 1;
    }
    proof {
        assert(a@ =~= b@);
    }
    true
}

impl FilterOperations {
    /// Seek and return enum for pattern matching.
    pub fn get_enum(s: &str) -> (r: FilterOperations)
        ensures
            r == op_of(s@),
    {
        if str_eq(s, "gt") {
            FilterOperations::GreaterThan
        } else if str_eq(s, "gte") {
            FilterOperations::GreaterThanEqualTo
        } else if str_eq(s, "in") {
            FilterOperations::In
        } else if str_eq(s, "lt") {
            FilterOperations::LessThan
        } else if str_eq(s, "lte") {
            FilterOperations::LessThanEqualTo
        } else {
            FilterOperations::EqualTo
        }
    }
}

/// A parse failure of a filter or metadata document.
#[derive(Debug)]
pub enum Md2fsError {
    ParseError,
}

/// A parsed metadata filter: the key to filter on, the value, and the
/// operation, `Noop` when the document carried a bare value.
pub struct MetadataFilter {
    /// Key to filter on.
    pub key: String,
    /// Valid json value to filter on.
    pub value: Scalar,
    /// Filter operations eq, gt, gte, in, lt, lte.
    pub filter: FilterOperations,
}

impl Default for MetadataFilter {
    fn default() -> (r: MetadataFilter)
        ensures
            r.key@ == Seq::<char>::empty(),
            r.filter is Noop,
    {
        MetadataFilter {
            key: String::new(),
            value: Scalar::S(String::new()),
            filter: FilterOperations::Noop,
        }
    }
}

/// The operation a parsed document denotes.
pub open spec fn doc_op(d: DocV) -> FilterOperations {
    match d.op {
        Some(o) => op_of(o),
        None => FilterOperations::Noop,
    }
}

impl MetadataFilter {
    /// Create a filter from one JSON document.
    pub fn create_filter(raw: &str) -> (r: Result<MetadataFilter, Md2fsError>)
        ensures
            match p_doc(raw@) {
                Some(d) => r matches Ok(mf) && mf.key@ == d.key && mf.filter == doc_op(d)
                    && scalar_view(mf.value) == d.value,
                None => r is Err,
            },
    {
        match parse_doc(raw) {
            None => Err(Md2fsError::ParseError),
            Some(pd) => {
                let filter = match &pd.op {
                    Some(o) => FilterOperations::get_enum(o.as_str()),
                    None => FilterOperations::Noop,
                };
                Ok(MetadataFilter { key: pd.key, value: pd.value, filter })
            },
        }
    }
}

// ---------------------------------------------------------------------------
// Matching semantics.
// ---------------------------------------------------------------------------

/// The integer a numeric scalar denotes.
pub open spec fn num_of(v: ScalarV) -> int {
    match v {
        ScalarV::U(u) => u as int,
        ScalarV::I(i) => i as int,
        _ => 0,
    }
}

pub open spec fn fits_i64(v: ScalarV) -> bool {
    match v {
        ScalarV::U(u) => u <= i64::MAX,
        ScalarV::I(_) => true,
        _ => false,
    }
}

/// Whether the metadata value `mv` stands in relation `op` to the
/// filter value `fv`.
pub open spec fn cmp_holds(op: FilterOperations, fv: int, mv: int) -> bool {
    match op {
        FilterOperations::EqualTo => mv == fv,
        FilterOperations::GreaterThan => mv > fv,
        FilterOperations::GreaterThanEqualTo => mv >= fv,
        FilterOperations::LessThan => mv < fv,
        FilterOperations::LessThanEqualTo => mv <= fv,
        _ => false,
    }
}

/// A string filter matches: both values are strings with the same key,
/// the operation is equality, and the strings agree.
pub open spec fn string_filter_matches(f: Seq<char>, m: Seq<char>) -> bool {
    match (p_doc(f), p_doc(m)) {
        (Some(fd), Some(md)) => {
            &&& fd.op is Some
            &&& fd.key.len() > 0
            &&& fd.key == md.key
            &&& doc_op(fd) is EqualTo
            &&& fd.value matches ScalarV::S(fv) && md.value matches ScalarV::S(mv) && fv == mv
        },
        _ => false,
    }
}

/// An unsigned-integer filter matches: both values are unsigned and
/// stand in the stated order.
pub open spec fn u64_filter_matches(f: Seq<char>, m: Seq<char>) -> bool {
    match (p_doc(f), p_doc(m)) {
        (Some(fd), Some(md)) => {
            &&& fd.op is Some
            &&& fd.key.len() > 0
            &&& fd.key == md.key
            &&& fd.value is U
            &&& md.value is U
            &&& cmp_holds(doc_op(fd), num_of(fd.value), num_of(md.value))
        },
        _ => false,
    }
}

/// A signed-integer filter matches: both values fit an i64 and stand in
/// the stated order, whichever way they were written.
pub open spec fn i64_filter_matches(f: Seq<char>, m: Seq<char>) -> bool {
    match (p_doc(f), p_doc(m)) {
        (Some(fd), Some(md)) => {
            &&& fd.op is Some
            &&& fd.key.len() > 0
            &&& fd.key == md.key
            &&& fits_i64(fd.value)
            &&& fits_i64(md.value)
            &&& cmp_holds(doc_op(fd), num_of(fd.value), num_of(md.value))
        },
        _ => false,
    }
}

/// An array filter matches: the filter holds an array of strings, the
/// operation is `in`, and the document's string is one of them.
pub open spec fn array_filter_matches(f: Seq<char>, m: Seq<char>) -> bool {
    match (p_doc(f), p_doc(m)) {
        (Some(fd), Some(md)) => {
            &&& fd.op is Some
            &&& fd.key.len() > 0
            &&& fd.key == md.key
            &&& doc_op(fd) is In
            &&& fd.value matches ScalarV::A(arr) && md.value matches ScalarV::S(mv)
                && arr.contains(mv)
        },
        _ => false,
    }
}

/// One filter matches one metadata document.
pub open spec fn filter_matches(f: Seq<char>, m: Seq<char>) -> bool {
    ||| string_filter_matches(f, m)
    ||| u64_filter_matches(f, m)
    ||| i64_filter_matches(f, m)
    ||| array_filter_matches(f, m)
}

/// Some metadata document of the row satisfies the filter.
pub open spec fn some_meta_matches(f: Seq<char>, ms: Seq<Seq<char>>) -> bool {
    exists|j: int| 0 <= j < ms.len() && filter_matches(f, #[trigger] ms[j])
}

/// The where clause: every filter is satisfied by at least one of the
/// row's metadata documents.
pub open spec fn spec_filter_where(fs: Seq<Seq<char>>, ms: Seq<Seq<char>>) -> bool {
    forall|i: int| 0 <= i < fs.len() ==> some_meta_matches(#[trigger] fs[i], ms)
}

} // verus!

verus! {

// ---------------------------------------------------------------------------
// Executable matching.
// ---------------------------------------------------------------------------

/// Process two raw json strings as string-valued documents: an `eq`
/// filter on a string value.
pub fn process_string_filter(raw_f: &str, raw_m: &str) -> (r: bool)
    ensures
        r == string_filter_matches(raw_f@, raw_m@),
{
    let tf = match MetadataFilter::create_filter(raw_f) {
        Ok(t) => t,
        Err(_) => {
            return false;
        },
    };
    let tm = match MetadataFilter::create_filter(raw_m) {
        Ok(t) => t,
        Err(_) => {
            return false;
        },
    };
    if tf.key.as_str().is_empty() {
        return false;
    }
    if !(tf.key == tm.key) {
        return false;
    }
    let fv = match &tf.value {
        Scalar::S(s) => s,
        _ => {
            return false;
        },
    };
    let mv = match &tm.value {
        Scalar::S(s) => s,
        _ => {
            return false;
        },
    };
    match tf.filter {
        FilterOperations::EqualTo => str_eq(fv.as_str(), mv.as_str()),
        _ => false,
    }
}

/// Process two raw json strings as unsigned-integer documents.
pub fn process_u64_filter(raw_f: &str, raw_m: &str) -> (r: bool)
    ensures
        r == u64_filter_matches(raw_f@, raw_m@),
{
    let tf = match MetadataFilter::create_filter(raw_f) {
        Ok(t) => t,
        Err(_) => {
            return false;
        },
    };
    let tm = match MetadataFilter::create_filter(raw_m) {
        Ok(t) => t,
        Err(_) => {
            return false;
        },
    };
    if tf.key.as_str().is_empty() {
        return false;
    }
    if !(tf.key == tm.key) {
        return false;
    }
    let fv = match tf.value {
        Scalar::U(u) => u,
        _ => {
            return false;
        },
    };
    let mv = match tm.value {
        Scalar::U(u) => u,
        _ => {
            return false;
        },
    };
    match tf.filter {
        FilterOperations::EqualTo => mv == fv,
        FilterOperations::GreaterThan => mv > fv,
        FilterOperations::GreaterThanEqualTo => mv >= fv,
        FilterOperations::LessThan => mv < fv,
        FilterOperations::LessThanEqualTo => mv <= fv,
        _ => false,
    }
}

/// Process two raw json strings as signed-integer documents; values
/// written without a sign take part as long as they fit.
pub fn process_i64_filter(raw_f: &str, raw_m: &str) -> (r: bool)
    ensures
        r == i64_filter_matches(raw_f@, raw_m@),
{
    let tf = match MetadataFilter::create_filter(raw_f) {
        Ok(t) => t,
        Err(_) => {
            return false;
        },
    };
    let tm = match MetadataFilter::create_filter(raw_m) {
        Ok(t) => t,
        Err(_) => {
            return false;
        },
    };
    if tf.key.as_str().is_empty() {
        return false;
    }
    if !(tf.key == tm.key) {
        return false;
    }
    let fv: i64 = match tf.value {
        Scalar::U(u) => if u <= i64::MAX as u64 {
            u as i64
        } else {
            return false;
        },
        Scalar::I(i) => i,
        _ => {
            return false;
        },
    };
    let mv: i64 = match tm.value {
        Scalar::U(u) => if u <= i64::MAX as u64 {
            u as i64
        } else {
            return false;
        },
        Scalar::I(i) => i,
        _ => {
            return false;
        },
    };
    match tf.filter {
        FilterOperations::EqualTo => mv == fv,
        FilterOperations::GreaterThan => mv > fv,
        FilterOperations::GreaterThanEqualTo => mv >= fv,
        FilterOperations::LessThan => mv < fv,
        FilterOperations::LessThanEqualTo => mv <= fv,
        _ => false,
    }
}

/// Process two raw json strings as an `in` filter: the filter holds an
/// array of strings, the document a string.
pub fn process_string_array_filter(raw_f: &str, raw_m: &str) -> (r: bool)
    ensures
        r == array_filter_matches(raw_f@, raw_m@),
{
    let tf = match MetadataFilter::create_filter(raw_f) {
        Ok(t) => t,
        Err(_) => {
            return false;
        },
    };
    let tm = match MetadataFilter::create_filter(raw_m) {
        Ok(t) => t,
        Err(_) => {
            return false;
        },
    };
    if tf.key.as_str().is_empty() {
        return false;
    }
    if !(tf.key == tm.key) {
        return false;
    }
    match tf.filter {
        FilterOperations::In => {},
        _ => {
            return false;
        },
    }
    let arr = match &tf.value {
        Scalar::A(a) => a,
        _ => {
            return false;
        },
    };
    let mv = match &tm.value {
        Scalar::S(s) => s,
        _ => {
            return false;
        },
    };
    contains_string(arr, mv)
}

/// Whether the list holds the given string.
pub(crate) fn contains_string(arr: &Vec<String>, s: &String) -> (r: bool)
    ensures
        r == arr.deep_view().contains(s@),
{
    let n = arr.len();
    let mut i: usize = 0;
    while i < n
        invariant
            n == arr@.len(),
            0 <= i <= n,
            forall|j: int| 0 <= j < i ==> arr.deep_view()[j] != s@,
        decreases n - i,
    {
        if str_eq(arr[i].as_str(), s.as_str()) {
            proof {
                assert(arr.deep_view()[i as int] == s@);
                assert(arr.deep_view().contains(s@));
            }
            return true;
        }
        i += 1;
    }
    proof {
        assert(forall|j: int| 0 <= j < arr.deep_view().len() ==> arr.deep_view()[j] != s@);
    }
    false
}

/// One filter against one metadata document, in any of the value
/// domains.
fn eval_filter(f: &str, m: &str) -> (r: bool)
    ensures
        r == filter_matches(f@, m@),
{
    process_string_filter(f, m) || process_u64_filter(f, m) || process_i64_filter(f, m)
        || process_string_array_filter(f, m)
}

/// Whether some metadata document of the row satisfies the filter.
fn row_matches(f: &str, raw_m: &[String]) -> (r: bool)
    ensures
        r == some_meta_matches(f@, raw_m.deep_view()),
{
    let n = raw_m.len();
    let mut j: usize = 0;
    while j < n
        invariant
            n == raw_m@.len(),
            0 <= j <= n,
            forall|jj: int| 0 <= jj < j ==> !filter_matches(f@, raw_m.deep_view()[jj]),
        decreases n - j,
    {
        let m = vstd::slice::slice_index_get(raw_m, j);
        if eval_filter(f, m.as_str()) {
            proof {
                assert(filter_matches(f@, raw_m.deep_view()[j as int]));
                assert(some_meta_matches(f@, raw_m.deep_view()));
            }
            return true;
        }
        j += 1;
    }
    false
}

/// Process raw json strings.  Let `raw_f` be valid metadata filters
///
/// and `raw_m` be valid metadata that is not a nested object.  Returns
///
/// true when every filter is satisfied by at least one metadata
///
/// document.  The equivalent of an SQL `where` clause.
pub fn filter_where(raw_f: &[String], raw_m: &[String]) -> (r: bool)
    ensures
        r == spec_filter_where(raw_f.deep_view(), raw_m.deep_view()),
{
    let nf = raw_f.len();
    let mut i: usize = 0;
    while i < nf
        invariant
            nf == raw_f@.len(),
            0 <= i <= nf,
            forall|fi: int|
                0 <= fi < i ==> some_meta_matches(#[trigger] raw_f.deep_view()[fi], raw_m.deep_view()),
        decreases nf - i,
    {
        let f = vstd::slice::slice_index_get(raw_f, i);
        if !row_matches(f.as_str(), raw_m) {
            proof {
                assert(!some_meta_matches(raw_f.deep_view()[i as int], raw_m.deep_view()));
            }
            return false;
        }
        i += 1;
    }
    true
}

} // verus!
