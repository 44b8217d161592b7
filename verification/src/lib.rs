//! An embedded vector database: collections of documents with per-row
//! metadata and dense embeddings, persisted to an ordered key-value store
//! through a chunked encoder, queried by cosine similarity with a JSON
//! metadata filter language and by exact nearest-neighbour lookup.

use vstd::prelude::*;

pub mod codec;
pub mod embeddings;
pub mod filter;
pub mod json;
pub mod query;
pub mod store;

verus! {

/// One character of a user-supplied view name: ASCII letter, digit or underscore.
pub open spec fn is_word_char(c: char) -> bool {
    ('a' <= c && c <= 'z') || ('A' <= c && c <= 'Z') || ('0' <= c && c <= '9') || c == '_'
}

/// The view naming rule: nonempty, alphanumerics and underscores only.
pub open spec fn is_valid_view_name(s: Seq<char>) -> bool {
    s.len() > 0 && forall|i: int| 0 <= i < s.len() ==> is_word_char(s[i])
}

/// Checks a user-supplied collection name against the naming rule.
pub fn valid_view_name(s: &str) -> (r: bool)
    ensures
        r == is_valid_view_name(s@),
{
    let len = s.unicode_len();
    if len == 0 {
        return false;
    }
    let mut i: usize = 0;
    while i < len
        invariant
            0 <= i <= len,
            len == s@.len(),
            forall|j: int| 0 <= j < i ==> is_word_char(s@[j]),
        decreases len - i,
    {
        let c = s.get_char(i);
        let ok = ('a' <= c && c <= 'z') || ('A' <= c && c <= 'Z') || ('0' <= c && c <= '9')
            || c == '_';
        if !ok {
            return false;
        }
        i += 1;
    }
    true
}

} // verus!
