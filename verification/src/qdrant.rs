//! What is sent to the vector database: point numbers, index parameters,
//! addresses and filters.

use crate::select::{kept_is_filter, take_flagged};
use crate::text::{chars_of, contains, has_sub, string_of};
use vstd::prelude::*;
use vstd::slice::*;
use vstd::string::*;

verus! {

/// Largest number of neighbours that is looked at while the index is built.
pub const HNSW_EF_MAX: usize = 1000;

/// Smallest number of links of a node of the index.
pub const HNSW_M_MIN: usize = 4;

/// Largest number of requests at a time.
pub const QDRANT_MAX_CONCURRENCY: usize = 4;

/// The FNV-1a hash of the bytes.
pub open spec fn fnv1a(bytes: Seq<u8>) -> u64
    decreases bytes.len(),
{
    if bytes.len() == 0 {
        0xcbf29ce484222325
    } else {
        (fnv1a(bytes.drop_last()) ^ (bytes.last() as u64)).wrapping_mul(0x100000001b3)
    }
}

/// The number of the point of a document: the same for the same document, so that
/// writing it again replaces it.
pub fn point_id(doc_id: &str) -> (h: u64)
    ensures
        h == fnv1a(vstd::utf8::encode_utf8(doc_id@)),
{
    let bytes = doc_id.as_bytes();
    let mut hash: u64 = 0xcbf29ce484222325;
    let mut i: usize = 0;
    while i < bytes.len()
        invariant
            i <= bytes@.len(),
            hash == fnv1a(bytes@.take(i as int)),
        decreases bytes@.len() - i,
    {
        assert(bytes@.take(i + 1).drop_last() =~= bytes@.take(i as int));
        hash = (hash ^ (bytes[i] as u64)).wrapping_mul(0x100000001b3);
        i += 1;
    }
    assert(bytes@.take(i as int) =~= bytes@);
    hash
}

/// The point numbers of documents.
pub fn point_ids(doc_ids: &Vec<String>) -> (out: Vec<u64>)
    ensures
        out@.len() == doc_ids@.len(),
        forall|i: int|
            0 <= i < out@.len() ==> #[trigger] out@[i] == fnv1a(
                vstd::utf8::encode_utf8(doc_ids@[i]@),
            ),
{
    let mut out: Vec<u64> = Vec::new();
    let mut i: usize = 0;
    while i < doc_ids.len()
        invariant
            i <= doc_ids@.len(),
            out@.len() == i,
            forall|k: int|
                0 <= k < i ==> #[trigger] out@[k] == fnv1a(
                    vstd::utf8::encode_utf8(doc_ids@[k]@),
                ),
        decreases doc_ids@.len() - i,
    {
        out.push(point_id(doc_ids[i].as_str()));
        i += 1;
    }
    out
}

/// The parameters of the index: at least so many links, at most so many
/// neighbours.
pub fn hnsw_params(m: usize, ef_construction: usize) -> (r: (usize, usize))
    ensures
        r.0 == (if m < HNSW_M_MIN {
            HNSW_M_MIN
        } else {
            m
        }),
        r.1 == (if ef_construction > HNSW_EF_MAX {
            HNSW_EF_MAX
        } else {
            ef_construction
        }),
{
    (
        if m < HNSW_M_MIN {
            HNSW_M_MIN
        } else {
            m
        },
        if ef_construction > HNSW_EF_MAX {
            HNSW_EF_MAX
        } else {
            ef_construction
        },
    )
}

/// `s` without the slashes at its end.
pub open spec fn without_slashes(s: Seq<char>) -> Seq<char>
    decreases s.len(),
{
    if s.len() > 0 && s.last() == '/' {
        without_slashes(s.drop_last())
    } else {
        s
    }
}

/// The address of the service without the slashes at its end.
pub fn base_address(url: &str) -> (r: String)
    ensures
        r@ == without_slashes(url@),
{
    let cs = chars_of(url);
    let mut j: usize = cs.len();
    assert(cs@.take(j as int) =~= cs@);
    while j > 0 && cs[j - 1] == '/'
        invariant
            j <= cs@.len(),
            without_slashes(cs@.take(j as int)) == without_slashes(cs@),
        decreases j,
    {
        assert(cs@.take(j as int).drop_last() =~= cs@.take(j - 1));
        j -= 1;
    }
    let r = slice_subrange(cs.as_slice(), 0, j);
    assert(r@ =~= cs@.take(j as int));
    string_of(r)
}

/// Whether the service runs on this machine, where no proxy is to be used.
pub fn is_local_address(url: &str) -> (r: bool)
    ensures
        r == (has_sub(url@, "localhost"@) || has_sub(url@, "127.0.0.1"@)),
{
    contains(url, "localhost") || contains(url, "127.0.0.1")
}

/// The address of a collection, with what follows it.
pub fn collection_url(base: &str, name: &str, rest: &str) -> (r: String)
    ensures
        r@ == base@ + "/collections/"@ + name@ + rest@,
{
    let mut r: String = base.to_owned();
    r.append("/collections/");
    r.append(name);
    r.append(rest);
    r
}

/// A condition on the metadata of a point.
#[derive(Debug)]
pub enum FilterClause {
    /// The memory type is that one.
    MemoryTypeIs(String),
    /// The time is before.
    Before(i64),
    /// The time is after.
    After(i64),
}

/// What a condition is.
pub enum ClauseView {
    MemoryTypeIs(Seq<char>),
    Before(i64),
    After(i64),
}

impl View for FilterClause {
    type V = ClauseView;

    open spec fn view(&self) -> ClauseView {
        match self {
            FilterClause::MemoryTypeIs(s) => ClauseView::MemoryTypeIs(s@),
            FilterClause::Before(t) => ClauseView::Before(*t),
            FilterClause::After(t) => ClauseView::After(*t),
        }
    }
}

/// The conditions that must all hold: the first of the types, and the bounds.
pub open spec fn filter_clauses(
    memory_types: Seq<String>,
    before: Option<i64>,
    after: Option<i64>,
) -> Seq<ClauseView> {
    (if memory_types.len() > 0 {
        seq![ClauseView::MemoryTypeIs(memory_types[0]@)]
    } else {
        Seq::<ClauseView>::empty()
    }) + (match before {
        Some(t) => seq![ClauseView::Before(t)],
        None => Seq::<ClauseView>::empty(),
    }) + (match after {
        Some(t) => seq![ClauseView::After(t)],
        None => Seq::<ClauseView>::empty(),
    })
}

/// The conditions that must all hold.
pub fn build_filter(memory_types: &Vec<String>, before: Option<i64>, after: Option<i64>) -> (out: Vec<
    FilterClause,
>)
    ensures
        out@.map_values(|c: FilterClause| c@) == filter_clauses(memory_types@, before, after),
{
    let mut out: Vec<FilterClause> = Vec::new();
    if memory_types.len() > 0 {
        out.push(FilterClause::MemoryTypeIs(memory_types[0].clone()));
    }
    if let Some(t) = before {
        out.push(FilterClause::Before(t));
    }
    if let Some(t) = after {
        out.push(FilterClause::After(t));
    }
    assert(out@.map_values(|c: FilterClause| c@) =~= filter_clauses(memory_types@, before, after));
    out
}

/// The hits that name a document.
pub fn named_hits<T>(hits: Vec<(String, T)>) -> (out: Vec<(String, T)>)
    ensures
        out@ == hits@.filter(|h: (String, T)| h.0@.len() > 0),
{
    let mut flags: Vec<bool> = Vec::new();
    let mut i: usize = 0;
    while i < hits.len()
        invariant
            i <= hits@.len(),
            flags@.len() == i,
            forall|k: int| 0 <= k < i ==> #[trigger] flags@[k] == (hits@[k].0@.len() > 0),
        decreases hits@.len() - i,
    {
        flags.push(!hits[i].0.as_str().is_empty());
        i += 1;
    }
    proof {
        kept_is_filter(hits@, flags@, |h: (String, T)| h.0@.len() > 0);
    }
    take_flagged(hits, &flags)
}

} // verus!
