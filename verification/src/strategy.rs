//! Ways to look memories up: by words, by similarity, by both, and along the
//! graph.
//!
//! Scores of words are kept in ten-millionths, so that a tenth of an importance is
//! a whole number.

use crate::relational_recall::{attach_graph_hits, graph_items, hit_views, RelationalHit};
use crate::rank::{order_of, order_sorts, rank_items, ranked};
use crate::select::{copy_flagged, filter_from, kept_is_filter};
use crate::strategy_laws::word_worth;
use crate::text::{copy_option, opt_text, chars_of, contains, contains_chars, count_bytes, byte_len, has_sub, lower, lowercase,
    rows, same, split_words, words};
use crate::types::{copy_items, item_views, micros_at, ItemView, MemoryItem, MetaValue, MetaView,
    RetrievalStrategy};
use vstd::prelude::*;
use vstd::slice::*;
use vstd::string::*;

verus! {

/// A word in the content.
pub const CONTENT_HIT: i128 = 10_000_000;

/// A word in a tag.
pub const TAG_HIT: i128 = 5_000_000;

/// The whole query in the content.
pub const PHRASE_BOOST: i128 = 3_000_000;

/// Number of memories from which the arms of the search are fused.
pub const FUSION_MIN_ENTRIES: usize = 10;

/// Number of bytes of a query below which it is looked up by words.
pub const SHORT_QUERY_BYTES: usize = 5;

// ---------------------------------------------------------------------------
// Scores of words
// ---------------------------------------------------------------------------

/// Whether the word stands in a tag, whatever the case.
pub open spec fn in_tags(m: ItemView, term: Seq<char>) -> bool {
    exists|k: int| 0 <= k < m.tags.len() && has_sub(lowercase(#[trigger] m.tags[k]), term)
}

/// The hits of the first `n` words in the content, and in the tags where they count.
pub open spec fn word_hits(m: ItemView, terms: Seq<Seq<char>>, n: nat, with_tags: bool) -> int
    decreases n,
{
    if n == 0 {
        0
    } else {
        word_hits(m, terms, (n - 1) as nat, with_tags) + (if has_sub(
            lowercase(m.content),
            terms[n - 1],
        ) {
            CONTENT_HIT as int
        } else {
            0
        }) + (if with_tags && in_tags(m, terms[n - 1]) {
            TAG_HIT as int
        } else {
            0
        })
    }
}

/// The hits of a query: those of its words, or of the query as a whole where it has
/// no words.
pub open spec fn query_hits(m: ItemView, query: Seq<char>, with_tags: bool) -> int {
    let q = lowercase(query);
    let terms = words(q);
    if terms.len() > 0 {
        word_hits(m, terms, terms.len(), with_tags)
    } else if has_sub(lowercase(m.content), q) {
        CONTENT_HIT as int
    } else {
        0
    }
}

/// How well a memory fits a query: the hits in its content, and a tenth of its
/// importance.
pub open spec fn match_score(m: ItemView, query: Seq<char>) -> int {
    query_hits(m, query, false) + m.importance
}

/// Whether the query as a whole stands in the content.
pub open spec fn holds_phrase(m: ItemView, query: Seq<char>) -> bool {
    has_sub(lowercase(m.content), lowercase(query))
}

proof fn lemma_hits_bound(m: ItemView, terms: Seq<Seq<char>>, n: nat, with_tags: bool)
    ensures
        0 <= word_hits(m, terms, n, with_tags) <= n * 15_000_000,
    decreases n,
{
    if n > 0 {
        lemma_hits_bound(m, terms, (n - 1) as nat, with_tags);
    }
}

fn tag_has(m: &MemoryItem, term: &[char]) -> (r: bool)
    ensures
        r == in_tags(m@, term@),
{
    let mut i: usize = 0;
    while i < m.tags.len()
        invariant
            i <= m.tags@.len(),
            forall|k: int| 0 <= k < i ==> !has_sub(lowercase(#[trigger] m@.tags[k]), term@),
        decreases m.tags@.len() - i,
    {
        assert(m@.tags[i as int] == m.tags@[i as int]@);
        let t = lower(m.tags[i].as_str());
        let cs = chars_of(t.as_str());
        if contains_chars(cs.as_slice(), term) {
            return true;
        }
        i += 1;
    }
    false
}

/// The hits of a query in a memory.
fn hits_of(m: &MemoryItem, query: &str, with_tags: bool) -> (r: i128)
    ensures
        r == query_hits(m@, query@, with_tags),
        0 <= r <= usize::MAX * 15_000_000,
{
    let q = lower(query);
    let qc = chars_of(q.as_str());
    let terms = split_words(qc.as_slice());
    let c = lower(m.content.as_str());
    let cc = chars_of(c.as_str());
    let n: usize = terms.len();
    if n == 0 {
        assert(rows(terms@).len() == 0);
        return if contains_chars(cc.as_slice(), qc.as_slice()) {
            CONTENT_HIT
        } else {
            0
        };
    }
    let ghost all = rows(terms@);
    let mut score: i128 = 0;
    let mut i: usize = 0;
    while i < n
        invariant
            i <= n,
            n == terms@.len(),
            all == rows(terms@),
            cc@ == lowercase(m@.content),
            score == word_hits(m@, all, i as nat, with_tags),
            0 <= score <= i * 15_000_000,
        decreases n - i,
    {
        assert(all[i as int] == terms@[i as int]@);
        if contains_chars(cc.as_slice(), terms[i].as_slice()) {
            score = score + CONTENT_HIT;
        }
        if with_tags && tag_has(m, terms[i].as_slice()) {
            score = score + TAG_HIT;
        }
        i += 1;
    }
    score
}

/// How well a memory fits a query, in ten-millionths.
pub fn compute_match_score(item: &MemoryItem, query: &str) -> (r: i128)
    ensures
        r == match_score(item@, query@),
        -1_000_000_000_000_000_000_000_000_000 <= r <= 1_000_000_000_000_000_000_000_000_000,
{
    hits_of(item, query, false) + item.importance as i128
}

// ---------------------------------------------------------------------------
// By words
// ---------------------------------------------------------------------------

/// The memories in which the query has hits.
pub open spec fn word_matches(entries: Seq<ItemView>, query: Seq<char>) -> Seq<ItemView> {
    entries.filter(|m: ItemView| query_hits(m, query, true) > 0)
}

/// The hits and a tenth of the importance of each memory.
pub open spec fn word_keys(entries: Seq<ItemView>, query: Seq<char>) -> Seq<i128> {
    entries.map_values(|m: ItemView| (query_hits(m, query, true) + m.importance) as i128)
}

/// The memories in which the query has hits, best first; the first memories where
/// there are none.
pub open spec fn keyword_search(entries: Seq<ItemView>, query: Seq<char>, limit: int) -> Seq<ItemView> {
    let found = word_matches(entries, query);
    if found.len() == 0 {
        if limit < entries.len() {
            entries.take(limit)
        } else {
            entries
        }
    } else {
        ranked(found, word_keys(found, query), limit)
    }
}

/// The first memories.
pub fn first_items(entries: &[MemoryItem], limit: usize) -> (out: Vec<MemoryItem>)
    ensures
        item_views(out@) == (if limit < entries@.len() {
            item_views(entries@).take(limit as int)
        } else {
            item_views(entries@)
        }),
{
    let n: usize = if limit < entries.len() {
        limit
    } else {
        entries.len()
    };
    let head = slice_subrange(entries, 0, n);
    let out = copy_items(head);
    proof {
        if limit < entries@.len() {
            assert(item_views(out@) =~= item_views(entries@).take(limit as int));
        } else {
            assert(item_views(out@) =~= item_views(entries@));
        }
    }
    out
}

/// Looks memories up by words.
pub fn search_keyword(entries: &[MemoryItem], query: &str, limit: usize) -> (out: Vec<MemoryItem>)
    ensures
        item_views(out@) == keyword_search(item_views(entries@), query@, limit as int),
        words(lowercase(query@)).len() <= usize::MAX && (exists|k: int|
            0 <= k < entries@.len() && word_worth((#[trigger] entries@[k])@, query@)
                > entries@[k]@.importance) ==> forall|i: int, j: int|
            0 <= i < j < out@.len() ==> word_worth((#[trigger] out@[i])@, query@) >= word_worth(
                (#[trigger] out@[j])@,
                query@,
            ),
{
    let ghost all = item_views(entries@);
    let mut flags: Vec<bool> = Vec::new();
    let mut i: usize = 0;
    while i < entries.len()
        invariant
            i <= entries@.len(),
            all == item_views(entries@),
            flags@.len() == i,
            forall|k: int|
                0 <= k < i ==> #[trigger] flags@[k] == (query_hits(all[k], query@, true) > 0),
        decreases entries@.len() - i,
    {
        assert(all[i as int] == entries@[i as int]@);
        flags.push(hits_of(&entries[i], query, true) > 0);
        i += 1;
    }
    let found = copy_flagged(entries, &flags);
    proof {
        kept_is_filter(all, flags@, |m: ItemView| query_hits(m, query@, true) > 0);
    }
    proof {
        if words(lowercase(query@)).len() <= usize::MAX && (exists|k: int|
            0 <= k < entries@.len() && word_worth((#[trigger] entries@[k])@, query@)
                > entries@[k]@.importance) {
            let k = choose|k: int|
                0 <= k < entries@.len() && word_worth((#[trigger] entries@[k])@, query@)
                    > entries@[k]@.importance;
            assert(all[k] == entries@[k]@);
            assert(word_worth(all[k], query@) > all[k].importance);
            crate::strategy_laws::keyword_search_gives_the_best(all, query@, limit as int);
        }
    }
    if found.len() == 0 {
        assert(item_views(found@).len() == 0);
        let out = first_items(entries, limit);
        assert forall|i: int| 0 <= i < out@.len() implies item_views(out@)[i] == (#[trigger] out@[i])@ by {}
        return out;
    }
    let ghost hits = item_views(found@);
    assert(hits.len() > 0);
    let mut keys: Vec<i128> = Vec::new();
    let mut k: usize = 0;
    while k < found.len()
        invariant
            k <= found@.len(),
            hits == item_views(found@),
            keys@ == word_keys(hits, query@).take(k as int),
        decreases found@.len() - k,
    {
        assert(hits[k as int] == found@[k as int]@);
        let h: i128 = hits_of(&found[k], query, true) + found[k].importance as i128;
        keys.push(h);
        k += 1;
        assert(word_keys(hits, query@).take(k as int) =~= word_keys(hits, query@).take(k - 1).push(
            word_keys(hits, query@)[k - 1],
        ));
    }
    assert(word_keys(hits, query@).take(k as int) =~= word_keys(hits, query@));
    let out = rank_items(found.as_slice(), &keys, limit);
    assert forall|i: int| 0 <= i < out@.len() implies item_views(out@)[i] == (#[trigger] out@[i])@ by {}
    out
}

/// Every memory that a search by words gives is one of the memories, and where a
/// memory has hits, all that are given have.
pub proof fn keyword_search_finds(entries: Seq<ItemView>, query: Seq<char>, limit: int, i: int)
    requires
        0 <= i < keyword_search(entries, query, limit).len(),
        word_matches(entries, query).len() > 0,
        0 <= limit,
    ensures
        query_hits(keyword_search(entries, query, limit)[i], query, true) > 0,
        entries.contains(keyword_search(entries, query, limit)[i]),
{
    let found = word_matches(entries, query);
    let keys = word_keys(found, query);
    order_sorts(keys);
    let p = order_of(keys);
    let test = |m: ItemView| query_hits(m, query, true) > 0;
    filter_from(entries, test, p[i]);
    assert(keyword_search(entries, query, limit)[i] == found[p[i]]);
}

// ---------------------------------------------------------------------------
// By fit
// ---------------------------------------------------------------------------

/// How well each memory fits, with a boost for the query as a whole where it counts.
pub open spec fn fit_keys(entries: Seq<ItemView>, query: Seq<char>, phrase: bool) -> Seq<i128> {
    entries.map_values(
        |m: ItemView|
            (match_score(m, query) + (if phrase && holds_phrase(m, query) {
                PHRASE_BOOST as int
            } else {
                0
            })) as i128,
    )
}

fn rank_by_fit(entries: &[MemoryItem], query: &str, limit: usize, phrase: bool) -> (out: Vec<MemoryItem>)
    ensures
        item_views(out@) == ranked(
            item_views(entries@),
            fit_keys(item_views(entries@), query@, phrase),
            limit as int,
        ),
{
    let ghost all = item_views(entries@);
    let ghost want = fit_keys(all, query@, phrase);
    let q = lower(query);
    let mut keys: Vec<i128> = Vec::new();
    let mut i: usize = 0;
    while i < entries.len()
        invariant
            i <= entries@.len(),
            all == item_views(entries@),
            want == fit_keys(all, query@, phrase),
            q@ == lowercase(query@),
            keys@ == want.take(i as int),
        decreases entries@.len() - i,
    {
        assert(all[i as int] == entries@[i as int]@);
        let h: i128 = hits_of(&entries[i], query, false) + entries[i].importance as i128;
        let c = lower(entries[i].content.as_str());
        let boost: i128 = if phrase && contains(c.as_str(), q.as_str()) {
            PHRASE_BOOST
        } else {
            0
        };
        keys.push(h + boost);
        i += 1;
        assert(want.take(i as int) =~= want.take(i - 1).push(want[i - 1]));
    }
    assert(want.take(i as int) =~= want);
    rank_items(entries, &keys, limit)
}

/// The memories that fit best; what a search by similarity falls back to.
pub fn search_importance_based(entries: &[MemoryItem], query: &str, limit: usize) -> (out: Vec<
    MemoryItem,
>)
    ensures
        item_views(out@) == ranked(
            item_views(entries@),
            fit_keys(item_views(entries@), query@, false),
            limit as int,
        ),
{
    rank_by_fit(entries, query, limit, false)
}

/// A score in ten-millionths as one in millionths, rounded down, within bounds.
pub open spec fn as_micros(x: int) -> i64 {
    clipped(x / 10)
}

/// The memory with its fit noted in its metadata.
pub open spec fn with_fit(m: ItemView, query: Seq<char>) -> ItemView {
    ItemView {
        metadata: m.metadata.insert(
            "combined_score"@,
            MetaView::Micros(as_micros(match_score(m, query))),
        ),
        ..m
    }
}

fn micros_of(x: i128) -> (r: i64)
    requires
        -1_000_000_000_000_000_000_000_000_000 <= x <= 1_000_000_000_000_000_000_000_000_000,
    ensures
        r == as_micros(x as int),
{
    clip(floor_div(x, 10))
}

/// The memories that fit best, with a boost for the query as a whole, and their
/// fit in their metadata.
pub open spec fn hybrid_rank(entries: Seq<ItemView>, query: Seq<char>, limit: int) -> Seq<ItemView> {
    ranked(entries, fit_keys(entries, query, true), limit).map_values(
        |m: ItemView| with_fit(m, query),
    )
}

/// Looks memories up by fit.
pub fn search_hybrid(entries: &[MemoryItem], query: &str, limit: usize) -> (out: Vec<MemoryItem>)
    ensures
        item_views(out@) == hybrid_rank(item_views(entries@), query@, limit as int),
{
    let found = rank_by_fit(entries, query, limit, true);
    let ghost all = item_views(found@);
    let mut out: Vec<MemoryItem> = Vec::new();
    let mut i: usize = 0;
    while i < found.len()
        invariant
            i <= found@.len(),
            all == item_views(found@),
            out@.len() == i,
            forall|k: int| 0 <= k < i ==> (#[trigger] out@[k])@ == with_fit(all[k], query@),
        decreases found@.len() - i,
    {
        assert(all[i as int] == found@[i as int]@);
        let mut m = found[i].clone();
        let h: i128 = hits_of(&m, query, false) + m.importance as i128;
        m.metadata.insert("combined_score", MetaValue::Micros(micros_of(h)));
        out.push(m);
        i += 1;
    }
    assert(item_views(out@) =~= hybrid_rank(item_views(entries@), query@, limit as int));
    out
}

// ---------------------------------------------------------------------------
// By similarity
// ---------------------------------------------------------------------------

/// A memory that the vector store found, and how alike it is, in millionths.
#[derive(Debug)]
pub struct VectorHit {
    pub memory_id: String,
    pub similarity: i64,
}

/// A number within the bounds of a score.
pub open spec fn clipped(x: int) -> i64 {
    if x > i64::MAX {
        i64::MAX
    } else if x < i64::MIN {
        i64::MIN
    } else {
        x as i64
    }
}

fn clip(x: i128) -> (r: i64)
    ensures
        r == clipped(x as int),
{
    if x > i64::MAX as i128 {
        i64::MAX
    } else if x < i64::MIN as i128 {
        i64::MIN
    } else {
        x as i64
    }
}

/// A fit `x` in ten-millionths as `x / (1 + x)` in millionths, rounded down.
pub open spec fn damped(x: int) -> int {
    let d = 10_000_000 + x;
    if d > 0 {
        x * 1_000_000 / d
    } else if d < 0 {
        -x * 1_000_000 / -d
    } else {
        i64::MIN as int
    }
}

/// The score that ranks a hit: three parts of how alike it is, and one of how well it fits.
pub open spec fn combined_score(similarity: i64, fit: int) -> i64 {
    clipped((3 * similarity + damped(fit)) / 4)
}

fn damp(x: i128) -> (r: i128)
    requires
        -1_000_000_000_000_000_000_000_000_000 <= x <= 1_000_000_000_000_000_000_000_000_000,
    ensures
        r == damped(x as int),
        -1_000_000_000_000_000_000_000_000_000_000_000 <= r <= 1_000_000_000_000_000_000_000_000_000_000_000,
{
    let d: i128 = 10_000_000 + x;
    if d > 0 {
        floor_div(x * 1_000_000, d)
    } else if d < 0 {
        floor_div(-x * 1_000_000, -d)
    } else {
        i64::MIN as i128
    }
}

fn combine(similarity: i64, fit: i128) -> (r: i64)
    requires
        -1_000_000_000_000_000_000_000_000_000 <= fit <= 1_000_000_000_000_000_000_000_000_000,
    ensures
        r == combined_score(similarity, fit as int),
{
    clip(floor_div(3 * similarity as i128 + damp(fit), 4))
}

/// The position of the last memory with that identifier.
pub open spec fn last_with_id(entries: Seq<ItemView>, id: Seq<char>) -> Option<int>
    decreases entries.len(),
{
    if entries.len() == 0 {
        None
    } else if entries.last().id == id {
        Some(entries.len() - 1)
    } else {
        last_with_id(entries.drop_last(), id)
    }
}

pub proof fn lemma_last_with_id(entries: Seq<ItemView>, id: Seq<char>)
    ensures
        match last_with_id(entries, id) {
            Some(i) => 0 <= i < entries.len() && entries[i].id == id,
            None => forall|i: int| 0 <= i < entries.len() ==> (#[trigger] entries[i]).id != id,
        },
    decreases entries.len(),
{
    if entries.len() > 0 && entries.last().id != id {
        lemma_last_with_id(entries.drop_last(), id);
        match last_with_id(entries.drop_last(), id) {
            Some(i) => assert(entries.drop_last()[i] == entries[i]),
            None => {
                assert forall|i: int| 0 <= i < entries.len() implies (#[trigger] entries[i]).id
                    != id by {
                    if i < entries.len() - 1 {
                        assert(entries.drop_last()[i] == entries[i]);
                    }
                }
            },
        }
    }
}

/// The position of the last memory with that identifier.
pub fn position_by_id(entries: &[MemoryItem], id: &str) -> (r: Option<usize>)
    ensures
        match r {
            Some(i) => last_with_id(item_views(entries@), id@) == Some(i as int) && i
                < entries@.len(),
            None => last_with_id(item_views(entries@), id@) is None,
        },
{
    let ghost all = item_views(entries@);
    let mut i: usize = entries.len();
    assert(all.take(i as int) =~= all);
    while i > 0
        invariant
            i <= entries@.len(),
            all == item_views(entries@),
            last_with_id(all.take(i as int), id@) == last_with_id(all, id@),
        decreases i,
    {
        assert(all.take(i as int).drop_last() =~= all.take(i - 1));
        assert(all.take(i as int).last() == entries@[i - 1]@);
        if same(entries[i - 1].id.as_str(), id) {
            return Some(i - 1);
        }
        i -= 1;
    }
    None
}

/// The memory of a hit with the scores in its metadata.
pub open spec fn scored_hit(m: ItemView, similarity: i64, query: Seq<char>) -> ItemView {
    let fit = match_score(m, query);
    ItemView {
        metadata: m.metadata.insert("vector_similarity"@, MetaView::Micros(similarity)).insert(
            "match_score"@,
            MetaView::Micros(as_micros(fit)),
        ).insert("combined_score"@, MetaView::Micros(combined_score(similarity, fit))),
        ..m
    }
}

/// The memories of the hits that are known, with the score of each.
pub open spec fn known_hits(entries: Seq<ItemView>, hits: Seq<VectorHit>, query: Seq<char>) -> Seq<
    (ItemView, i128),
>
    decreases hits.len(),
{
    if hits.len() == 0 {
        Seq::<(ItemView, i128)>::empty()
    } else {
        let rest = known_hits(entries, hits.drop_last(), query);
        let h = hits.last();
        match last_with_id(entries, h.memory_id@) {
            Some(i) => rest.push(
                (
                    scored_hit(entries[i], h.similarity, query),
                    combined_score(h.similarity, match_score(entries[i], query)) as i128,
                ),
            ),
            None => rest,
        }
    }
}

/// The memories of the hits, best first.
pub open spec fn vector_rank(entries: Seq<ItemView>, hits: Seq<VectorHit>, query: Seq<char>, limit: int) -> Seq<
    ItemView,
> {
    let known = known_hits(entries, hits, query);
    ranked(
        known.map_values(|p: (ItemView, i128)| p.0),
        known.map_values(|p: (ItemView, i128)| p.1),
        limit,
    )
}

/// The memories of the hits of the vector store, best first.
pub fn rank_vector_hits(entries: &[MemoryItem], hits: &Vec<VectorHit>, query: &str, limit: usize) -> (out: Vec<
    MemoryItem,
>)
    ensures
        item_views(out@) == vector_rank(item_views(entries@), hits@, query@, limit as int),
{
    let ghost all = item_views(entries@);
    let ghost items_part = |p: (ItemView, i128)| p.0;
    let ghost keys_part = |p: (ItemView, i128)| p.1;
    let mut found: Vec<MemoryItem> = Vec::new();
    let mut keys: Vec<i128> = Vec::new();
    let mut i: usize = 0;
    assert(item_views(found@) =~= known_hits(all, hits@.take(0), query@).map_values(items_part));
    assert(keys@ =~= known_hits(all, hits@.take(0), query@).map_values(keys_part));
    while i < hits.len()
        invariant
            i <= hits@.len(),
            all == item_views(entries@),
            items_part == (|p: (ItemView, i128)| p.0),
            keys_part == (|p: (ItemView, i128)| p.1),
            item_views(found@) == known_hits(all, hits@.take(i as int), query@).map_values(items_part),
            keys@ == known_hits(all, hits@.take(i as int), query@).map_values(keys_part),
        decreases hits@.len() - i,
    {
        let h = &hits[i];
        proof {
            assert(hits@.take(i + 1).drop_last() =~= hits@.take(i as int));
            assert(hits@.take(i + 1).last() == *h);
        }
        let ghost was = known_hits(all, hits@.take(i as int), query@);
        let ghost now = known_hits(all, hits@.take(i + 1), query@);
        match position_by_id(entries, h.memory_id.as_str()) {
            Some(at) => {
                let mut m = entries[at].clone();
                assert(all[at as int] == entries@[at as int]@);
                let fit: i128 = compute_match_score(&m, query);
                let combined: i64 = combine(h.similarity, fit);
                m.metadata.insert("vector_similarity", MetaValue::Micros(h.similarity));
                m.metadata.insert("match_score", MetaValue::Micros(micros_of(fit)));
                m.metadata.insert("combined_score", MetaValue::Micros(combined));
                let ghost f0 = item_views(found@);
                let ghost mv = m@;
                found.push(m);
                keys.push(combined as i128);
                assert(mv == scored_hit(all[at as int], h.similarity, query@));
                assert(now == was.push((mv, combined as i128)));
                assert(item_views(found@) =~= f0.push(mv));
                assert(item_views(found@) =~= now.map_values(items_part));
                assert(keys@ =~= now.map_values(keys_part));
            },
            None => {
                assert(now == was);
            },
        }
        i += 1;
    }
    assert(hits@.take(i as int) =~= hits@);
    proof {
        let known = known_hits(all, hits@, query@);
        assert(known.map_values(items_part).len() == known.map_values(keys_part).len());
        assert(item_views(found@).len() == found@.len());
    }
    rank_items(found.as_slice(), &keys, limit)
}

// ---------------------------------------------------------------------------
// Ageing of knowledge
// ---------------------------------------------------------------------------

/// Whether the time to live of a memory is over. `now` is in milliseconds, the
/// metadata hold seconds in millionths.
pub open spec fn is_expired_at(m: ItemView, now: i64) -> bool {
    match micros_at(m.metadata, "expires_at"@) {
        Some(t) => now * 1000 >= t,
        None => false,
    }
}

/// A score after ageing by a factor in millionths; three tenths of it where the
/// time to live is over.
pub open spec fn aged(score: int, factor: int, expired: bool) -> int {
    let a = score * factor / 1_000_000;
    if expired {
        a * 3 / 10
    } else {
        a
    }
}

/// The combined score in the metadata; zero where there is none.
pub open spec fn combined_of(m: ItemView) -> i128 {
    match micros_at(m.metadata, "combined_score"@) {
        Some(s) => s,
        None => 0,
    }
}

/// Knowledge with its age noted in its metadata; any other memory as it is.
pub open spec fn aged_item(m: ItemView, factor: i64, now: i64) -> ItemView {
    if m.memory_type == "knowledge"@ {
        let expired = is_expired_at(m, now);
        let noted = m.metadata.insert("recency_factor"@, MetaView::Micros(factor)).insert(
            "temporal_adjusted_score"@,
            MetaView::Micros(clipped(aged(combined_of(m) as int, factor as int, expired))),
        );
        ItemView {
            metadata: if expired {
                noted.insert("expired"@, MetaView::Bool(true))
            } else {
                noted
            },
            ..m
        }
    } else {
        m
    }
}

/// The score that ranks a memory: that after ageing, or the combined one.
pub open spec fn aged_key(m: ItemView) -> i128 {
    match micros_at(m.metadata, "temporal_adjusted_score"@) {
        Some(s) => s,
        None => combined_of(m),
    }
}

/// The memories after ageing.
pub open spec fn aged_items(items: Seq<ItemView>, factors: Seq<i64>, now: i64) -> Seq<ItemView> {
    Seq::new(items.len(), |i: int| aged_item(items[i], factors[i], now))
}

fn age_item(m: &MemoryItem, factor: i64, now: i64) -> (out: MemoryItem)
    requires
        0 <= factor <= 1_000_000,
    ensures
        out@ == aged_item(m@, factor, now),
{
    let mut out = m.clone();
    if same(m.memory_type.as_str(), "knowledge") {
        let combined: i128 = match m.metadata.micros("combined_score") {
            Some(s) => s,
            None => 0,
        };
        let expired = match m.metadata.micros("expires_at") {
            Some(t) => now as i128 * 1000 >= t,
            None => false,
        };
        let f: i128 = factor as i128;
        assert(-10_000_000_000_000_000_000_000_000 <= combined <= 10_000_000_000_000_000_000_000_000);
        proof {
            assert(-10_000_000_000_000_000_000_000_000_000_000 <= combined * f
                <= 10_000_000_000_000_000_000_000_000_000_000) by (nonlinear_arith)
                requires
                    -10_000_000_000_000_000_000_000_000 <= combined <= 10_000_000_000_000_000_000_000_000,
                    0 <= f <= 1_000_000,
            ;
        }
        let a: i128 = floor_div(combined * f, 1_000_000);
        let adjusted: i128 = if expired {
            floor_div(a * 3, 10)
        } else {
            a
        };
        out.metadata.insert("recency_factor", MetaValue::Micros(factor));
        out.metadata.insert("temporal_adjusted_score", MetaValue::Micros(clip(adjusted)));
        if expired {
            out.metadata.insert("expired", MetaValue::Bool(true));
        }
    }
    out
}

/// The memories after ageing, ranked by what it left of their scores.
pub open spec fn aged_rank(items: Seq<ItemView>, factors: Seq<i64>, now: i64) -> Seq<ItemView> {
    let noted = aged_items(items, factors, now);
    ranked(noted, noted.map_values(|m: ItemView| aged_key(m)), noted.len() as int)
}

/// Notes the age of knowledge and ranks by it: `factors` say how much of its score
/// each memory keeps. Memories of other types keep their scores.
pub fn apply_temporal_decay(items: &[MemoryItem], factors: &Vec<i64>, now: i64) -> (out: Vec<MemoryItem>)
    requires
        items@.len() == factors@.len(),
        forall|i: int| 0 <= i < factors@.len() ==> 0 <= #[trigger] factors@[i] <= 1_000_000,
    ensures
        item_views(out@) == aged_rank(item_views(items@), factors@, now),
{
    let ghost noted = aged_items(item_views(items@), factors@, now);
    let ghost want = noted.map_values(|m: ItemView| aged_key(m));
    let mut old_items: Vec<MemoryItem> = Vec::new();
    let mut keys: Vec<i128> = Vec::new();
    let mut i: usize = 0;
    assert(item_views(old_items@) =~= noted.take(0));
    while i < items.len()
        invariant
            i <= items@.len(),
            items@.len() == factors@.len(),
            noted == aged_items(item_views(items@), factors@, now),
            want == noted.map_values(|m: ItemView| aged_key(m)),
            forall|k: int| 0 <= k < factors@.len() ==> 0 <= #[trigger] factors@[k] <= 1_000_000,
            item_views(old_items@) == noted.take(i as int),
            keys@ == want.take(i as int),
        decreases items@.len() - i,
    {
        assert(0 <= factors@[i as int] <= 1_000_000);
        let m = age_item(&items[i], factors[i], now);
        assert(m@ == noted[i as int]);
        let key: i128 = match m.metadata.micros("temporal_adjusted_score") {
            Some(s) => s,
            None => match m.metadata.micros("combined_score") {
                Some(s) => s,
                None => 0,
            },
        };
        let ghost prev = item_views(old_items@);
        old_items.push(m);
        keys.push(key);
        assert(item_views(old_items@) =~= prev.push(noted[i as int]));
        i += 1;
        assert(noted.take(i as int) =~= noted.take(i - 1).push(noted[i - 1]));
        assert(want.take(i as int) =~= want.take(i - 1).push(want[i - 1]));
    }
    assert(noted.take(i as int) =~= noted);
    assert(want.take(i as int) =~= want);
    assert(item_views(old_items@).len() == old_items@.len());
    rank_items(old_items.as_slice(), &keys, old_items.len())
}

/// Division that rounds down.
pub(crate) fn floor_div(a: i128, b: i128) -> (q: i128)
    requires
        0 < b <= 10_000_000_000_000_000_000_000_000_000,
        -10_000_000_000_000_000_000_000_000_000_000_000 <= a <= 10_000_000_000_000_000_000_000_000_000_000_000,
    ensures
        q == a as int / b as int,
        a >= 0 ==> 0 <= q <= a,
        a < 0 ==> a <= q < 0,
{
    if a >= 0 {
        let q: i128 = a / b;
        assert(0 <= q <= a) by (nonlinear_arith)
            requires
                q == a as int / b as int,
                a >= 0,
                b > 0,
        ;
        q
    } else {
        let n: i128 = (b - 1) - a;
        let p: i128 = n / b;
        assert(-(p as int) == a as int / b as int && a <= -p < 0) by (nonlinear_arith)
            requires
                p == n as int / b as int,
                n == (b - 1) - a,
                a < 0,
                b > 0,
        ;
        -p
    }
}

/// What its age makes of each memory at the time `now`.
#[derive(Debug)]
pub struct Ages {
    /// How much of its score the memory keeps, in millionths.
    pub factors: Vec<i64>,
    /// A hint that the memory is old.
    pub hints: Vec<Option<String>>,
    pub now: i64,
}

impl Ages {
    /// There are a factor between zero and one and a hint for each memory.
    pub open spec fn wf(self, entries: Seq<ItemView>) -> bool {
        &&& self.factors@.len() == entries.len()
        &&& self.hints@.len() == entries.len()
        &&& forall|i: int| 0 <= i < self.factors@.len() ==> 0 <= #[trigger] self.factors@[i] <= 1_000_000
    }
}

/// The factor of the last memory that was made at `time`.
pub open spec fn factor_at(entries: Seq<ItemView>, factors: Seq<i64>, time: i64) -> i64
    decreases entries.len(),
{
    if entries.len() == 0 {
        0
    } else if entries.last().timestamp == time {
        factors[entries.len() - 1]
    } else {
        factor_at(entries.drop_last(), factors, time)
    }
}

/// The hint for the last memory that was made at `time`.
pub open spec fn hint_at(entries: Seq<ItemView>, hints: Seq<Option<String>>, time: i64) -> Option<Seq<char>>
    decreases entries.len(),
{
    if entries.len() == 0 {
        None
    } else if entries.last().timestamp == time {
        opt_text(hints[entries.len() - 1])
    } else {
        hint_at(entries.drop_last(), hints, time)
    }
}

/// Results among the memories with the hints that they are old.
pub open spec fn hinted(entries: Seq<ItemView>, items: Seq<ItemView>, ages: Ages) -> Seq<ItemView> {
    items.map_values(|m: ItemView| with_staleness(m, hint_at(entries, ages.hints@, m.timestamp)))
}

/// Results among the memories after ageing, ranked by what it left of their scores.
pub open spec fn aged_results(entries: Seq<ItemView>, items: Seq<ItemView>, ages: Ages) -> Seq<ItemView> {
    aged_rank(
        items,
        items.map_values(|m: ItemView| factor_at(entries, ages.factors@, m.timestamp)),
        ages.now,
    )
}

fn find_factor(entries: &[MemoryItem], ages: &Ages, time: i64) -> (r: i64)
    requires
        ages.wf(item_views(entries@)),
    ensures
        r == factor_at(item_views(entries@), ages.factors@, time),
        0 <= r <= 1_000_000,
{
    let ghost all = item_views(entries@);
    let mut i: usize = entries.len();
    assert(all.take(i as int) =~= all);
    while i > 0
        invariant
            i <= entries@.len(),
            all == item_views(entries@),
            ages.wf(all),
            factor_at(all.take(i as int), ages.factors@, time) == factor_at(all, ages.factors@, time),
        decreases i,
    {
        assert(all.take(i as int).drop_last() =~= all.take(i - 1));
        assert(all.take(i as int).last() == entries@[i - 1]@);
        if entries[i - 1].timestamp == time {
            assert(0 <= ages.factors@[i - 1] <= 1_000_000);
            return ages.factors[i - 1];
        }
        i -= 1;
    }
    0
}

fn find_hint(entries: &[MemoryItem], ages: &Ages, time: i64) -> (r: Option<String>)
    requires
        ages.wf(item_views(entries@)),
    ensures
        opt_text(r) == hint_at(item_views(entries@), ages.hints@, time),
{
    let ghost all = item_views(entries@);
    let mut i: usize = entries.len();
    assert(all.take(i as int) =~= all);
    while i > 0
        invariant
            i <= entries@.len(),
            all == item_views(entries@),
            ages.wf(all),
            hint_at(all.take(i as int), ages.hints@, time) == hint_at(all, ages.hints@, time),
        decreases i,
    {
        assert(all.take(i as int).drop_last() =~= all.take(i - 1));
        assert(all.take(i as int).last() == entries@[i - 1]@);
        if entries[i - 1].timestamp == time {
            return copy_option(&ages.hints[i - 1]);
        }
        i -= 1;
    }
    None
}

fn hint_results(entries: &[MemoryItem], items: &Vec<MemoryItem>, ages: &Ages) -> (out: Vec<MemoryItem>)
    requires
        ages.wf(item_views(entries@)),
    ensures
        item_views(out@) == hinted(item_views(entries@), item_views(items@), *ages),
{
    let ghost all = item_views(entries@);
    let ghost found = item_views(items@);
    let mut hints: Vec<Option<String>> = Vec::new();
    let mut i: usize = 0;
    while i < items.len()
        invariant
            i <= items@.len(),
            all == item_views(entries@),
            found == item_views(items@),
            ages.wf(all),
            hints@.len() == i,
            forall|k: int|
                0 <= k < i ==> opt_text(#[trigger] hints@[k]) == hint_at(all, ages.hints@, found[k].timestamp),
        decreases items@.len() - i,
    {
        assert(found[i as int] == items@[i as int]@);
        let h = find_hint(entries, ages, items[i].timestamp);
        hints.push(h);
        i += 1;
    }
    let out = inject_staleness(items.as_slice(), &hints);
    proof {
        assert forall|k: int| 0 <= k < out@.len() implies #[trigger] item_views(out@)[k] == hinted(
            all,
            found,
            *ages,
        )[k] by {
            assert(opt_text(hints@[k]) == hint_at(all, ages.hints@, found[k].timestamp));
            assert(found[k] == items@[k]@);
        }
        assert(item_views(out@) =~= hinted(all, found, *ages));
    }
    out
}

fn age_results(entries: &[MemoryItem], items: &Vec<MemoryItem>, ages: &Ages) -> (out: Vec<MemoryItem>)
    requires
        ages.wf(item_views(entries@)),
    ensures
        item_views(out@) == aged_results(item_views(entries@), item_views(items@), *ages),
{
    let ghost all = item_views(entries@);
    let ghost found = item_views(items@);
    let ghost want = found.map_values(|m: ItemView| factor_at(all, ages.factors@, m.timestamp));
    let mut factors: Vec<i64> = Vec::new();
    let mut i: usize = 0;
    while i < items.len()
        invariant
            i <= items@.len(),
            all == item_views(entries@),
            found == item_views(items@),
            ages.wf(all),
            want == found.map_values(|m: ItemView| factor_at(all, ages.factors@, m.timestamp)),
            factors@.len() == i,
            forall|k: int|
                0 <= k < i ==> #[trigger] factors@[k] == want[k] && 0 <= factors@[k] <= 1_000_000,
        decreases items@.len() - i,
    {
        assert(found[i as int] == items@[i as int]@);
        let f: i64 = find_factor(entries, ages, items[i].timestamp);
        factors.push(f);
        i += 1;
    }
    assert(factors@ =~= want);
    apply_temporal_decay(items.as_slice(), &factors, ages.now)
}

// ---------------------------------------------------------------------------
// Choosing the way
// ---------------------------------------------------------------------------

/// Looks up by words.
pub struct KeywordStrategy;

/// Looks up by similarity.
pub struct VectorStrategy;

/// Looks up by fit.
pub struct HybridStrategy;

/// Tries the ways one after the other.
pub struct AutoStrategy;

/// Looks up along the graph.
pub struct GraphStrategy;

impl KeywordStrategy {
    pub fn name(&self) -> (r: &'static str)
        ensures
            r@ == "keyword"@,
    {
        "keyword"
    }

    /// Looks memories up by words.
    pub fn search(&self, entries: &[MemoryItem], query: &str, limit: usize) -> (out: Vec<MemoryItem>)
        ensures
            item_views(out@) == keyword_search(item_views(entries@), query@, limit as int),
    {
        search_keyword(entries, query, limit)
    }
}

impl VectorStrategy {
    pub fn name(&self) -> (r: &'static str)
        ensures
            r@ == "vector"@,
    {
        "vector"
    }

    /// The memories of the hits after ageing; those that fit best where there are no hits.
    pub fn search(
        &self,
        entries: &[MemoryItem],
        query: &str,
        hits: &Vec<VectorHit>,
        ages: &Ages,
        limit: usize,
    ) -> (out: Vec<MemoryItem>)
        requires
            ages.wf(item_views(entries@)),
        ensures
            item_views(out@) == vector_search(item_views(entries@), query@, hits@, *ages, limit as int),
    {
        if hits.len() == 0 {
            search_importance_based(entries, query, limit)
        } else {
            age_results(entries, &rank_vector_hits(entries, hits, query, limit), ages)
        }
    }
}

/// The memories of the hits after ageing; those that fit best where there are no hits.
pub open spec fn vector_search(
    entries: Seq<ItemView>,
    query: Seq<char>,
    hits: Seq<VectorHit>,
    ages: Ages,
    limit: int,
) -> Seq<ItemView> {
    if hits.len() == 0 {
        ranked(entries, fit_keys(entries, query, false), limit)
    } else {
        aged_results(entries, vector_rank(entries, hits, query, limit), ages)
    }
}

impl HybridStrategy {
    pub fn name(&self) -> (r: &'static str)
        ensures
            r@ == "hybrid"@,
    {
        "hybrid"
    }

    /// Looks memories up by fit, and lets them age.
    pub fn search(&self, entries: &[MemoryItem], query: &str, ages: &Ages, limit: usize) -> (out: Vec<
        MemoryItem,
    >)
        requires
            ages.wf(item_views(entries@)),
        ensures
            item_views(out@) == aged_results(
                item_views(entries@),
                hybrid_rank(item_views(entries@), query@, limit as int),
                *ages,
            ),
    {
        age_results(entries, &search_hybrid(entries, query, limit), ages)
    }
}

/// What the automatic way does next.
#[derive(Debug, Clone, Copy, PartialEq, Eq, Structural)]
pub enum AutoStep {
    /// Give the fused hits.
    Fused,
    /// Give the memories of the vector store.
    Vector,
    /// Look up by words.
    Keyword,
    /// Look up by fit.
    Hybrid,
}

/// How many results each arm gives when `limit` are wanted.
pub fn arm_limit(limit: usize) -> (r: usize)
    requires
        limit * 4 <= usize::MAX,
    ensures
        r == (if limit * 4 > 20 {
            limit * 4
        } else {
            20
        }),
{
    let n: usize = limit * 4;
    if n > 20 {
        n
    } else {
        20
    }
}

/// The first way that has something to give: the fused arms where there are enough
/// memories, then the vector store, then words for a short query or few memories,
/// and fit for anything else.
pub open spec fn auto_step(
    entries: nat,
    fused_hits: nat,
    vectors: nat,
    vector_results: nat,
    query: Seq<char>,
) -> AutoStep {
    if entries >= FUSION_MIN_ENTRIES && fused_hits > 0 {
        AutoStep::Fused
    } else if vectors > 0 && vector_results > 0 {
        AutoStep::Vector
    } else if byte_len(query) < SHORT_QUERY_BYTES || entries < FUSION_MIN_ENTRIES {
        AutoStep::Keyword
    } else {
        AutoStep::Hybrid
    }
}

impl AutoStrategy {
    pub fn name(&self) -> (r: &'static str)
        ensures
            r@ == "auto"@,
    {
        "auto"
    }

    /// The first way that has something to give. `fused_hits` is zero where the query
    /// could not be embedded.
    pub fn step(
        &self,
        entries: usize,
        fused_hits: usize,
        vectors: usize,
        vector_results: usize,
        query: &str,
    ) -> (r: AutoStep)
        ensures
            r == auto_step(
                entries as nat,
                fused_hits as nat,
                vectors as nat,
                vector_results as nat,
                query@,
            ),
    {
        if entries >= FUSION_MIN_ENTRIES && fused_hits > 0 {
            AutoStep::Fused
        } else if vectors > 0 && vector_results > 0 {
            AutoStep::Vector
        } else if count_bytes(query) < SHORT_QUERY_BYTES || entries < FUSION_MIN_ENTRIES {
            AutoStep::Keyword
        } else {
            AutoStep::Hybrid
        }
    }

    /// The results of the first way that has something to give.
    pub fn search(&self, entries: &[MemoryItem], query: &str, found: &Found, ages: &Ages, limit: usize) -> (out: Vec<
        MemoryItem,
    >)
        requires
            ages.wf(item_views(entries@)),
        ensures
            item_views(out@) == auto_search(item_views(entries@), query@, *found, *ages, limit as int),
    {
        let by_vector = VectorStrategy.search(entries, query, &found.hits, ages, limit);
        assert(item_views(by_vector@).len() == by_vector@.len());
        match self.step(entries.len(), found.fused.len(), found.vectors, by_vector.len(), query) {
            AutoStep::Fused => {
                age_results(entries, &hint_results(entries, &found.fused, ages), ages)
            },
            AutoStep::Vector => by_vector,
            AutoStep::Keyword => search_keyword(entries, query, limit),
            AutoStep::Hybrid => HybridStrategy.search(entries, query, ages, limit),
        }
    }
}

/// What the arms found: the fused results, none where the query could not be embedded, and
/// the hits of the vector store, which holds so many vectors.
#[derive(Debug)]
pub struct Found {
    pub fused: Vec<MemoryItem>,
    pub vectors: usize,
    pub hits: Vec<VectorHit>,
}

/// The results of the first way that has something to give.
pub open spec fn auto_search(
    entries: Seq<ItemView>,
    query: Seq<char>,
    found: Found,
    ages: Ages,
    limit: int,
) -> Seq<ItemView> {
    let by_vector = vector_search(entries, query, found.hits@, ages, limit);
    match auto_step(entries.len(), found.fused@.len(), found.vectors as nat, by_vector.len(), query) {
        AutoStep::Fused => aged_results(entries, hinted(entries, item_views(found.fused@), ages), ages),
        AutoStep::Vector => by_vector,
        AutoStep::Keyword => keyword_search(entries, query, limit),
        AutoStep::Hybrid => aged_results(entries, hybrid_rank(entries, query, limit), ages),
    }
}

impl GraphStrategy {
    pub fn name(&self) -> (r: &'static str)
        ensures
            r@ == "graph"@,
    {
        "graph"
    }

    /// The memories that the graph reached, with hints for their ages; those that have the words where there is no
    /// graph.
    pub fn search(
        &self,
        entries: &[MemoryItem],
        query: &str,
        reached: Option<&Vec<RelationalHit>>,
        ages: &Ages,
        limit: usize,
    ) -> (out: Vec<MemoryItem>)
        requires
            ages.wf(item_views(entries@)),
            match reached {
                Some(hits) => forall|i: int|
                    0 <= i < hits@.len() ==> (#[trigger] hits@[i]).hop <= i64::MAX,
                None => true,
            },
        ensures
            item_views(out@) == (match reached {
                Some(hits) => hinted(
                    item_views(entries@),
                    graph_items(item_views(entries@), hit_views(hits@)),
                    *ages,
                ),
                None => keyword_search(item_views(entries@), query@, limit as int),
            }),
    {
        match reached {
            Some(hits) => hint_results(entries, &attach_graph_hits(entries, hits), ages),
            None => search_keyword(entries, query, limit),
        }
    }
}

/// The memory with the hint that it is old, where there is one.
pub open spec fn with_staleness(m: ItemView, hint: Option<Seq<char>>) -> ItemView {
    match hint {
        Some(h) => ItemView { metadata: m.metadata.insert("staleness"@, MetaView::Text(h)), ..m },
        None => m,
    }
}

/// Adds to the memories the hints that they are old.
pub fn inject_staleness(items: &[MemoryItem], hints: &Vec<Option<String>>) -> (out: Vec<MemoryItem>)
    requires
        hints@.len() == items@.len(),
    ensures
        out@.len() == items@.len(),
        forall|i: int|
            0 <= i < out@.len() ==> (#[trigger] out@[i])@ == with_staleness(
                items@[i]@,
                opt_text(hints@[i]),
            ),
{
    let mut out: Vec<MemoryItem> = Vec::new();
    let mut i: usize = 0;
    while i < items.len()
        invariant
            i <= items@.len(),
            hints@.len() == items@.len(),
            out@.len() == i,
            forall|k: int|
                0 <= k < i ==> (#[trigger] out@[k])@ == with_staleness(items@[k]@, opt_text(hints@[k])),
        decreases items@.len() - i,
    {
        let mut m = items[i].clone();
        if let Some(h) = &hints[i] {
            m.metadata.insert("staleness", MetaValue::Text(h.clone()));
        }
        out.push(m);
        i += 1;
    }
    out
}

/// What a search knows from outside of the memories that it looks at.
#[derive(Debug)]
pub struct Outside {
    pub found: Found,
    /// What the graph reaches; `None` where there is no graph.
    pub reached: Option<Vec<RelationalHit>>,
    pub ages: Ages,
}

impl Outside {
    /// The ages are those of the memories, and no distance is out of range.
    pub open spec fn wf(self, entries: Seq<ItemView>) -> bool {
        &&& self.ages.wf(entries)
        &&& match self.reached {
            Some(hits) => forall|i: int| 0 <= i < hits@.len() ==> (#[trigger] hits@[i]).hop <= i64::MAX,
            None => true,
        }
    }
}

/// What each way finds among the memories.
pub open spec fn strategy_search(
    strategy: RetrievalStrategy,
    entries: Seq<ItemView>,
    query: Seq<char>,
    outside: Outside,
    limit: int,
) -> Seq<ItemView> {
    match strategy {
        RetrievalStrategy::Auto => auto_search(entries, query, outside.found, outside.ages, limit),
        RetrievalStrategy::Keyword => keyword_search(entries, query, limit),
        RetrievalStrategy::Vector => vector_search(entries, query, outside.found.hits@, outside.ages, limit),
        RetrievalStrategy::Hybrid => aged_results(entries, hybrid_rank(entries, query, limit), outside.ages),
        RetrievalStrategy::Graph => match outside.reached {
            Some(hits) => hinted(entries, graph_items(entries, hit_views(hits@)), outside.ages),
            None => keyword_search(entries, query, limit),
        },
    }
}

/// One of the ways.
pub enum AnyStrategy {
    Auto(AutoStrategy),
    Keyword(KeywordStrategy),
    Vector(VectorStrategy),
    Hybrid(HybridStrategy),
    Graph(GraphStrategy),
}

/// The name of the way for a strategy.
pub open spec fn strategy_name(s: RetrievalStrategy) -> Seq<char> {
    match s {
        RetrievalStrategy::Auto => "auto"@,
        RetrievalStrategy::Keyword => "keyword"@,
        RetrievalStrategy::Vector => "vector"@,
        RetrievalStrategy::Hybrid => "hybrid"@,
        RetrievalStrategy::Graph => "graph"@,
    }
}

impl AnyStrategy {
    /// The strategy that the way is for.
    pub open spec fn kind(&self) -> RetrievalStrategy {
        match self {
            AnyStrategy::Auto(_) => RetrievalStrategy::Auto,
            AnyStrategy::Keyword(_) => RetrievalStrategy::Keyword,
            AnyStrategy::Vector(_) => RetrievalStrategy::Vector,
            AnyStrategy::Hybrid(_) => RetrievalStrategy::Hybrid,
            AnyStrategy::Graph(_) => RetrievalStrategy::Graph,
        }
    }

    pub fn name(&self) -> (r: &'static str)
        ensures
            r@ == strategy_name(self.kind()),
    {
        match self {
            AnyStrategy::Auto(s) => s.name(),
            AnyStrategy::Keyword(s) => s.name(),
            AnyStrategy::Vector(s) => s.name(),
            AnyStrategy::Hybrid(s) => s.name(),
            AnyStrategy::Graph(s) => s.name(),
        }
    }

    /// What the way finds among the memories.
    pub fn search(&self, entries: &[MemoryItem], query: &str, outside: &Outside, limit: usize) -> (out: Vec<
        MemoryItem,
    >)
        requires
            outside.wf(item_views(entries@)),
        ensures
            item_views(out@) == strategy_search(
                self.kind(),
                item_views(entries@),
                query@,
                *outside,
                limit as int,
            ),
    {
        match self {
            AnyStrategy::Auto(s) => s.search(entries, query, &outside.found, &outside.ages, limit),
            AnyStrategy::Keyword(s) => s.search(entries, query, limit),
            AnyStrategy::Vector(s) => s.search(entries, query, &outside.found.hits, &outside.ages, limit),
            AnyStrategy::Hybrid(s) => s.search(entries, query, &outside.ages, limit),
            AnyStrategy::Graph(s) => s.search(entries, query, outside.reached.as_ref(), &outside.ages, limit),
        }
    }
}

/// The way for a strategy.
pub fn create_strategy(strategy: &RetrievalStrategy) -> (r: AnyStrategy)
    ensures
        r.kind() == *strategy,
{
    match strategy {
        RetrievalStrategy::Auto => AnyStrategy::Auto(AutoStrategy),
        RetrievalStrategy::Keyword => AnyStrategy::Keyword(KeywordStrategy),
        RetrievalStrategy::Vector => AnyStrategy::Vector(VectorStrategy),
        RetrievalStrategy::Hybrid => AnyStrategy::Hybrid(HybridStrategy),
        RetrievalStrategy::Graph => AnyStrategy::Graph(GraphStrategy),
    }
}

} // verus!
