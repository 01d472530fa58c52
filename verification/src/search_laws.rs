//! What holds of every search: it gives only memories that it looks at, no archived one
//! among them, and no content twice.

use crate::rank::{order_of, order_sorts, ranked};
use crate::relational_recall::{graph_items, hit_views, HitView};
use crate::retriever::listed;
use crate::search::{any_score, is_searchable, observer_keys, penalized};
use crate::select::filter_from;
use crate::store::{content_key, distinct_contents, observed, searchable};
use crate::strategy::{aged_items, aged_key, aged_results, fit_keys, hinted, hybrid_rank, keyword_search, known_hits,
    lemma_last_with_id, strategy_search, vector_rank, vector_search, word_keys, word_matches, Ages, Outside,
    VectorHit};
use crate::types::{item_views, ItemView, RetrievalStrategy};
use vstd::prelude::*;

verus! {

/// Each of the results is one of the memories.
pub open spec fn taken_from(r: Seq<ItemView>, s: Seq<ItemView>) -> bool {
    forall|i: int| 0 <= i < r.len() ==> listed(s, (#[trigger] r[i]).id)
}

proof fn lemma_self(s: Seq<ItemView>)
    ensures
        taken_from(s, s),
{
    assert forall|i: int| 0 <= i < s.len() implies listed(s, (#[trigger] s[i]).id) by {}
}

proof fn lemma_ranked(items: Seq<ItemView>, keys: Seq<i128>, limit: int, s: Seq<ItemView>)
    requires
        0 <= limit,
        items.len() == keys.len(),
        taken_from(items, s),
    ensures
        taken_from(ranked(items, keys, limit), s),
{
    order_sorts(keys);
    let r = ranked(items, keys, limit);
    assert forall|i: int| 0 <= i < r.len() implies listed(s, (#[trigger] r[i]).id) by {
        let p = order_of(keys)[i];
        assert(r[i] == items[p]);
    }
}

proof fn lemma_aged(entries: Seq<ItemView>, items: Seq<ItemView>, ages: Ages, s: Seq<ItemView>)
    requires
        taken_from(items, s),
    ensures
        taken_from(aged_results(entries, items, ages), s),
        aged_results(entries, items, ages).len() == items.len(),
{
    let factors = items.map_values(
        |m: ItemView| crate::strategy::factor_at(entries, ages.factors@, m.timestamp),
    );
    let noted = aged_items(items, factors, ages.now);
    assert forall|i: int| 0 <= i < noted.len() implies listed(s, (#[trigger] noted[i]).id) by {
        assert(noted[i].id == items[i].id);
    }
    let keys = noted.map_values(|m: ItemView| aged_key(m));
    order_sorts(keys);
    lemma_ranked(noted, keys, noted.len() as int, s);
}

proof fn lemma_keyword(entries: Seq<ItemView>, query: Seq<char>, limit: int)
    requires
        0 <= limit,
    ensures
        taken_from(keyword_search(entries, query, limit), entries),
{
    lemma_self(entries);
    let found = word_matches(entries, query);
    let test = |m: ItemView| crate::strategy::query_hits(m, query, true) > 0;
    assert forall|i: int| 0 <= i < found.len() implies listed(entries, (#[trigger] found[i]).id) by {
        filter_from(entries, test, i);
        let j = entries.index_of(found[i]);
        assert(entries[j].id == found[i].id);
    }
    if found.len() > 0 {
        lemma_ranked(found, word_keys(found, query), limit, entries);
    }
}

proof fn lemma_hybrid(entries: Seq<ItemView>, query: Seq<char>, limit: int)
    requires
        0 <= limit,
    ensures
        taken_from(hybrid_rank(entries, query, limit), entries),
{
    lemma_self(entries);
    let best = ranked(entries, fit_keys(entries, query, true), limit);
    lemma_ranked(entries, fit_keys(entries, query, true), limit, entries);
    let r = hybrid_rank(entries, query, limit);
    assert forall|i: int| 0 <= i < r.len() implies listed(entries, (#[trigger] r[i]).id) by {
        assert(r[i].id == best[i].id);
    }
}

proof fn lemma_known(entries: Seq<ItemView>, hits: Seq<VectorHit>, query: Seq<char>)
    ensures
        taken_from(known_hits(entries, hits, query).map_values(|p: (ItemView, i128)| p.0), entries),
    decreases hits.len(),
{
    if hits.len() > 0 {
        let rest = known_hits(entries, hits.drop_last(), query);
        lemma_known(entries, hits.drop_last(), query);
        let h = hits.last();
        lemma_last_with_id(entries, h.memory_id@);
        let all = known_hits(entries, hits, query);
        let part = |p: (ItemView, i128)| p.0;
        let r = all.map_values(part);
        assert forall|i: int| 0 <= i < r.len() implies listed(entries, (#[trigger] r[i]).id) by {
            if i < rest.len() {
                assert(r[i] == rest.map_values(part)[i]);
            }
        }
    }
}

proof fn lemma_vector(entries: Seq<ItemView>, query: Seq<char>, hits: Seq<VectorHit>, ages: Ages, limit: int)
    requires
        0 <= limit,
    ensures
        taken_from(vector_search(entries, query, hits, ages, limit), entries),
{
    lemma_self(entries);
    if hits.len() == 0 {
        lemma_ranked(entries, fit_keys(entries, query, false), limit, entries);
    } else {
        let known = known_hits(entries, hits, query);
        lemma_known(entries, hits, query);
        lemma_ranked(
            known.map_values(|p: (ItemView, i128)| p.0),
            known.map_values(|p: (ItemView, i128)| p.1),
            limit,
            entries,
        );
        lemma_aged(entries, vector_rank(entries, hits, query, limit), ages, entries);
    }
}

proof fn lemma_hinted(entries: Seq<ItemView>, items: Seq<ItemView>, ages: Ages, s: Seq<ItemView>)
    requires
        taken_from(items, s),
    ensures
        taken_from(hinted(entries, items, ages), s),
{
    let r = hinted(entries, items, ages);
    assert forall|i: int| 0 <= i < r.len() implies listed(s, (#[trigger] r[i]).id) by {
        assert(r[i].id == items[i].id);
    }
}

proof fn lemma_graph(entries: Seq<ItemView>, hits: Seq<HitView>)
    ensures
        taken_from(graph_items(entries, hits), entries),
    decreases hits.len(),
{
    if hits.len() > 0 {
        let rest = graph_items(entries, hits.drop_last());
        lemma_graph(entries, hits.drop_last());
        lemma_last_with_id(entries, hits.last().memory_id);
        let r = graph_items(entries, hits);
        assert forall|i: int| 0 <= i < r.len() implies listed(entries, (#[trigger] r[i]).id) by {
            if i < rest.len() {
                assert(r[i] == rest[i]);
            }
        }
    }
}

/// Every strategy gives memories that it looks at, provided that the fused results are such
/// memories.
pub proof fn strategies_give_what_they_look_at(
    strategy: RetrievalStrategy,
    entries: Seq<ItemView>,
    query: Seq<char>,
    outside: Outside,
    limit: int,
)
    requires
        0 <= limit,
        taken_from(item_views(outside.found.fused@), entries),
    ensures
        taken_from(strategy_search(strategy, entries, query, outside, limit), entries),
{
    lemma_keyword(entries, query, limit);
    lemma_hybrid(entries, query, limit);
    lemma_aged(entries, hybrid_rank(entries, query, limit), outside.ages, entries);
    lemma_vector(entries, query, outside.found.hits@, outside.ages, limit);
    let fused = item_views(outside.found.fused@);
    lemma_hinted(entries, fused, outside.ages, entries);
    lemma_aged(entries, hinted(entries, fused, outside.ages), outside.ages, entries);
    match outside.reached {
        Some(hits) => {
            lemma_graph(entries, hit_views(hits@));
            lemma_hinted(entries, graph_items(entries, hit_views(hits@)), outside.ages, entries);
        },
        None => {},
    }
}

proof fn lemma_penalized(items: Seq<ItemView>, s: Seq<ItemView>)
    requires
        taken_from(items, s),
    ensures
        taken_from(penalized(items), s),
{
    if any_score(items) {
        lemma_ranked(items, observer_keys(items), items.len() as int, s);
    } else {
        let first = |m: ItemView| !observed(m.metadata);
        let second = |m: ItemView| observed(m.metadata);
        let a = items.filter(first);
        let b = items.filter(second);
        let r = penalized(items);
        assert(r == a + b);
        assert forall|i: int| 0 <= i < r.len() implies listed(s, (#[trigger] r[i]).id) by {
            if i < a.len() {
                filter_from(items, first, i);
                assert(items[items.index_of(a[i])] == r[i]);
            } else {
                filter_from(items, second, i - a.len());
                assert(items[items.index_of(b[i - a.len()])] == r[i]);
            }
        }
    }
}

/// No two of the memories say the same, and what one of the others says, one of them says.
pub proof fn each_content_is_given_once(s: Seq<ItemView>)
    ensures
        forall|i: int| 0 <= i < distinct_contents(s).len() ==> s.contains(#[trigger] distinct_contents(s)[i]),
        forall|i: int, j: int|
            0 <= i < j < distinct_contents(s).len() ==> content_key(#[trigger] distinct_contents(s)[i])
                != content_key(#[trigger] distinct_contents(s)[j]),
        forall|k: int|
            0 <= k < s.len() ==> exists|i: int|
                0 <= i < distinct_contents(s).len() && content_key(#[trigger] distinct_contents(s)[i])
                    == content_key(#[trigger] s[k]),
    decreases s.len(),
{
    if s.len() > 0 {
        let d = s.drop_last();
        each_content_is_given_once(d);
        let rest = distinct_contents(d);
        let r = distinct_contents(s);
        let again = exists|j: int| 0 <= j < s.len() - 1 && content_key(#[trigger] s[j]) == content_key(s.last());
        assert forall|i: int| 0 <= i < r.len() implies s.contains(#[trigger] r[i]) by {
            if i < rest.len() {
                assert(d.contains(rest[i]));
                let j = d.index_of(rest[i]);
                assert(s[j] == rest[i]);
            } else {
                assert(s[s.len() - 1] == r[i]);
            }
        }
        assert forall|i: int, j: int| 0 <= i < j < r.len() implies content_key(#[trigger] r[i]) != content_key(
            #[trigger] r[j],
        ) by {
            assert(r[i] == rest[i]);
            if j < rest.len() {
                assert(r[j] == rest[j]);
            } else {
                assert(d.contains(rest[i]));
                let k = d.index_of(rest[i]);
                assert(s[k] == rest[i]);
            }
        }
        assert forall|k: int| 0 <= k < s.len() implies exists|i: int|
            0 <= i < r.len() && content_key(#[trigger] r[i]) == content_key(#[trigger] s[k]) by {
            let x = if k < d.len() {
                k
            } else if again {
                choose|j: int| 0 <= j < s.len() - 1 && content_key(#[trigger] s[j]) == content_key(s.last())
            } else {
                k
            };
            if x < d.len() {
                assert(d[x] == s[x]);
                let i = choose|i: int|
                    0 <= i < rest.len() && content_key(#[trigger] rest[i]) == content_key(d[x]);
                assert(r[i] == rest[i]);
            } else {
                assert(r[rest.len() as int] == s[k]);
            }
        }
    }
}

/// A search gives no archived memory: each result is one of the memories that are not
/// archived or for which a summary stands.
pub proof fn archived_memories_are_not_found(
    all: Seq<ItemView>,
    strategy: RetrievalStrategy,
    query: Seq<char>,
    outside: Outside,
    limit: int,
    i: int,
)
    requires
        0 <= limit,
        taken_from(item_views(outside.found.fused@), all.filter(is_searchable())),
        0 <= i < distinct_contents(
            penalized(strategy_search(strategy, all.filter(is_searchable()), query, outside, limit)),
        ).len(),
    ensures
        exists|j: int|
            0 <= j < all.len() && searchable(#[trigger] all[j]) && all[j].id == distinct_contents(
                penalized(strategy_search(strategy, all.filter(is_searchable()), query, outside, limit)),
            )[i].id,
{
    let live = all.filter(is_searchable());
    let found = strategy_search(strategy, live, query, outside, limit);
    strategies_give_what_they_look_at(strategy, live, query, outside, limit);
    lemma_penalized(found, live);
    let p = penalized(found);
    each_content_is_given_once(p);
    let r = distinct_contents(p);
    let at = p.index_of(r[i]);
    assert(p.contains(r[i]));
    assert(listed(live, p[at].id));
    let k = choose|k: int| 0 <= k < live.len() && (#[trigger] live[k]).id == r[i].id;
    filter_from(all, is_searchable(), k);
    let j = all.index_of(live[k]);
    assert(all[j] == live[k]);
    assert(searchable(all[j]));
}

} // verus!
