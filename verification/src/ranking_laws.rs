//! What the steps after a search promise: stepping back, stepping up, reranking, filtering and
//! refining, and what the graph adds.

use crate::rank::{order_of, order_sorts, ranked, ranking_gives_the_best};
use crate::precision_filter::{allowed, bonus_of, has_a_keyword, has_keyword, passing, stage_wins, weight_keys,
    PrecisionFilterCriteria, ScopeView};
use crate::refiner::{chosen_flags, first_with_id, long_tokens, picked, prefilter_keys, prefiltered, refined,
    words_in};
use crate::relational_recall::{common_hits, company_relations, entity_hits, feeling_relations, first_hits, graph_items,
    hop_keys, last_named, nearest_hits, one_if, seen_before, single_hits, social_relations, EntityMention, FanoutResult,
    HitView, RelationType};
use crate::reranker::{highest, lowest, placed};
use crate::retention_laws::ids_differ;
use crate::retriever::{meets, MemoryRetrievalFilter};
use crate::search::{any_leading, any_score, at_positions, boosted, cache_place, cached, episode_keys,
    given_score, observer_keys, oldest, penalized, reranked, rescored, rescored_head, score_keys, search_key,
    wide_limit, with_results, CacheView};
use crate::select::{filter_from, filter_has, kept, kept_from, kept_has};
use crate::strategy::{last_with_id, lemma_last_with_id};
use crate::text::{byte_len, has_any, has_sub, lowercase, texts, trim};
use crate::types::{list_at, micros_at, text_at, ItemView, MetaView, RetrievalStrategy};
use vstd::prelude::*;
use vstd::string::*;

verus! {

// ---------------------------------------------------------------------------
// Stepping back and up
// ---------------------------------------------------------------------------

/// The score that a search noted: the fused one, else the combined one, else nothing.
pub open spec fn noted_score(m: ItemView) -> int {
    let s = if m.metadata.contains_key("fused_score"@) {
        micros_at(m.metadata, "fused_score"@)
    } else {
        micros_at(m.metadata, "combined_score"@)
    };
    match s {
        Some(x) => x as int,
        None => 0,
    }
}

proof fn lemma_given(m: ItemView)
    ensures
        given_score(m) == noted_score(m),
        -10_000_000_000_000_000_000_000_000 <= given_score(m) <= 10_000_000_000_000_000_000_000_000,
{
}

/// Where there are scores, what was only watched counts half of its score, and what counts more
/// comes first; all memories are kept.
pub proof fn watched_memories_count_half(s: Seq<ItemView>)
    requires
        any_score(s),
    ensures
        ({
            let r = penalized(s);
            &&& r.len() == s.len()
            &&& forall|k: int| 0 <= k < s.len() ==> r.contains(#[trigger] s[k])
            &&& forall|i: int, j: int|
                0 <= i < j < r.len() ==> noted_score(#[trigger] r[i]) * (if text_at(
                    r[i].metadata,
                    "perspective"@,
                ) == Some("observer"@) {
                    1int
                } else {
                    2
                }) >= noted_score(#[trigger] r[j]) * (if text_at(r[j].metadata, "perspective"@) == Some(
                    "observer"@,
                ) {
                    1int
                } else {
                    2
                })
        }),
{
    let worth = |m: ItemView|
        noted_score(m) * (if text_at(m.metadata, "perspective"@) == Some("observer"@) {
            1int
        } else {
            2
        });
    let keys = observer_keys(s);
    assert forall|i: int| 0 <= i < s.len() implies #[trigger] keys[i] == worth(s[i]) by {
        lemma_given(s[i]);
    }
    ranking_gives_the_best(s, keys, s.len() as int, worth);
    let r = penalized(s);
    assert forall|i: int, j: int| 0 <= i < j < r.len() implies noted_score(#[trigger] r[i]) * (if text_at(
        r[i].metadata,
        "perspective"@,
    ) == Some("observer"@) {
        1int
    } else {
        2
    }) >= noted_score(#[trigger] r[j]) * (if text_at(r[j].metadata, "perspective"@) == Some("observer"@) {
        1int
    } else {
        2
    }) by {
        assert(worth(r[i]) >= worth(r[j]));
    }
}

/// What a result counts when episodes lead: a fifth more where it stands behind the first three
/// and is of the same episode as one of them; counted in fifths.
pub open spec fn episode_worth(s: Seq<ItemView>, i: int) -> int {
    noted_score(s[i]) * (if i >= 3 && s[i].episode_id is Some && exists|k: int|
        0 <= k < 3 && k < s.len() && (#[trigger] s[k]).episode_id == s[i].episode_id {
        6
    } else {
        5int
    })
}

/// The other memories of the episodes that lead count a fifth more, and what counts more comes
/// first, where there are scores.
pub proof fn companions_of_the_leading_step_up(s: Seq<ItemView>, i: int, j: int, a: int, b: int)
    requires
        ids_differ(s),
        any_score(s),
        exists|k: int| 0 <= k < 3 && k < s.len() && (#[trigger] s[k]).episode_id is Some,
        s.len() > 1,
        0 <= i < s.len(),
        0 <= j < s.len(),
        0 <= a < boosted(s).len(),
        0 <= b < boosted(s).len(),
        boosted(s)[a] == s[i],
        boosted(s)[b] == s[j],
        episode_worth(s, i) > episode_worth(s, j),
    ensures
        a < b,
        boosted(s).len() == s.len(),
{
    let keys = episode_keys(s);
    order_sorts(keys);
    let p = order_of(keys);
    assert(any_leading(s));
    assert(boosted(s)[a] == s[p[a]] && boosted(s)[b] == s[p[b]]);
    lemma_same_place(s, p[a], i);
    lemma_same_place(s, p[b], j);
    lemma_given(s[i]);
    lemma_given(s[j]);
    assert(keys[i] == episode_worth(s, i));
    assert(keys[j] == episode_worth(s, j));
    if b < a {
        assert(crate::rank::before(keys, p[b], p[a]));
    }
}

proof fn lemma_same_place(s: Seq<ItemView>, a: int, b: int)
    requires
        ids_differ(s),
        0 <= a < s.len(),
        0 <= b < s.len(),
        s[a].id == s[b].id,
    ensures
        a == b,
{
    if a < b {
        assert(s[a].id != s[b].id);
    } else if b < a {
        assert(s[b].id != s[a].id);
    }
}

// ---------------------------------------------------------------------------
// Kept results
// ---------------------------------------------------------------------------

proof fn lemma_place(s: Seq<CacheView>, key: Seq<char>)
    ensures
        0 <= cache_place(s, key) <= s.len(),
        forall|j: int| 0 <= j < cache_place(s, key) ==> (#[trigger] s[j]).key != key,
        cache_place(s, key) < s.len() ==> s[cache_place(s, key)].key == key,
    decreases s.len(),
{
    if s.len() > 0 && s[0].key != key {
        lemma_place(s.skip(1), key);
        let i = cache_place(s, key);
        assert forall|j: int| 0 <= j < i implies (#[trigger] s[j]).key != key by {
            if j > 0 {
                assert(s.skip(1)[j - 1] == s[j]);
            }
        }
        if i < s.len() {
            assert(s.skip(1)[i - 1] == s[i]);
        }
    }
}

/// Results are given again only for the very key under which they were kept, and only within
/// five seconds.
pub proof fn kept_results_are_young(s: Seq<CacheView>, key: Seq<char>, now: i64)
    ensures
        cached(s, key, now) matches Some(r) ==> exists|i: int|
            0 <= i < s.len() && (#[trigger] s[i]).key == key && s[i].results == r && now < s[i].time + 5_000,
{
    lemma_place(s, key);
    let i = cache_place(s, key);
    if i < s.len() {
        assert(s[i].key == key);
    }
}

proof fn lemma_oldest(s: Seq<CacheView>, n: nat)
    requires
        0 < n <= s.len(),
    ensures
        0 <= oldest(s, n) < n,
        forall|k: int| 0 <= k < n ==> s[oldest(s, n)].time <= (#[trigger] s[k]).time,
    decreases n,
{
    if n > 1 {
        lemma_oldest(s, (n - 1) as nat);
    }
}

/// Keeping new results leaves those under other keys where there are less than sixteen; else one
/// goes, and none that stays is older.
pub proof fn oldest_results_go(s: Seq<CacheView>, e: CacheView, i: int)
    requires
        0 <= i < s.len(),
        s[i].key != e.key,
    ensures
        s.len() < 16 ==> with_results(s, e).contains(s[i]),
        !with_results(s, e).contains(s[i]) ==> forall|k: int|
            0 <= k < s.len() ==> s[i].time <= (#[trigger] s[k]).time,
        with_results(s, e).contains(e),
{
    let t = if s.len() >= 16 {
        s.remove(oldest(s, s.len()))
    } else {
        s
    };
    lemma_oldest(s, s.len());
    let o = oldest(s, s.len());
    lemma_place(t, e.key);
    let at = cache_place(t, e.key);
    let r = with_results(s, e);
    if at < t.len() {
        assert(r[at] == e);
    } else {
        assert(r[t.len() as int] == e);
    }
    if s.len() < 16 || i != o {
        let k = if s.len() < 16 || i < o {
            i
        } else {
            i - 1
        };
        assert(t[k] == s[i]);
        assert(r[k] == s[i]);
    }
}

/// A search has the same key whatever the case and the white space around what is looked for.
pub proof fn key_ignores_case_and_space(
    a: Seq<char>,
    b: Seq<char>,
    strategy: RetrievalStrategy,
    limit: usize,
    model: Seq<char>,
    dimension: usize,
)
    requires
        lowercase(trim(a)) == lowercase(trim(b)),
    ensures
        search_key(a, strategy, limit, model, dimension) == search_key(b, strategy, limit, model, dimension),
{
}

/// Searches by different strategies never share a key where nothing else differs.
pub proof fn key_tells_strategies_apart(
    query: Seq<char>,
    a: RetrievalStrategy,
    b: RetrievalStrategy,
    limit: usize,
    model: Seq<char>,
    dimension: usize,
)
    requires
        a != b,
    ensures
        search_key(query, a, limit, model, dimension) != search_key(query, b, limit, model, dimension),
{
    reveal_strlit("Auto");
    reveal_strlit("Keyword");
    reveal_strlit("Vector");
    reveal_strlit("Hybrid");
    reveal_strlit("Graph");
    reveal_strlit("|");
    let q = lowercase(trim(query));
    let x = search_key(query, a, limit, model, dimension);
    let y = search_key(query, b, limit, model, dimension);
    let n = q.len() as int + 1;
    assert("|"@.len() == 1);
    let s = crate::search::strategy_label(a);
    let t = crate::search::strategy_label(b);
    assert(x[n] == s[0] && y[n] == t[0]);
    assert(s[0] != t[0]);
}

/// Three times as much is looked for as is wanted, and ten at least.
pub proof fn more_is_looked_for_than_wanted(limit: int)
    requires
        0 <= limit,
    ensures
        wide_limit(limit) >= 3 * limit,
        wide_limit(limit) >= 10,
        wide_limit(limit) == 3 * limit || wide_limit(limit) == 10,
{
}

/// What a verifier lets through are the candidates at the positions it names.
pub proof fn verified_candidates_stay(s: Seq<ItemView>, positions: Seq<usize>, k: int)
    requires
        0 <= k < positions.len(),
    ensures
        positions[k] < s.len() ==> at_positions(s, positions).contains(s[positions[k] as int]),
        at_positions(s, positions).len() <= positions.len(),
    decreases positions.len(),
{
    let d = positions.drop_last();
    let rest = at_positions(s, d);
    let all = at_positions(s, positions);
    lemma_at_positions(s, d);
    if k < d.len() {
        verified_candidates_stay(s, d, k);
        if positions[k] < s.len() {
            let x = s[positions[k] as int];
            assert(all[rest.index_of(x)] == x);
        }
    } else if positions[k] < s.len() {
        assert(all[rest.len() as int] == s[positions[k] as int]);
    }
}

proof fn lemma_at_positions(s: Seq<ItemView>, positions: Seq<usize>)
    ensures
        at_positions(s, positions).len() <= positions.len(),
    decreases positions.len(),
{
    if positions.len() > 0 {
        lemma_at_positions(s, positions.drop_last());
    }
}

/// After a reranker those that it saw come by its scores, largest first, each with its own score
/// noted; the others follow as they stood.
pub proof fn reranked_candidates_come_by_score(s: Seq<ItemView>, top_k: int, scores: Seq<i64>, name: Seq<char>)
    requires
        1 <= top_k,
        scores.len() == (if top_k < s.len() {
            top_k
        } else {
            s.len() as int
        }),
    ensures
        ({
            let r = reranked(s, top_k, scores, name);
            let h = scores.len() as int;
            &&& r.len() == s.len()
            &&& forall|i: int| h <= i < r.len() ==> #[trigger] r[i] == s[i]
            &&& forall|i: int|
                0 <= i < h ==> exists|k: int|
                    0 <= k < h && (#[trigger] r[i]).id == (#[trigger] s[k]).id && r[i].content == s[k].content
                        && r[i].metadata["rerank_score"@] == MetaView::Micros(scores[k])
            &&& forall|i: int, j: int|
                0 <= i < j < h ==> (#[trigger] r[i]).metadata["rerank_score"@]->Micros_0 >= (
                #[trigger] r[j]).metadata["rerank_score"@]->Micros_0
        }),
{
    reveal_strlit("rerank_score");
    reveal_strlit("reranker");
    assert("rerank_score"@.len() == 12 && "reranker"@.len() == 8);
    let head = rescored_head(s, top_k, scores, name);
    let keys = score_keys(scores, head.len() as int);
    let worth = |m: ItemView| m.metadata["rerank_score"@]->Micros_0 as int;
    assert(head.len() == scores.len());
    assert forall|i: int| 0 <= i < head.len() implies #[trigger] keys[i] == worth(head[i]) by {
        assert(head[i] == rescored(s[i], scores[i], name));
    }
    ranking_gives_the_best(head, keys, head.len() as int, worth);
    let sorted = ranked(head, keys, head.len() as int);
    let r = reranked(s, top_k, scores, name);
    let h = scores.len() as int;
    assert(r == sorted + s.skip(h));
    assert forall|i: int| h <= i < r.len() implies #[trigger] r[i] == s[i] by {}
    assert forall|i: int| 0 <= i < h implies exists|k: int|
        0 <= k < h && (#[trigger] r[i]).id == (#[trigger] s[k]).id && r[i].content == s[k].content
            && r[i].metadata["rerank_score"@] == MetaView::Micros(scores[k]) by {
        assert(r[i] == sorted[i]);
        let k = head.index_of(sorted[i]);
        assert(head[k] == rescored(s[k], scores[k], name));
        assert(r[i].id == s[k].id);
    }
    assert forall|i: int, j: int| 0 <= i < j < h implies (#[trigger] r[i]).metadata[
    "rerank_score"@]->Micros_0 >= (#[trigger] r[j]).metadata["rerank_score"@]->Micros_0 by {
        assert(r[i] == sorted[i] && r[j] == sorted[j]);
        assert(worth(sorted[i]) >= worth(sorted[j]));
    }
}

/// The lowest and the highest of scores are scores, and all others lie between them.
pub proof fn scores_lie_between_their_bounds(s: Seq<i64>, i: int)
    requires
        0 <= i < s.len(),
    ensures
        lowest(s) <= s[i] <= highest(s),
        s.contains(lowest(s)),
        s.contains(highest(s)),
    decreases s.len(),
{
    if s.len() > 1 {
        let d = s.drop_last();
        scores_lie_between_their_bounds(
            d,
            if i < d.len() {
                i
            } else {
                0
            },
        );
        assert(s[s.len() - 1] == s.last());
        assert(s[d.index_of(lowest(d))] == lowest(d));
        assert(s[d.index_of(highest(d))] == highest(d));
        if i < d.len() {
            assert(d[i] == s[i]);
        }
    } else {
        assert(s[0] == s[i]);
    }
}

/// The score of a position is the last that the model gave for it, and nothing where it gave
/// none.
pub proof fn scores_go_to_their_places(results: Seq<(u64, i64)>, pos: int, k: int)
    requires
        0 <= k <= results.len(),
        k < results.len() ==> results[k].0 == pos,
        forall|i: int| k < i < results.len() ==> (#[trigger] results[i]).0 != pos,
        k == results.len() ==> forall|i: int| 0 <= i < results.len() ==> (#[trigger] results[i]).0 != pos,
    ensures
        placed(results, pos) == (if k < results.len() {
            results[k].1
        } else {
            0
        }),
    decreases results.len(),
{
    if results.len() > 0 {
        let d = results.drop_last();
        if k < results.len() - 1 {
            assert(results[results.len() - 1].0 != pos);
            assert forall|i: int| k < i < d.len() implies (#[trigger] d[i]).0 != pos by {
                assert(results[i].0 != pos);
            }
            scores_go_to_their_places(d, pos, k);
        } else if k == results.len() {
            assert(results[results.len() - 1].0 != pos);
            assert forall|i: int| 0 <= i < d.len() implies (#[trigger] d[i]).0 != pos by {
                assert(results[i].0 != pos);
            }
            scores_go_to_their_places(d, pos, d.len() as int);
        }
    }
}

// ---------------------------------------------------------------------------
// Refining
// ---------------------------------------------------------------------------

/// What a candidate is worth before a model is asked, in ten-millionths: one for each word of
/// more than one byte that stands in its content or a tag, whatever the case, and a tenth of
/// its importance.
pub open spec fn candidate_worth(m: ItemView, tokens: Seq<Seq<char>>) -> int {
    m.importance + 10_000_000 * tokens.filter(|t: Seq<char>| byte_len(t) > 1).filter(
        |t: Seq<char>|
            has_sub(lowercase(m.content), lowercase(t)) || exists|k: int|
                0 <= k < m.tags.len() && has_sub(lowercase(#[trigger] m.tags[k]), lowercase(t)),
    ).len()
}

proof fn lemma_words_in(m: ItemView, t: Seq<Seq<char>>, n: nat)
    requires
        n <= t.len(),
    ensures
        words_in(m, t, n) == t.take(n as int).filter(
            |t: Seq<char>|
                has_sub(lowercase(m.content), lowercase(t)) || exists|k: int|
                    0 <= k < m.tags.len() && has_sub(lowercase(#[trigger] m.tags[k]), lowercase(t)),
        ).len(),
        words_in(m, t, n) <= n,
    decreases n,
{
    reveal(Seq::filter);
    if n > 0 {
        lemma_words_in(m, t, (n - 1) as nat);
        assert(t.take(n as int).drop_last() =~= t.take(n - 1));
        assert(t.take(n as int).last() == t[n - 1]);
    }
}

/// Where there are more candidates than may be looked at, those that are worth the most stay,
/// best first.
pub proof fn worthiest_candidates_are_looked_at(items: Seq<ItemView>, tokens: Seq<Seq<char>>, top_k: int)
    requires
        0 <= top_k < items.len(),
        tokens.filter(|t: Seq<char>| byte_len(t) > 1).len() > 0,
        tokens.filter(|t: Seq<char>| byte_len(t) > 1).len() <= usize::MAX,
    ensures
        ({
            let r = prefiltered(items, tokens, top_k);
            &&& r.len() == top_k
            &&& forall|i: int, j: int|
                0 <= i < j < r.len() ==> candidate_worth(#[trigger] r[i], tokens) >= candidate_worth(
                    #[trigger] r[j],
                    tokens,
                )
            &&& forall|i: int| 0 <= i < r.len() ==> items.contains(#[trigger] r[i])
            &&& forall|i: int, k: int|
                0 <= i < r.len() && 0 <= k < items.len() && !r.contains(#[trigger] items[k])
                    ==> candidate_worth(#[trigger] r[i], tokens) >= candidate_worth(items[k], tokens)
        }),
{
    let t = long_tokens(tokens);
    let keys = prefilter_keys(items, t);
    let worth = |m: ItemView| candidate_worth(m, tokens);
    assert forall|i: int| 0 <= i < items.len() implies #[trigger] keys[i] == worth(items[i]) by {
        lemma_words_in(items[i], t, t.len());
        assert(t.take(t.len() as int) =~= t);
        assert(words_in(items[i], t, t.len()) * crate::refiner::WORD_HIT == 10_000_000 * words_in(
            items[i],
            t,
            t.len(),
        ));
    }
    ranking_gives_the_best(items, keys, top_k, worth);
    let r = prefiltered(items, tokens, top_k);
    assert(r == ranked(items, keys, top_k));
    assert forall|i: int, j: int| 0 <= i < j < r.len() implies candidate_worth(#[trigger] r[i], tokens)
        >= candidate_worth(#[trigger] r[j], tokens) by {
        assert(worth(r[i]) >= worth(r[j]));
    }
    assert forall|i: int, k: int|
        0 <= i < r.len() && 0 <= k < items.len() && !r.contains(#[trigger] items[k]) implies candidate_worth(
        #[trigger] r[i],
        tokens,
    ) >= candidate_worth(items[k], tokens) by {
        assert(worth(r[i]) >= worth(items[k]));
    }
}

/// What is left of the candidates are those that the model named among as many as are wanted,
/// and no other; the first ones where it named none of them; and all where they are few enough.
pub proof fn only_chosen_candidates_are_left(
    items: Seq<ItemView>,
    ids: Seq<Seq<char>>,
    target_n: int,
    x: ItemView,
)
    requires
        0 < target_n,
        ids_differ(items),
        exists|k: int, i: int|
            0 <= k < ids.len() && k < target_n && 0 <= i < items.len() && #[trigger] ids[k]
                == (#[trigger] items[i]).id,
    ensures
        items.len() > target_n ==> (refined(items, ids, target_n).contains(x) <==> items.contains(x)
            && exists|k: int| 0 <= k < ids.len() && k < target_n && #[trigger] ids[k] == x.id),
        items.len() <= target_n ==> refined(items, ids, target_n) == items,
{
    if items.len() > target_n {
        let n: nat = if target_n < ids.len() {
            target_n as nat
        } else {
            ids.len()
        };
        let flags = chosen_flags(items, ids, n);
        let p = picked(items, ids, n);
        let (k, i) = choose|k: int, i: int|
            0 <= k < ids.len() && k < target_n && 0 <= i < items.len() && #[trigger] ids[k]
                == (#[trigger] items[i]).id;
        lemma_flag(items, ids, n, i);
        assert(ids.take(n as int)[k] == items[i].id);
        kept_has(items, flags, i);
        assert(p.len() > 0);
        if p.contains(x) {
            let at = kept_from(items, flags, p.index_of(x));
            lemma_flag(items, ids, n, at);
            let m = ids.take(n as int).index_of(x.id);
            assert(ids[m] == x.id);
            assert(items.contains(x));
        }
        if items.contains(x) && exists|k: int| 0 <= k < ids.len() && k < target_n && #[trigger] ids[k] == x.id {
            let k = choose|k: int| 0 <= k < ids.len() && k < target_n && #[trigger] ids[k] == x.id;
            let at = items.index_of(x);
            lemma_flag(items, ids, n, at);
            assert(ids.take(n as int)[k] == items[at].id);
            kept_has(items, flags, at);
        }
    }
}

proof fn lemma_flag(items: Seq<ItemView>, ids: Seq<Seq<char>>, n: nat, i: int)
    requires
        ids_differ(items),
        0 <= i < items.len(),
        n <= ids.len(),
    ensures
        chosen_flags(items, ids, n)[i] == ids.take(n as int).contains(items[i].id),
{
    lemma_first_with(items, items[i].id, i);
}

proof fn lemma_first_with(items: Seq<ItemView>, id: Seq<char>, i: int)
    requires
        0 <= i < items.len(),
        items[i].id == id,
        forall|k: int| 0 <= k < items.len() && k != i ==> (#[trigger] items[k]).id != id,
    ensures
        first_with_id(items, id) == Some(i),
    decreases items.len(),
{
    if i > 0 {
        assert(items[0].id != id);
        let t = items.skip(1);
        assert forall|k: int| 0 <= k < t.len() && k != i - 1 implies (#[trigger] t[k]).id != id by {
            assert(t[k] == items[k + 1]);
        }
        lemma_first_with(t, id, i - 1);
    }
}

// ---------------------------------------------------------------------------
// Conditions
// ---------------------------------------------------------------------------

/// A filter lets a memory through when it meets each of the conditions: one of the types, one of
/// the tags, not before the one time, and before the other.
pub proof fn filter_asks_for_every_condition(f: MemoryRetrievalFilter, m: ItemView)
    ensures
        f.memory_types matches Some(t) ==> (t@.len() > 0 && !texts(t@).contains(m.memory_type) ==> !meets(f, m)),
        f.tags_any matches Some(t) ==> (t@.len() > 0 && (forall|x: Seq<char>|
            #[trigger] texts(t@).contains(x) ==> !m.tags.contains(x)) ==> !meets(f, m)),
        f.time_after matches Some(t) ==> (m.timestamp < t ==> !meets(f, m)),
        f.time_before matches Some(t) ==> (m.timestamp >= t ==> !meets(f, m)),
        (f.memory_types matches Some(t) ==> t@.len() == 0) && (f.tags_any matches Some(t) ==> t@.len() == 0)
            && (f.time_after matches Some(t) ==> t <= m.timestamp) && (f.time_before matches Some(t)
            ==> m.timestamp < t) ==> meets(f, m),
{
    if let Some(t) = f.tags_any {
        if t@.len() > 0 && meets(f, m) {
            let i = choose|i: int| 0 <= i < t@.len() && m.tags.contains(#[trigger] texts(t@)[i]);
            assert(texts(t@).contains(texts(t@)[i]));
        }
    }
}

/// The first stage lets through only what meets every condition; what does not meet the
/// conditions on entities, keywords, layers or time passes no stage but the last, and the last
/// lets everything through.
pub proof fn stages_drop_conditions_in_order(m: ItemView, c: PrecisionFilterCriteria)
    ensures
        allowed(4, m, c),
        c.importance_min matches Some(min) ==> (m.importance < min ==> !allowed(0, m, c)),
        c.time_hint matches Some(h) ==> (!has_sub(lowercase(m.content), lowercase(h@)) && text_at(
            m.metadata,
            "time_of_day"@,
        ) is None && text_at(m.metadata, "date_label"@) is None ==> !allowed(3, m, c)),
        c.entity_scope matches Some(s) ==> (s@ is WithUser && text_at(m.metadata, "knowledge_source"@) != Some(
            "direct"@,
        ) ==> !allowed(3, m, c)),
        c.entity_scope matches Some(s) ==> (s@ matches ScopeView::WithAgent(id) ==> (text_at(
            m.metadata,
            "speaker"@,
        ) != Some(id) && text_at(m.metadata, "listener"@) != Some(id) && id.len() > 0 ==> !allowed(3, m, c))),
        c.keywords@.len() > 0 && m.tags.len() == 0 && list_at(m.metadata, "keywords"@).len() == 0 && (
        forall|i: int|
            0 <= i < c.keywords@.len() ==> !has_sub(
                lowercase(m.content),
                lowercase(#[trigger] texts(c.keywords@)[i]),
            )) ==> !allowed(3, m, c),
        c.source_layers@.len() > 0 && !texts(c.source_layers@).contains(crate::types::layer_of(m.granularity))
            ==> !allowed(3, m, c),
{
    if c.keywords@.len() > 0 && m.tags.len() == 0 && list_at(m.metadata, "keywords"@).len() == 0 && (
    forall|i: int|
        0 <= i < c.keywords@.len() ==> !has_sub(
            lowercase(m.content),
            lowercase(#[trigger] texts(c.keywords@)[i]),
        )) {
        let k = texts(c.keywords@);
        if has_a_keyword(m, k) {
            let i = choose|i: int| 0 <= i < k.len() && has_keyword(m, #[trigger] k[i]);
            assert(!has_sub(lowercase(m.content), lowercase(texts(c.keywords@)[i])));
        }
    }
}

/// What passes the winning stage are memories of the list, each of which the stage lets through,
/// and all that it does; where the first stage lets enough through, it is the first.
pub proof fn first_stage_with_enough_wins(
    memories: Seq<ItemView>,
    c: PrecisionFilterCriteria,
    min_results: int,
    stage: int,
    x: ItemView,
)
    requires
        stage_wins(memories, c, min_results, stage),
    ensures
        passing(memories, stage, c).contains(x) <==> memories.contains(x) && allowed(stage, x, c),
        passing(memories, 0, c).len() >= min_results ==> stage == 0,
        stage < 4 ==> passing(memories, stage, c).len() >= min_results,
        0 <= stage <= 4,
{
    let test = |m: ItemView| allowed(stage, m, c);
    let r = passing(memories, stage, c);
    if r.contains(x) {
        filter_from(memories, test, r.index_of(x));
    }
    if memories.contains(x) && allowed(stage, x, c) {
        filter_has(memories, test, memories.index_of(x));
    }
    if stage > 0 {
        assert(passing(memories, 0, c).len() < min_results);
    }
}

/// Where there are too many memories those of most weight stay, heaviest first.
pub proof fn heaviest_memories_stay(items: Seq<ItemView>, weights: Seq<i64>, limit: int, b: int, i: int, j: int)
    requires
        ids_differ(items),
        weights.len() == items.len(),
        0 <= limit,
        0 <= i < items.len(),
        0 <= j < items.len(),
        weights[i] > weights[j],
        0 <= b < ranked(items, weight_keys(items, weights, None), limit).len(),
        ranked(items, weight_keys(items, weights, None), limit)[b] == items[j],
    ensures
        exists|a: int|
            0 <= a < b && #[trigger] ranked(items, weight_keys(items, weights, None), limit)[a] == items[i],
{
    let keys = weight_keys(items, weights, None);
    let r = ranked(items, keys, limit);
    order_sorts(keys);
    let p = order_of(keys);
    assert(r[b] == items[p[b]]);
    lemma_same_place(items, p[b], j);
    assert(p.contains(i));
    let a = p.index_of(i);
    assert(keys[i] == weights[i] * 100_000_000);
    assert(keys[j] == weights[j] * 100_000_000);
    if b < a {
        assert(crate::rank::before(keys, p[b], p[a]));
    }
    assert(a < b);
    assert(r[a] == items[i]);
}

/// Attention of three tenths at least on who speaks lifts a memory, by fifteen hundredths of it
/// and by half at most; less attention lifts nothing.
pub proof fn attention_lifts_who_speaks(weights: Seq<(Seq<char>, i64)>, m: ItemView, who: Seq<char>, w: i64)
    requires
        text_at(m.metadata, "speaker"@) == Some(who),
        text_at(m.metadata, "listener"@) is None,
        list_at(m.metadata, "keywords"@).len() == 0,
        m.tags.len() == 0,
        crate::assoc::lookup(weights, who) == Some(w),
        0 <= w,
    ensures
        w < 300_000 ==> bonus_of(weights, m) == 0,
        w >= 300_000 ==> bonus_of(weights, m) == (if 15 * w < 50_000_000 {
            15 * w
        } else {
            50_000_000
        }),
{
}

// ---------------------------------------------------------------------------
// The graph
// ---------------------------------------------------------------------------

/// The hits of the graph come nearest first, and of the hits for one memory the nearest is
/// given, where there is room.
pub proof fn nearest_hits_come_first(s: Seq<HitView>, limit: int)
    requires
        0 <= limit,
    ensures
        ({
            let r = nearest_hits(s, limit);
            &&& forall|i: int, j: int| 0 <= i < j < r.len() ==> (#[trigger] r[i]).hop <= (#[trigger] r[j]).hop
            &&& forall|i: int| 0 <= i < r.len() ==> s.contains(#[trigger] r[i])
            &&& r.len() <= limit
            &&& r.len() == limit || forall|k: int|
                0 <= k < s.len() ==> exists|i: int|
                    0 <= i < r.len() && (#[trigger] r[i]).memory_id == (#[trigger] s[k]).memory_id && r[i].hop
                        <= s[k].hop
        }),
{
    let keys = hop_keys(s);
    let worth = |h: HitView| -(h.hop as int);
    assert forall|i: int| 0 <= i < s.len() implies #[trigger] keys[i] == worth(s[i]) by {}
    ranking_gives_the_best(s, keys, s.len() as int, worth);
    let t = ranked(s, keys, s.len() as int);
    let flags = Seq::new(t.len(), |i: int| !seen_before(t, i));
    let f = first_hits(t);
    let r = nearest_hits(s, limit);
    assert forall|i: int| 0 <= i < f.len() implies s.contains(#[trigger] f[i]) by {
        let at = kept_from(t, flags, i);
        assert(t[at] == f[i]);
    }
    assert forall|i: int, j: int| 0 <= i < j < f.len() implies (#[trigger] f[i]).hop <= (
    #[trigger] f[j]).hop by {
        let (a, b) = lemma_kept_order(t, flags, i, j);
        assert(worth(t[a]) >= worth(t[b]));
    }
    assert forall|i: int, j: int| 0 <= i < j < r.len() implies (#[trigger] r[i]).hop <= (
    #[trigger] r[j]).hop by {
        assert(r[i] == f[i] && r[j] == f[j]);
    }
    if r.len() != limit {
        assert(r == f);
        assert forall|k: int| 0 <= k < s.len() implies exists|i: int|
            0 <= i < r.len() && (#[trigger] r[i]).memory_id == (#[trigger] s[k]).memory_id && r[i].hop <= s[
            k].hop by {
            assert(t.contains(s[k]));
            let x = t.index_of(s[k]);
            let y = lemma_first_seen(t, x);
            kept_has(t, flags, y);
            let i = f.index_of(t[y]);
            assert(r[i] == t[y]);
            if y < x {
                assert(worth(t[y]) >= worth(t[x]));
            }
        }
    }
}

proof fn lemma_first_seen(t: Seq<HitView>, x: int) -> (y: int)
    requires
        0 <= x < t.len(),
    ensures
        0 <= y <= x,
        t[y].memory_id == t[x].memory_id,
        !seen_before(t, y),
    decreases x,
{
    if seen_before(t, x) {
        let j = choose|j: int| 0 <= j < x && (#[trigger] t[j]).memory_id == t[x].memory_id;
        lemma_first_seen(t, j)
    } else {
        x
    }
}

proof fn lemma_kept_order(t: Seq<HitView>, flags: Seq<bool>, i: int, j: int) -> (r: (int, int))
    requires
        0 <= i < j < kept(t, flags).len(),
    ensures
        0 <= r.0 < r.1 < t.len(),
        t[r.0] == kept(t, flags)[i],
        t[r.1] == kept(t, flags)[j],
    decreases t.len(),
{
    let d = t.drop_last();
    if j < kept(d, flags).len() {
        lemma_kept_order(d, flags, i, j)
    } else {
        let a = kept_from(d, flags, i);
        (a, t.len() - 1)
    }
}

/// A hit of a question with one entity is a memory that mentions an entity that the graph
/// reached, at its distance.
pub proof fn hits_mention_what_was_reached(
    fanout: Seq<FanoutResult>,
    mentions: Seq<EntityMention>,
    seed: Seq<char>,
    i: int,
)
    requires
        0 <= i < single_hits(fanout, mentions, seed).len(),
    ensures
        ({
            let h = single_hits(fanout, mentions, seed)[i];
            exists|f: int, m: int|
                0 <= f < fanout.len() && 0 <= m < mentions.len() && (#[trigger] mentions[m]).memory_id@
                    == h.memory_id && mentions[m].entity_name@ == (#[trigger] fanout[f]).entity_name@ && h.hop
                    == fanout[f].hop as u64 && h.via_relation == fanout[f].via_relation && h.seed == seed
        }),
    decreases fanout.len(),
{
    let d = fanout.drop_last();
    let rest = single_hits(d, mentions, seed);
    if i < rest.len() {
        hits_mention_what_was_reached(d, mentions, seed, i);
        let h = rest[i];
        let (f, m) = choose|f: int, m: int|
            0 <= f < d.len() && 0 <= m < mentions.len() && (#[trigger] mentions[m]).memory_id@ == h.memory_id
                && mentions[m].entity_name@ == (#[trigger] d[f]).entity_name@ && h.hop == d[f].hop as u64
                && h.via_relation == d[f].via_relation && h.seed == seed;
        assert(fanout[f] == d[f]);
        assert(mentions[m].memory_id@ == h.memory_id);
    } else {
        let r = fanout.last();
        let m = lemma_entity_hit(
            mentions,
            r.entity_name@,
            r.hop as u64,
            r.via_relation,
            seed,
            r.edge_weight,
            i - rest.len(),
        );
        assert(fanout[fanout.len() - 1] == r);
        assert(mentions[m].entity_name@ == r.entity_name@);
    }
}

proof fn lemma_entity_hit(
    mentions: Seq<EntityMention>,
    name: Seq<char>,
    hop: u64,
    via: RelationType,
    seed: Seq<char>,
    weight: i64,
    i: int,
) -> (m: int)
    requires
        0 <= i < entity_hits(mentions, name, hop, via, seed, weight).len(),
    ensures
        0 <= m < mentions.len(),
        mentions[m].entity_name@ == name,
        entity_hits(mentions, name, hop, via, seed, weight)[i] == (HitView {
            memory_id: mentions[m].memory_id@,
            hop,
            via_relation: via,
            seed,
            edge_weight: weight,
        }),
    decreases mentions.len(),
{
    let d = mentions.drop_last();
    if i < entity_hits(d, name, hop, via, seed, weight).len() {
        lemma_entity_hit(d, name, hop, via, seed, weight, i)
    } else {
        mentions.len() - 1
    }
}

/// A hit of a question with two entities is a memory that mentions an entity that the graph
/// reached from both, and its distance is the sum of the two.
pub proof fn common_hits_are_reached_from_both(
    first: Seq<FanoutResult>,
    second: Seq<FanoutResult>,
    mentions: Seq<EntityMention>,
    seed: Seq<char>,
    n: nat,
    i: int,
)
    requires
        n <= first.len(),
        0 <= i < common_hits(first, second, mentions, seed, n).len(),
    ensures
        ({
            let h = common_hits(first, second, mentions, seed, n)[i];
            exists|a: int, b: int, m: int|
                0 <= a < first.len() && 0 <= b < second.len() && 0 <= m < mentions.len() && (
                #[trigger] mentions[m]).memory_id@ == h.memory_id && mentions[m].entity_name@ == (
                #[trigger] first[a]).entity_name@ && mentions[m].entity_name@ == (
                #[trigger] second[b]).entity_name@ && h.hop == (first[a].hop + second[b].hop) as u64
        }),
    decreases n,
{
    if n > 0 {
        let rest = common_hits(first, second, mentions, seed, (n - 1) as nat);
        if i < rest.len() {
            common_hits_are_reached_from_both(first, second, mentions, seed, (n - 1) as nat, i);
            assert(common_hits(first, second, mentions, seed, n)[i] == rest[i]);
        } else {
            let a = first[n - 1];
            let j = last_named(second, a.entity_name@)->0;
            lemma_last_named(second, a.entity_name@);
            let m = lemma_entity_hit(
                mentions,
                a.entity_name@,
                (a.hop + second[j].hop) as u64,
                a.via_relation,
                seed,
                crate::relational_recall::mean(a.edge_weight, second[j].edge_weight),
                i - rest.len(),
            );
            assert(first[n - 1].entity_name@ == second[j].entity_name@);
            assert(mentions[m].entity_name@ == a.entity_name@);
        }
    }
}

proof fn lemma_last_named(fanout: Seq<FanoutResult>, name: Seq<char>)
    ensures
        last_named(fanout, name) matches Some(i) ==> 0 <= i < fanout.len() && fanout[i].entity_name@ == name,
    decreases fanout.len(),
{
    if fanout.len() > 0 {
        lemma_last_named(fanout.drop_last(), name);
    }
}

/// Looking along the graph gives the memories of the hits that are stored, in the order of the
/// hits, each with the way to it noted.
pub proof fn graph_gives_the_memories_of_its_hits(entries: Seq<ItemView>, hits: Seq<HitView>, i: int)
    requires
        0 <= i < graph_items(entries, hits).len(),
    ensures
        exists|h: int, e: int|
            0 <= h < hits.len() && 0 <= e < entries.len() && (#[trigger] hits[h]).memory_id
                == (#[trigger] entries[e]).id && graph_items(entries, hits)[i] == (ItemView {
                metadata: graph_items(entries, hits)[i].metadata,
                ..entries[e]
            }) && graph_items(entries, hits)[i].metadata["graph_hop"@] == MetaView::Int(hits[h].hop as i64),
    decreases hits.len(),
{
    reveal_strlit("graph_hop");
    reveal_strlit("graph_relation");
    reveal_strlit("graph_seed");
    reveal_strlit("graph_weight");
    assert("graph_hop"@.len() == 9 && "graph_relation"@.len() == 14 && "graph_seed"@.len() == 10
        && "graph_weight"@.len() == 12);
    let d = hits.drop_last();
    let rest = graph_items(entries, d);
    if i < rest.len() {
        graph_gives_the_memories_of_its_hits(entries, d, i);
        let (h, e) = choose|h: int, e: int|
            0 <= h < d.len() && 0 <= e < entries.len() && (#[trigger] d[h]).memory_id
                == (#[trigger] entries[e]).id && rest[i] == (ItemView {
                metadata: rest[i].metadata,
                ..entries[e]
            }) && rest[i].metadata["graph_hop"@] == MetaView::Int(d[h].hop as i64);
        assert(hits[h] == d[h]);
        assert(graph_items(entries, hits)[i] == rest[i]);
        assert(hits[h].memory_id == entries[e].id);
    } else {
        lemma_last_with_id(entries, hits.last().memory_id);
        let e = last_with_id(entries, hits.last().memory_id)->0;
        assert(hits[hits.len() - 1].memory_id == entries[e].id);
    }
}

proof fn lemma_asks(q: Seq<char>, list: Seq<Seq<char>>, t: RelationType)
    ensures
        one_if(has_any(q, list), t).contains(t) == has_any(q, list),
        forall|x: RelationType| x != t ==> !(#[trigger] one_if(has_any(q, list), t).contains(x)),
        forall|i: int| 0 <= i < list.len() && has_sub(q, #[trigger] list[i]) ==> has_any(q, list),
{
    if has_any(q, list) {
        assert(one_if(true, t)[0] == t);
    }
}

proof fn lemma_joined(a: Seq<RelationType>, b: Seq<RelationType>)
    ensures
        forall|x: RelationType| #[trigger] (a + b).contains(x) == (a.contains(x) || b.contains(x)),
{
    assert forall|x: RelationType| #[trigger] (a + b).contains(x) == (a.contains(x) || b.contains(x)) by {
        if a.contains(x) {
            assert((a + b)[a.index_of(x)] == x);
        }
        if b.contains(x) {
            assert((a + b)[a.len() + b.index_of(x)] == x);
        }
    }
}

/// A question about companies asks for the relations that it names, and for mere mentions where it
/// names none.
pub proof fn questions_about_companies(q: Seq<char>)
    ensures
        has_any(q, seq!["投资"@, "注资"@, "领投"@]) ==> company_relations(q).contains(RelationType::InvestedIn),
        has_sub(q, "投资"@) ==> company_relations(q).contains(RelationType::InvestedIn),
        has_sub(q, "注资"@) ==> company_relations(q).contains(RelationType::InvestedIn),
        company_relations(q).contains(RelationType::InvestedIn) ==> has_any(q, seq!["投资"@, "注资"@, "领投"@]),
        has_any(q, seq!["创建"@, "创办"@, "成立"@]) ==> company_relations(q).contains(RelationType::Founded),
        has_sub(q, "创建"@) ==> company_relations(q).contains(RelationType::Founded),
        has_sub(q, "创办"@) ==> company_relations(q).contains(RelationType::Founded),
        company_relations(q).contains(RelationType::Founded) ==> has_any(q, seq!["创建"@, "创办"@, "成立"@]),
        has_any(q, seq!["顾问"@]) ==> company_relations(q).contains(RelationType::Advises),
        has_sub(q, "顾问"@) ==> company_relations(q).contains(RelationType::Advises),
        company_relations(q).contains(RelationType::Advises) ==> has_any(q, seq!["顾问"@]),
        has_any(q, seq!["工作"@, "就职"@]) ==> company_relations(q).contains(RelationType::WorksAt),
        has_sub(q, "工作"@) ==> company_relations(q).contains(RelationType::WorksAt),
        has_sub(q, "就职"@) ==> company_relations(q).contains(RelationType::WorksAt),
        company_relations(q).contains(RelationType::WorksAt) ==> has_any(q, seq!["工作"@, "就职"@]),
        company_relations(q).len() > 0,
{
    let w0 = seq!["投资"@, "注资"@, "领投"@];
    let r0 = one_if(has_any(q, w0), RelationType::InvestedIn);
    lemma_asks(q, w0, RelationType::InvestedIn);
    assert(w0[0] == "投资"@);
    assert(w0[1] == "注资"@);
    let w1 = seq!["创建"@, "创办"@, "成立"@];
    let r1 = one_if(has_any(q, w1), RelationType::Founded);
    lemma_asks(q, w1, RelationType::Founded);
    assert(w1[0] == "创建"@);
    assert(w1[1] == "创办"@);
    let w2 = seq!["顾问"@];
    let r2 = one_if(has_any(q, w2), RelationType::Advises);
    lemma_asks(q, w2, RelationType::Advises);
    assert(w2[0] == "顾问"@);
    let w3 = seq!["工作"@, "就职"@];
    let r3 = one_if(has_any(q, w3), RelationType::WorksAt);
    lemma_asks(q, w3, RelationType::WorksAt);
    assert(w3[0] == "工作"@);
    assert(w3[1] == "就职"@);
    lemma_joined(r0, r1);
    lemma_joined(r0 + r1, r2);
    lemma_joined(r0 + r1 + r2, r3);
    let named = r0 + r1 + r2 + r3;
    if named.len() == 0 {
        assert(company_relations(q)[0] == RelationType::Mentions);
    }
}

/// A question about feelings asks for the feelings that it names, and for liking where it names
/// none.
pub proof fn questions_about_feelings(q: Seq<char>)
    ensures
        has_any(q, seq!["喜欢"@, "喜爱"@]) ==> feeling_relations(q).contains(RelationType::Likes),
        has_sub(q, "喜欢"@) ==> feeling_relations(q).contains(RelationType::Likes),
        has_sub(q, "喜爱"@) ==> feeling_relations(q).contains(RelationType::Likes),
        has_any(q, seq!["讨厌"@, "不喜欢"@, "反感"@]) ==> feeling_relations(q).contains(RelationType::Dislikes),
        has_sub(q, "讨厌"@) ==> feeling_relations(q).contains(RelationType::Dislikes),
        has_sub(q, "不喜欢"@) ==> feeling_relations(q).contains(RelationType::Dislikes),
        feeling_relations(q).contains(RelationType::Dislikes) ==> has_any(q, seq!["讨厌"@, "不喜欢"@, "反感"@]),
        has_any(q, seq!["信任"@]) ==> feeling_relations(q).contains(RelationType::Trusts),
        has_sub(q, "信任"@) ==> feeling_relations(q).contains(RelationType::Trusts),
        feeling_relations(q).contains(RelationType::Trusts) ==> has_any(q, seq!["信任"@]),
        has_any(q, seq!["想念"@, "思念"@]) ==> feeling_relations(q).contains(RelationType::Misses),
        has_sub(q, "想念"@) ==> feeling_relations(q).contains(RelationType::Misses),
        has_sub(q, "思念"@) ==> feeling_relations(q).contains(RelationType::Misses),
        feeling_relations(q).contains(RelationType::Misses) ==> has_any(q, seq!["想念"@, "思念"@]),
        has_any(q, seq!["关心"@, "在意"@]) ==> feeling_relations(q).contains(RelationType::CaresFor),
        has_sub(q, "关心"@) ==> feeling_relations(q).contains(RelationType::CaresFor),
        has_sub(q, "在意"@) ==> feeling_relations(q).contains(RelationType::CaresFor),
        feeling_relations(q).contains(RelationType::CaresFor) ==> has_any(q, seq!["关心"@, "在意"@]),
        feeling_relations(q).len() > 0,
{
    let w0 = seq!["喜欢"@, "喜爱"@];
    let r0 = one_if(has_any(q, w0), RelationType::Likes);
    lemma_asks(q, w0, RelationType::Likes);
    assert(w0[0] == "喜欢"@);
    assert(w0[1] == "喜爱"@);
    let w1 = seq!["讨厌"@, "不喜欢"@, "反感"@];
    let r1 = one_if(has_any(q, w1), RelationType::Dislikes);
    lemma_asks(q, w1, RelationType::Dislikes);
    assert(w1[0] == "讨厌"@);
    assert(w1[1] == "不喜欢"@);
    let w2 = seq!["信任"@];
    let r2 = one_if(has_any(q, w2), RelationType::Trusts);
    lemma_asks(q, w2, RelationType::Trusts);
    assert(w2[0] == "信任"@);
    let w3 = seq!["想念"@, "思念"@];
    let r3 = one_if(has_any(q, w3), RelationType::Misses);
    lemma_asks(q, w3, RelationType::Misses);
    assert(w3[0] == "想念"@);
    assert(w3[1] == "思念"@);
    let w4 = seq!["关心"@, "在意"@];
    let r4 = one_if(has_any(q, w4), RelationType::CaresFor);
    lemma_asks(q, w4, RelationType::CaresFor);
    assert(w4[0] == "关心"@);
    assert(w4[1] == "在意"@);
    lemma_joined(r0, r1);
    lemma_joined(r0 + r1, r2);
    lemma_joined(r0 + r1 + r2, r3);
    lemma_joined(r0 + r1 + r2 + r3, r4);
    let named = r0 + r1 + r2 + r3 + r4;
    if named.len() == 0 {
        assert(feeling_relations(q)[0] == RelationType::Likes);
    }
}

/// A question about people asks for family and friends as it names them, and for friends where it
/// names neither.
pub proof fn questions_about_people(q: Seq<char>)
    ensures
        has_any(q, seq!["家人"@, "哥哥"@, "弟弟"@, "姐姐"@, "妹妹"@, "爸爸"@, "妈妈"@, "父亲"@, "母亲"@, "儿子"@, "女儿"@, "丈夫"@, "妻子"@, "老公"@, "老婆"@]) ==> social_relations(q).contains(RelationType::FamilyOf),
        has_sub(q, "家人"@) ==> social_relations(q).contains(RelationType::FamilyOf),
        has_sub(q, "哥哥"@) ==> social_relations(q).contains(RelationType::FamilyOf),
        social_relations(q).contains(RelationType::FamilyOf) ==> has_any(q, seq!["家人"@, "哥哥"@, "弟弟"@, "姐姐"@, "妹妹"@, "爸爸"@, "妈妈"@, "父亲"@, "母亲"@, "儿子"@, "女儿"@, "丈夫"@, "妻子"@, "老公"@, "老婆"@]),
        has_any(q, seq!["朋友"@, "好友"@, "闺蜜"@, "哥们"@]) ==> social_relations(q).contains(RelationType::FriendOf),
        has_sub(q, "朋友"@) ==> social_relations(q).contains(RelationType::FriendOf),
        has_sub(q, "好友"@) ==> social_relations(q).contains(RelationType::FriendOf),
        social_relations(q).len() > 0,
{
    let w0 = seq!["家人"@, "哥哥"@, "弟弟"@, "姐姐"@, "妹妹"@, "爸爸"@, "妈妈"@, "父亲"@, "母亲"@, "儿子"@, "女儿"@, "丈夫"@, "妻子"@, "老公"@, "老婆"@];
    let r0 = one_if(has_any(q, w0), RelationType::FamilyOf);
    lemma_asks(q, w0, RelationType::FamilyOf);
    assert(w0[0] == "家人"@);
    assert(w0[1] == "哥哥"@);
    let w1 = seq!["朋友"@, "好友"@, "闺蜜"@, "哥们"@];
    let r1 = one_if(has_any(q, w1), RelationType::FriendOf);
    lemma_asks(q, w1, RelationType::FriendOf);
    assert(w1[0] == "朋友"@);
    assert(w1[1] == "好友"@);
    lemma_joined(r0, r1);
    let named = r0 + r1;
    if named.len() == 0 {
        assert(social_relations(q)[0] == RelationType::FriendOf);
    }
}

} // verus!
