//! What the ranking of search results promises: what makes a result better, and that the
//! better ones come first.

use crate::rank::{order_of, order_sorts, ranking_gives_the_best};
use crate::retriever::{attached, attached_hit, boosted, felt_importance, final_score, has_foreign,
    haystack, is_shown, magnitude, names_in, normed, part, raw_list, raw_scores, semantic_percent,
    source_percent, spread, usable, HitFactors, RawScores, RetrievalView, RetrievalWeights};
use crate::select::{filter_from, filter_has};
use crate::strategy::{last_with_id, lemma_last_with_id};
use crate::text::{has_sub, lowercase, occurs_at};
use crate::tokens::{distinct_words, jaccard, likeness_is_the_share_of_common_words};
use crate::types::{list_at, semantic, text_at, ItemView, SemanticType};
use vstd::prelude::*;
use vstd::string::*;

verus! {

/// What is given to the ranking: as many factors as results, as many lists of words as
/// memories, weights with which every score fits, and no identifier twice.
pub open spec fn well_posed(
    hits: Seq<RetrievalView>,
    entries: Seq<ItemView>,
    factors: Seq<HitFactors>,
    w: RetrievalWeights,
    words: Seq<Seq<Seq<char>>>,
) -> bool {
    &&& factors.len() == hits.len()
    &&& words.len() == entries.len()
    &&& usable(w)
    &&& forall|i: int, j: int|
        0 <= i < j < hits.len() ==> (#[trigger] hits[i]).item.id != (#[trigger] hits[j]).item.id
    &&& forall|i: int, j: int|
        0 <= i < j < entries.len() ==> (#[trigger] entries[i]).id != (#[trigger] entries[j]).id
}

/// No weight is negative.
pub open spec fn no_negative_weight(w: RetrievalWeights) -> bool {
    w.recency >= 0 && w.relevance >= 0 && w.importance >= 0 && w.hook_boost >= 0 && w.need_sim >= 0
}

proof fn lemma_spread(raws: Seq<Option<RawScores>>, k: int, low: int, high: int)
    requires
        forall|i: int|
            0 <= i < raws.len() && (#[trigger] raws[i]) is Some ==> low <= part(raws[i]->0, k) <= high,
    ensures
        spread(raws, k) matches Some(b) ==> low <= b.0 <= b.1 <= high,
        forall|i: int|
            0 <= i < raws.len() && (#[trigger] raws[i]) is Some ==> spread(raws, k) is Some && (spread(
                raws,
                k,
            )->0).0 <= part(raws[i]->0, k) <= (spread(raws, k)->0).1,
    decreases raws.len(),
{
    if raws.len() > 0 {
        let d = raws.drop_last();
        assert forall|i: int| 0 <= i < d.len() && (#[trigger] d[i]) is Some implies low <= part(
            d[i]->0,
            k,
        ) <= high by {
            assert(d[i] == raws[i]);
        }
        lemma_spread(d, k, low, high);
        assert(raws.last() == raws[raws.len() - 1]);
        assert forall|i: int| 0 <= i < raws.len() && (#[trigger] raws[i]) is Some implies spread(raws, k) is Some
            && (spread(raws, k)->0).0 <= part(raws[i]->0, k) <= (spread(raws, k)->0).1 by {
            if i < d.len() {
                assert(d[i] == raws[i]);
            }
        }
    }
}

proof fn lemma_normed(x: i128, y: i128, b: Option<(i128, i128)>)
    requires
        b is Some,
        (b->0).0 <= y <= x <= (b->0).1,
    ensures
        0 <= normed(y, b) <= normed(x, b) <= 1_000_000,
        x > y && (b->0).1 - (b->0).0 <= (x - y) * 1_000_000 ==> normed(y, b) < normed(x, b),
{
    let low = (b->0).0 as int;
    let high = (b->0).1 as int;
    if low != high {
        let w = high - low;
        let p = (y - low) * 1_000_000;
        let q = (x - low) * 1_000_000;
        assert(0 <= p / w <= q / w && q / w <= 1_000_000) by (nonlinear_arith)
            requires
                0 <= p <= q,
                q <= w * 1_000_000,
                w > 0,
        ;
        if w <= (x - y) * 1_000_000 {
            assert(q >= p + w);
            assert(p / w < q / w) by (nonlinear_arith)
                requires
                    q >= p + w,
                    w > 0,
                    p >= 0,
            ;
        }
    }
}

proof fn lemma_product(n: int, a: int, b: int, c: int)
    requires
        -9_223_372_036_854_775_808 <= n <= 9_223_372_036_854_775_807,
        0 <= a <= 115,
        0 <= b <= 120,
        0 <= c <= 3,
    ensures
        -400_000_000_000_000_000_000_000 <= n * a * b * c <= 400_000_000_000_000_000_000_000,
{
    let m = 9_223_372_036_854_775_808int;
    assert(-m * 115 <= n * a <= m * 115) by (nonlinear_arith)
        requires
            -m <= n <= m,
            0 <= a <= 115,
            m > 0,
    ;
    assert(-m * 115 * 120 <= n * a * b <= m * 115 * 120) by (nonlinear_arith)
        requires
            -m * 115 <= n * a <= m * 115,
            0 <= b <= 120,
            m > 0,
    ;
    assert(-m * 115 * 120 * 3 <= n * a * b * c <= m * 115 * 120 * 3) by (nonlinear_arith)
        requires
            -m * 115 * 120 <= n * a * b <= m * 115 * 120,
            0 <= c <= 3,
            m > 0,
    ;
}

proof fn lemma_raw(fused: i64, m: ItemView, f: HitFactors, query: Seq<Seq<char>>, words: Seq<Seq<char>>)
    ensures
        ({
            let r = raw_scores(fused, m, f, query, words);
            &&& r.relevance == boosted(fused, m, query)
            &&& r.importance == felt_importance(
                f.decayed_importance,
                list_at(m.metadata, "mood_tags"@).len(),
            )
            &&& r.need == jaccard(distinct_words(query), words)
            &&& 0 <= r.need <= 1_000_000
            &&& forall|k: int| 0 <= k <= 4 ==> -1_000_000_000_000_000_000_000_000 <= #[trigger] part(r, k)
                <= 1_000_000_000_000_000_000_000_000
        }),
{
    lemma_product(
        fused as int,
        semantic_percent(semantic(m)) as int,
        source_percent(m.metadata) as int,
        if names_in(query, m) {
            3
        } else {
            1
        },
    );
    let moods = list_at(m.metadata, "mood_tags"@).len();
    let k: int = if moods < 3 {
        moods as int
    } else {
        3
    };
    let d = f.decayed_importance as int;
    assert(-9_223_372_036_854_775_808 * 18 <= d * (15 + k) <= 9_223_372_036_854_775_808 * 18) by (
        nonlinear_arith)
        requires
            -9_223_372_036_854_775_808 <= d <= 9_223_372_036_854_775_807,
            0 <= k <= 3,
    ;
    likeness_is_the_share_of_common_words(distinct_words(query), words);
}

proof fn lemma_all_spreads(
    hits: Seq<RetrievalView>,
    entries: Seq<ItemView>,
    factors: Seq<HitFactors>,
    query: Seq<Seq<char>>,
    words: Seq<Seq<Seq<char>>>,
    k: int,
)
    requires
        0 <= k <= 4,
    ensures
        ({
            let raws = raw_list(hits, entries, factors, query, words);
            forall|i: int|
                0 <= i < raws.len() && (#[trigger] raws[i]) is Some ==> spread(raws, k) is Some && (spread(
                    raws,
                    k,
                )->0).0 <= part(raws[i]->0, k) <= (spread(raws, k)->0).1
        }),
{
    let raws = raw_list(hits, entries, factors, query, words);
    assert forall|i: int| 0 <= i < raws.len() && (#[trigger] raws[i]) is Some implies
        -1_000_000_000_000_000_000_000_000 <= part(raws[i]->0, k) <= 1_000_000_000_000_000_000_000_000 by {
        let at = last_with_id(entries, hits[i].item.id)->0;
        lemma_raw(hits[i].fused_score, entries[at], factors[i], query, words[at]);
    }
    lemma_spread(raws, k, -1_000_000_000_000_000_000_000_000, 1_000_000_000_000_000_000_000_000);
}

/// The score of a result fits, and is the larger the larger its parts are.
proof fn lemma_final(
    hits: Seq<RetrievalView>,
    entries: Seq<ItemView>,
    factors: Seq<HitFactors>,
    w: RetrievalWeights,
    query: Seq<Seq<char>>,
    words: Seq<Seq<Seq<char>>>,
    x: int,
    y: int,
)
    requires
        well_posed(hits, entries, factors, w, words),
        no_negative_weight(w),
        0 <= x < hits.len(),
        0 <= y < hits.len(),
        raw_list(hits, entries, factors, query, words)[x] is Some,
        raw_list(hits, entries, factors, query, words)[y] is Some,
        forall|k: int|
            0 <= k <= 4 ==> #[trigger] part(
                raw_list(hits, entries, factors, query, words)[x]->0,
                k,
            ) >= part(raw_list(hits, entries, factors, query, words)[y]->0, k),
    ensures
        ({
            let raws = raw_list(hits, entries, factors, query, words);
            let p = raws[x]->0;
            let q = raws[y]->0;
            &&& final_score(p, raws, w) >= final_score(q, raws, w)
            &&& w.relevance > 0 && normed(p.relevance, spread(raws, 0)) > normed(
                q.relevance,
                spread(raws, 0),
            ) ==> final_score(p, raws, w) > final_score(q, raws, w)
            &&& w.recency > 0 && normed(p.recency, spread(raws, 1)) > normed(q.recency, spread(raws, 1))
                ==> final_score(p, raws, w) > final_score(q, raws, w)
            &&& w.importance > 0 && normed(p.importance, spread(raws, 2)) > normed(
                q.importance,
                spread(raws, 2),
            ) ==> final_score(p, raws, w) > final_score(q, raws, w)
            &&& w.hook_boost > 0 && normed(p.hook, spread(raws, 3)) > normed(q.hook, spread(raws, 3))
                ==> final_score(p, raws, w) > final_score(q, raws, w)
            &&& w.need_sim > 0 && normed(p.need, spread(raws, 4)) > normed(q.need, spread(raws, 4))
                ==> final_score(p, raws, w) > final_score(q, raws, w)
        }),
{
    let raws = raw_list(hits, entries, factors, query, words);
    let p = raws[x]->0;
    let q = raws[y]->0;
    lemma_all_spreads(hits, entries, factors, query, words, 0);
    lemma_all_spreads(hits, entries, factors, query, words, 1);
    lemma_all_spreads(hits, entries, factors, query, words, 2);
    lemma_all_spreads(hits, entries, factors, query, words, 3);
    lemma_all_spreads(hits, entries, factors, query, words, 4);
    assert(part(p, 0) >= part(q, 0) && part(p, 1) >= part(q, 1) && part(p, 2) >= part(q, 2) && part(p, 3)
        >= part(q, 3) && part(p, 4) >= part(q, 4));
    lemma_normed(p.relevance, q.relevance, spread(raws, 0));
    lemma_normed(p.recency, q.recency, spread(raws, 1));
    lemma_normed(p.importance, q.importance, spread(raws, 2));
    lemma_normed(p.hook, q.hook, spread(raws, 3));
    lemma_normed(p.need, q.need, spread(raws, 4));
    lemma_weigh(w.relevance, normed(p.relevance, spread(raws, 0)), normed(q.relevance, spread(raws, 0)));
    lemma_weigh(w.recency, normed(p.recency, spread(raws, 1)), normed(q.recency, spread(raws, 1)));
    lemma_weigh(w.importance, normed(p.importance, spread(raws, 2)), normed(q.importance, spread(raws, 2)));
    lemma_weigh(w.hook_boost, normed(p.hook, spread(raws, 3)), normed(q.hook, spread(raws, 3)));
    lemma_weigh(w.need_sim, normed(p.need, spread(raws, 4)), normed(q.need, spread(raws, 4)));
}

proof fn lemma_weigh(w: i64, a: int, b: int)
    requires
        a >= b,
        w >= 0,
    ensures
        w * a >= w * b,
        w > 0 && a > b ==> w * a > w * b,
{
    assert(w * a >= w * b) by (nonlinear_arith)
        requires
            a >= b,
            w >= 0,
    ;
    if w > 0 && a > b {
        assert(w * a > w * b) by (nonlinear_arith)
            requires
                a > b,
                w > 0,
        ;
    }
}

proof fn lemma_weight_bound(w: i64, n: int)
    requires
        0 <= n <= 1_000_000,
    ensures
        -1_000_000 * magnitude(w) <= w * n <= 1_000_000 * magnitude(w),
{
    let m = magnitude(w);
    assert(-1_000_000 * m <= w * n <= 1_000_000 * m) by (nonlinear_arith)
        requires
            -m <= w <= m,
            0 <= n <= 1_000_000,
    ;
}

proof fn lemma_score_fits(
    hits: Seq<RetrievalView>,
    entries: Seq<ItemView>,
    factors: Seq<HitFactors>,
    w: RetrievalWeights,
    query: Seq<Seq<char>>,
    words: Seq<Seq<Seq<char>>>,
    x: int,
)
    requires
        well_posed(hits, entries, factors, w, words),
        0 <= x < hits.len(),
        raw_list(hits, entries, factors, query, words)[x] is Some,
    ensures
        ({
            let raws = raw_list(hits, entries, factors, query, words);
            i64::MIN <= final_score(raws[x]->0, raws, w) <= i64::MAX
        }),
{
    let raws = raw_list(hits, entries, factors, query, words);
    let p = raws[x]->0;
    lemma_all_spreads(hits, entries, factors, query, words, 0);
    lemma_all_spreads(hits, entries, factors, query, words, 1);
    lemma_all_spreads(hits, entries, factors, query, words, 2);
    lemma_all_spreads(hits, entries, factors, query, words, 3);
    lemma_all_spreads(hits, entries, factors, query, words, 4);
    assert(part(p, 0) == p.relevance && part(p, 1) == p.recency && part(p, 2) == p.importance && part(p, 3)
        == p.hook && part(p, 4) == p.need);
    lemma_normed(p.relevance, p.relevance, spread(raws, 0));
    lemma_normed(p.recency, p.recency, spread(raws, 1));
    lemma_normed(p.importance, p.importance, spread(raws, 2));
    lemma_normed(p.hook, p.hook, spread(raws, 3));
    lemma_normed(p.need, p.need, spread(raws, 4));
    lemma_weight_bound(w.relevance, normed(p.relevance, spread(raws, 0)));
    lemma_weight_bound(w.recency, normed(p.recency, spread(raws, 1)));
    lemma_weight_bound(w.importance, normed(p.importance, spread(raws, 2)));
    lemma_weight_bound(w.hook_boost, normed(p.hook, spread(raws, 3)));
    lemma_weight_bound(w.need_sim, normed(p.need, spread(raws, 4)));
}

// ---------------------------------------------------------------------------
// The list of results
// ---------------------------------------------------------------------------

/// The results come by score, largest first. Each has a content and reaches the smallest score
/// that is asked for.
pub proof fn results_come_by_score(
    hits: Seq<RetrievalView>,
    entries: Seq<ItemView>,
    factors: Seq<HitFactors>,
    w: RetrievalWeights,
    query: Seq<Seq<char>>,
    words: Seq<Seq<Seq<char>>>,
)
    ensures
        ({
            let out = attached(hits, entries, factors, w, query, words);
            &&& forall|a: int, b: int|
                0 <= a < b < out.len() ==> (#[trigger] out[a]).fused_score >= (#[trigger] out[b]).fused_score
            &&& forall|a: int|
                0 <= a < out.len() ==> (#[trigger] out[a]).item.content.len() > 0 && (w.min_score > 0
                    ==> out[a].fused_score >= w.min_score * 1_000_000)
        }),
{
    let raws = raw_list(hits, entries, factors, query, words);
    let all = Seq::new(hits.len(), |i: int| attached_hit(hits[i], entries, raws[i], raws, w));
    let test = |h: RetrievalView| is_shown(h, w);
    let shown = all.filter(test);
    let keys = shown.map_values(|h: RetrievalView| h.fused_score as i128);
    let worth = |h: RetrievalView| h.fused_score as int;
    assert forall|i: int| 0 <= i < shown.len() implies #[trigger] keys[i] == worth(shown[i]) by {}
    ranking_gives_the_best(shown, keys, shown.len() as int, worth);
    let out = attached(hits, entries, factors, w, query, words);
    assert forall|a: int, b: int| 0 <= a < b < out.len() implies (#[trigger] out[a]).fused_score >= (
    #[trigger] out[b]).fused_score by {
        assert(worth(out[a]) >= worth(out[b]));
    }
    assert forall|a: int| 0 <= a < out.len() implies (#[trigger] out[a]).item.content.len() > 0 && (
    w.min_score > 0 ==> out[a].fused_score >= w.min_score * 1_000_000) by {
        filter_from(all, test, shown.index_of(out[a]));
    }
}

proof fn lemma_result(
    hits: Seq<RetrievalView>,
    entries: Seq<ItemView>,
    factors: Seq<HitFactors>,
    w: RetrievalWeights,
    query: Seq<Seq<char>>,
    words: Seq<Seq<Seq<char>>>,
    a: int,
) -> (x: int)
    requires
        well_posed(hits, entries, factors, w, words),
        0 <= a < attached(hits, entries, factors, w, query, words).len(),
    ensures
        0 <= x < hits.len(),
        ({
            let raws = raw_list(hits, entries, factors, query, words);
            let r = attached(hits, entries, factors, w, query, words)[a];
            &&& r == attached_hit(hits[x], entries, raws[x], raws, w)
            &&& r.item.id == hits[x].item.id
            &&& raws[x] is Some ==> r.fused_score == final_score(raws[x]->0, raws, w)
        }),
{
    let raws = raw_list(hits, entries, factors, query, words);
    let all = Seq::new(hits.len(), |i: int| attached_hit(hits[i], entries, raws[i], raws, w));
    let test = |h: RetrievalView| is_shown(h, w);
    let shown = all.filter(test);
    let keys = shown.map_values(|h: RetrievalView| h.fused_score as i128);
    order_sorts(keys);
    let at = order_of(keys)[a];
    filter_from(all, test, at);
    let x = all.index_of(shown[at]);
    lemma_last_with_id(entries, hits[x].item.id);
    if raws[x] is Some {
        lemma_score_fits(hits, entries, factors, w, query, words, x);
    }
    x
}

/// Each result is one of those that were found, with the memory of its identifier in it and
/// nothing changed but the metadata.
pub proof fn results_are_memories_that_were_found(
    hits: Seq<RetrievalView>,
    entries: Seq<ItemView>,
    factors: Seq<HitFactors>,
    w: RetrievalWeights,
    query: Seq<Seq<char>>,
    words: Seq<Seq<Seq<char>>>,
    a: int,
    at: int,
)
    requires
        well_posed(hits, entries, factors, w, words),
        0 <= a < attached(hits, entries, factors, w, query, words).len(),
        0 <= at < entries.len(),
        entries[at].id == attached(hits, entries, factors, w, query, words)[a].item.id,
    ensures
        ({
            let r = attached(hits, entries, factors, w, query, words)[a];
            &&& exists|x: int| 0 <= x < hits.len() && (#[trigger] hits[x]).item.id == r.item.id
            &&& r.item == (ItemView { metadata: r.item.metadata, ..entries[at] })
        }),
{
    let x = lemma_result(hits, entries, factors, w, query, words, a);
    assert(hits[x].item.id == attached(hits, entries, factors, w, query, words)[a].item.id);
    lemma_known(entries, hits[x].item.id, at);
}

proof fn lemma_known(entries: Seq<ItemView>, id: Seq<char>, at: int)
    requires
        0 <= at < entries.len(),
        entries[at].id == id,
        forall|i: int, j: int|
            0 <= i < j < entries.len() ==> (#[trigger] entries[i]).id != (#[trigger] entries[j]).id,
    ensures
        last_with_id(entries, id) == Some(at),
{
    lemma_last_with_id(entries, id);
    match last_with_id(entries, id) {
        Some(k) => {
            if k < at {
                assert(entries[k].id != entries[at].id);
            } else if at < k {
                assert(entries[at].id != entries[k].id);
            }
        },
        None => assert(entries[at].id != id),
    }
}

/// Where no smallest score is asked for, every memory that was found and has a content is
/// given.
pub proof fn found_memories_are_given(
    hits: Seq<RetrievalView>,
    entries: Seq<ItemView>,
    factors: Seq<HitFactors>,
    w: RetrievalWeights,
    query: Seq<Seq<char>>,
    words: Seq<Seq<Seq<char>>>,
    x: int,
    at: int,
) -> (a: int)
    requires
        well_posed(hits, entries, factors, w, words),
        w.min_score <= 0,
        0 <= x < hits.len(),
        0 <= at < entries.len(),
        entries[at].id == hits[x].item.id,
        entries[at].content.len() > 0,
    ensures
        0 <= a < attached(hits, entries, factors, w, query, words).len(),
        attached(hits, entries, factors, w, query, words)[a].item.id == hits[x].item.id,
{
    lemma_known(entries, hits[x].item.id, at);
    let raws = raw_list(hits, entries, factors, query, words);
    let all = Seq::new(hits.len(), |i: int| attached_hit(hits[i], entries, raws[i], raws, w));
    let test = |h: RetrievalView| is_shown(h, w);
    let shown = all.filter(test);
    let keys = shown.map_values(|h: RetrievalView| h.fused_score as i128);
    assert(test(all[x]));
    filter_has(all, test, x);
    let k = shown.index_of(all[x]);
    order_sorts(keys);
    assert(order_of(keys).contains(k));
    order_of(keys).index_of(k)
}

// ---------------------------------------------------------------------------
// What makes a result better
// ---------------------------------------------------------------------------

/// Whether a hook of the memory is open.
pub open spec fn hook_is_open(m: ItemView) -> bool {
    exists|i: int| 0 <= i < m.open_hooks.len() && (#[trigger] m.open_hooks[i]).closed_at is None
}

/// The one result is at least as good as the other in everything that counts: how well it was
/// found, how new and how important it is, whether a hook is open, and what it shares with the
/// query; the memories are the same but for the identifier and the hooks.
pub open spec fn at_least_as_good(
    hits: Seq<RetrievalView>,
    entries: Seq<ItemView>,
    factors: Seq<HitFactors>,
    query: Seq<Seq<char>>,
    words: Seq<Seq<Seq<char>>>,
    x: int,
    y: int,
    p: int,
    q: int,
) -> bool {
    &&& 0 <= x < hits.len() && 0 <= y < hits.len()
    &&& 0 <= p < entries.len() && entries[p].id == hits[x].item.id
    &&& 0 <= q < entries.len() && entries[q].id == hits[y].item.id
    &&& entries[p] == (ItemView { id: entries[p].id, open_hooks: entries[p].open_hooks, ..entries[q] })
    &&& hits[x].fused_score >= hits[y].fused_score
    &&& factors[x].recency >= factors[y].recency
    &&& factors[x].decayed_importance >= factors[y].decayed_importance
    &&& hook_is_open(entries[q]) ==> hook_is_open(entries[p])
    &&& jaccard(distinct_words(query), words[p]) >= jaccard(distinct_words(query), words[q])
}

proof fn lemma_boosted(a: i64, b: i64, m: ItemView, n: ItemView, query: Seq<Seq<char>>)
    requires
        a >= b,
        semantic(m) == semantic(n),
        source_percent(m.metadata) == source_percent(n.metadata),
        names_in(query, m) == names_in(query, n),
    ensures
        boosted(a, m, query) >= boosted(b, n, query),
        a >= b + 40_000_000 ==> boosted(a, m, query) >= boosted(b, n, query) + 18_000_000,
{
    let s = semantic_percent(semantic(m)) as int;
    let t = source_percent(m.metadata) as int;
    let e: int = if names_in(query, m) {
        3
    } else {
        1
    };
    let k = s * t * e;
    assert(4750 <= k) by (nonlinear_arith)
        requires
            k == s * t * e,
            95 <= s,
            50 <= t,
            1 <= e,
    ;
    assert(a * s * t * e == a * k) by (nonlinear_arith)
        requires
            k == s * t * e,
    ;
    assert(b * s * t * e == b * k) by (nonlinear_arith)
        requires
            k == s * t * e,
    ;
    assert(a * k >= b * k) by (nonlinear_arith)
        requires
            a >= b,
            k >= 0,
    ;
    if a >= b + 40_000_000 {
        assert(a * k >= b * k + 40_000_000 * 4750) by (nonlinear_arith)
            requires
                a >= b + 40_000_000,
                k >= 4750,
        ;
    }
}

proof fn lemma_felt(a: i64, b: i64, moods: nat)
    requires
        a >= b,
    ensures
        felt_importance(a, moods) >= felt_importance(b, moods),
        a >= b + 2 ==> felt_importance(a, moods) >= felt_importance(b, moods) + 2,
        0 <= b <= a <= 1_000_000 ==> 0 <= felt_importance(b, moods) <= felt_importance(a, moods)
            <= 1_200_000,
{
    let k: int = if moods < 3 {
        moods as int
    } else {
        3
    };
    let x = a * (15 + k);
    let y = b * (15 + k);
    assert(x >= y && (a >= b + 2 ==> x >= y + 30)) by (nonlinear_arith)
        requires
            a >= b,
            x == a * (15 + k),
            y == b * (15 + k),
            0 <= k <= 3,
    ;
    assert(0 <= b <= a <= 1_000_000 ==> 0 <= y && x <= 18_000_000) by (nonlinear_arith)
        requires
            x == a * (15 + k),
            y == b * (15 + k),
            0 <= k <= 3,
    ;
}

proof fn lemma_dominates(
    hits: Seq<RetrievalView>,
    entries: Seq<ItemView>,
    factors: Seq<HitFactors>,
    w: RetrievalWeights,
    query: Seq<Seq<char>>,
    words: Seq<Seq<Seq<char>>>,
    x: int,
    y: int,
    p: int,
    q: int,
)
    requires
        well_posed(hits, entries, factors, w, words),
        at_least_as_good(hits, entries, factors, query, words, x, y, p, q),
    ensures
        ({
            let raws = raw_list(hits, entries, factors, query, words);
            &&& raws[x] == Some(
                raw_scores(hits[x].fused_score, entries[p], factors[x], query, words[p]),
            )
            &&& raws[y] == Some(
                raw_scores(hits[y].fused_score, entries[q], factors[y], query, words[q]),
            )
            &&& forall|k: int| 0 <= k <= 4 ==> #[trigger] part(raws[x]->0, k) >= part(raws[y]->0, k)
        }),
{
    lemma_known(entries, hits[x].item.id, p);
    lemma_known(entries, hits[y].item.id, q);
    lemma_raw(hits[x].fused_score, entries[p], factors[x], query, words[p]);
    lemma_raw(hits[y].fused_score, entries[q], factors[y], query, words[q]);
    assert(haystack(entries[p]) == haystack(entries[q]));
    assert(names_in(query, entries[p]) == names_in(query, entries[q]));
    lemma_boosted(hits[x].fused_score, hits[y].fused_score, entries[p], entries[q], query);
    lemma_felt(
        factors[x].decayed_importance,
        factors[y].decayed_importance,
        list_at(entries[p].metadata, "mood_tags"@).len(),
    );
}

/// A result that is at least as good as another in everything that counts has at least its
/// score, with weights that are not negative.
pub proof fn no_worse_result_scores_less(
    hits: Seq<RetrievalView>,
    entries: Seq<ItemView>,
    factors: Seq<HitFactors>,
    w: RetrievalWeights,
    query: Seq<Seq<char>>,
    words: Seq<Seq<Seq<char>>>,
    x: int,
    y: int,
    p: int,
    q: int,
    a: int,
    b: int,
)
    requires
        well_posed(hits, entries, factors, w, words),
        no_negative_weight(w),
        at_least_as_good(hits, entries, factors, query, words, x, y, p, q),
        0 <= a < attached(hits, entries, factors, w, query, words).len(),
        0 <= b < attached(hits, entries, factors, w, query, words).len(),
        attached(hits, entries, factors, w, query, words)[a].item.id == hits[x].item.id,
        attached(hits, entries, factors, w, query, words)[b].item.id == hits[y].item.id,
    ensures
        attached(hits, entries, factors, w, query, words)[a].fused_score >= attached(
            hits,
            entries,
            factors,
            w,
            query,
            words,
        )[b].fused_score,
{
    lemma_dominates(hits, entries, factors, w, query, words, x, y, p, q);
    lemma_final(hits, entries, factors, w, query, words, x, y);
    lemma_places(hits, entries, factors, w, query, words, x, y, a, b);
}

proof fn lemma_places(
    hits: Seq<RetrievalView>,
    entries: Seq<ItemView>,
    factors: Seq<HitFactors>,
    w: RetrievalWeights,
    query: Seq<Seq<char>>,
    words: Seq<Seq<Seq<char>>>,
    x: int,
    y: int,
    a: int,
    b: int,
)
    requires
        well_posed(hits, entries, factors, w, words),
        0 <= x < hits.len(),
        0 <= y < hits.len(),
        raw_list(hits, entries, factors, query, words)[x] is Some,
        raw_list(hits, entries, factors, query, words)[y] is Some,
        0 <= a < attached(hits, entries, factors, w, query, words).len(),
        0 <= b < attached(hits, entries, factors, w, query, words).len(),
        attached(hits, entries, factors, w, query, words)[a].item.id == hits[x].item.id,
        attached(hits, entries, factors, w, query, words)[b].item.id == hits[y].item.id,
    ensures
        ({
            let raws = raw_list(hits, entries, factors, query, words);
            let out = attached(hits, entries, factors, w, query, words);
            &&& out[a].fused_score == final_score(raws[x]->0, raws, w)
            &&& out[b].fused_score == final_score(raws[y]->0, raws, w)
            &&& final_score(raws[x]->0, raws, w) > final_score(raws[y]->0, raws, w) ==> a < b
        }),
{
    let s = lemma_result(hits, entries, factors, w, query, words, a);
    let t = lemma_result(hits, entries, factors, w, query, words, b);
    assert(s == x) by {
        if s < x {
            assert(hits[s].item.id != hits[x].item.id);
        } else if x < s {
            assert(hits[x].item.id != hits[s].item.id);
        }
    }
    assert(t == y) by {
        if t < y {
            assert(hits[t].item.id != hits[y].item.id);
        } else if y < t {
            assert(hits[y].item.id != hits[t].item.id);
        }
    }
    results_come_by_score(hits, entries, factors, w, query, words);
    let out = attached(hits, entries, factors, w, query, words);
    if b < a {
        assert(out[b].fused_score >= out[a].fused_score);
    }
}

/// Of two results the newer one comes first, where it is at least as good in everything else
/// and newness counts.
pub proof fn newer_result_comes_first(
    hits: Seq<RetrievalView>,
    entries: Seq<ItemView>,
    factors: Seq<HitFactors>,
    w: RetrievalWeights,
    query: Seq<Seq<char>>,
    words: Seq<Seq<Seq<char>>>,
    x: int,
    y: int,
    p: int,
    q: int,
    a: int,
    b: int,
)
    requires
        well_posed(hits, entries, factors, w, words),
        no_negative_weight(w),
        at_least_as_good(hits, entries, factors, query, words, x, y, p, q),
        0 <= a < attached(hits, entries, factors, w, query, words).len(),
        0 <= b < attached(hits, entries, factors, w, query, words).len(),
        attached(hits, entries, factors, w, query, words)[a].item.id == hits[x].item.id,
        attached(hits, entries, factors, w, query, words)[b].item.id == hits[y].item.id,
        w.recency > 0,
        factors[x].recency > factors[y].recency,
        forall|i: int| 0 <= i < factors.len() ==> 0 <= (#[trigger] factors[i]).recency <= 1_000_000,
    ensures
        a < b,
        attached(hits, entries, factors, w, query, words)[a].fused_score > attached(
            hits,
            entries,
            factors,
            w,
            query,
            words,
        )[b].fused_score,
{
    let raws = raw_list(hits, entries, factors, query, words);
    lemma_dominates(hits, entries, factors, w, query, words, x, y, p, q);
    lemma_final(hits, entries, factors, w, query, words, x, y);
    lemma_places(hits, entries, factors, w, query, words, x, y, a, b);
    assert forall|i: int| 0 <= i < raws.len() && (#[trigger] raws[i]) is Some implies 0 <= part(
        raws[i]->0,
        1,
    ) <= 1_000_000 by {
        assert(0 <= factors[i].recency <= 1_000_000);
    }
    lemma_spread(raws, 1, 0, 1_000_000);
    assert(raws[x] is Some && raws[y] is Some);
    lemma_normed((raws[x]->0).recency, (raws[y]->0).recency, spread(raws, 1));
}

/// Of two results the more important one comes first, where it is at least as good in
/// everything else and importance counts.
pub proof fn more_important_result_comes_first(
    hits: Seq<RetrievalView>,
    entries: Seq<ItemView>,
    factors: Seq<HitFactors>,
    w: RetrievalWeights,
    query: Seq<Seq<char>>,
    words: Seq<Seq<Seq<char>>>,
    x: int,
    y: int,
    p: int,
    q: int,
    a: int,
    b: int,
)
    requires
        well_posed(hits, entries, factors, w, words),
        no_negative_weight(w),
        at_least_as_good(hits, entries, factors, query, words, x, y, p, q),
        0 <= a < attached(hits, entries, factors, w, query, words).len(),
        0 <= b < attached(hits, entries, factors, w, query, words).len(),
        attached(hits, entries, factors, w, query, words)[a].item.id == hits[x].item.id,
        attached(hits, entries, factors, w, query, words)[b].item.id == hits[y].item.id,
        w.importance > 0,
        factors[x].decayed_importance >= factors[y].decayed_importance + 2,
        forall|i: int|
            0 <= i < factors.len() ==> 0 <= (#[trigger] factors[i]).decayed_importance <= 1_000_000,
    ensures
        a < b,
{
    let raws = raw_list(hits, entries, factors, query, words);
    lemma_dominates(hits, entries, factors, w, query, words, x, y, p, q);
    lemma_final(hits, entries, factors, w, query, words, x, y);
    lemma_places(hits, entries, factors, w, query, words, x, y, a, b);
    assert forall|i: int| 0 <= i < raws.len() && (#[trigger] raws[i]) is Some implies 0 <= part(
        raws[i]->0,
        2,
    ) <= 1_200_000 by {
        let at = last_with_id(entries, hits[i].item.id)->0;
        assert(0 <= factors[i].decayed_importance <= 1_000_000);
        lemma_raw(hits[i].fused_score, entries[at], factors[i], query, words[at]);
        lemma_felt(
            factors[i].decayed_importance,
            factors[i].decayed_importance,
            list_at(entries[at].metadata, "mood_tags"@).len(),
        );
    }
    lemma_spread(raws, 2, 0, 1_200_000);
    lemma_raw(hits[x].fused_score, entries[p], factors[x], query, words[p]);
    lemma_raw(hits[y].fused_score, entries[q], factors[y], query, words[q]);
    lemma_felt(
        factors[x].decayed_importance,
        factors[y].decayed_importance,
        list_at(entries[p].metadata, "mood_tags"@).len(),
    );
    assert(raws[x] is Some && raws[y] is Some);
    lemma_normed((raws[x]->0).importance, (raws[y]->0).importance, spread(raws, 2));
}

/// Of two results the one with an open hook comes before one without, where it is at least as
/// good in everything else and hooks count.
pub proof fn open_hook_comes_first(
    hits: Seq<RetrievalView>,
    entries: Seq<ItemView>,
    factors: Seq<HitFactors>,
    w: RetrievalWeights,
    query: Seq<Seq<char>>,
    words: Seq<Seq<Seq<char>>>,
    x: int,
    y: int,
    p: int,
    q: int,
    a: int,
    b: int,
)
    requires
        well_posed(hits, entries, factors, w, words),
        no_negative_weight(w),
        at_least_as_good(hits, entries, factors, query, words, x, y, p, q),
        0 <= a < attached(hits, entries, factors, w, query, words).len(),
        0 <= b < attached(hits, entries, factors, w, query, words).len(),
        attached(hits, entries, factors, w, query, words)[a].item.id == hits[x].item.id,
        attached(hits, entries, factors, w, query, words)[b].item.id == hits[y].item.id,
        w.hook_boost > 0,
        hook_is_open(entries[p]),
        !hook_is_open(entries[q]),
    ensures
        a < b,
{
    let raws = raw_list(hits, entries, factors, query, words);
    lemma_dominates(hits, entries, factors, w, query, words, x, y, p, q);
    lemma_final(hits, entries, factors, w, query, words, x, y);
    lemma_places(hits, entries, factors, w, query, words, x, y, a, b);
    lemma_spread(raws, 3, 0, 1_000_000);
    assert(raws[x] is Some && raws[y] is Some);
    lemma_normed((raws[x]->0).hook, (raws[y]->0).hook, spread(raws, 3));
}

/// Of two results the one that shares more with the query comes first, where it is at least as
/// good in everything else and that counts.
pub proof fn closer_result_comes_first(
    hits: Seq<RetrievalView>,
    entries: Seq<ItemView>,
    factors: Seq<HitFactors>,
    w: RetrievalWeights,
    query: Seq<Seq<char>>,
    words: Seq<Seq<Seq<char>>>,
    x: int,
    y: int,
    p: int,
    q: int,
    a: int,
    b: int,
)
    requires
        well_posed(hits, entries, factors, w, words),
        no_negative_weight(w),
        at_least_as_good(hits, entries, factors, query, words, x, y, p, q),
        0 <= a < attached(hits, entries, factors, w, query, words).len(),
        0 <= b < attached(hits, entries, factors, w, query, words).len(),
        attached(hits, entries, factors, w, query, words)[a].item.id == hits[x].item.id,
        attached(hits, entries, factors, w, query, words)[b].item.id == hits[y].item.id,
        w.need_sim > 0,
        jaccard(distinct_words(query), words[p]) > jaccard(distinct_words(query), words[q]),
    ensures
        a < b,
{
    let raws = raw_list(hits, entries, factors, query, words);
    lemma_dominates(hits, entries, factors, w, query, words, x, y, p, q);
    lemma_final(hits, entries, factors, w, query, words, x, y);
    lemma_places(hits, entries, factors, w, query, words, x, y, a, b);
    assert forall|i: int| 0 <= i < raws.len() && (#[trigger] raws[i]) is Some implies 0 <= part(
        raws[i]->0,
        4,
    ) <= 1_000_000 by {
        let at = last_with_id(entries, hits[i].item.id)->0;
        lemma_raw(hits[i].fused_score, entries[at], factors[i], query, words[at]);
    }
    lemma_spread(raws, 4, 0, 1_000_000);
    lemma_raw(hits[x].fused_score, entries[p], factors[x], query, words[p]);
    lemma_raw(hits[y].fused_score, entries[q], factors[y], query, words[q]);
    assert(raws[x] is Some && raws[y] is Some);
    lemma_normed((raws[x]->0).need, (raws[y]->0).need, spread(raws, 4));
}

/// Of two results the one that was found better comes first, where it is at least as good in
/// everything else and that counts. Scores of the search lie between nothing and just above
/// four, and differ by more than a rounding.
pub proof fn better_found_result_comes_first(
    hits: Seq<RetrievalView>,
    entries: Seq<ItemView>,
    factors: Seq<HitFactors>,
    w: RetrievalWeights,
    query: Seq<Seq<char>>,
    words: Seq<Seq<Seq<char>>>,
    x: int,
    y: int,
    p: int,
    q: int,
    a: int,
    b: int,
)
    requires
        well_posed(hits, entries, factors, w, words),
        no_negative_weight(w),
        at_least_as_good(hits, entries, factors, query, words, x, y, p, q),
        0 <= a < attached(hits, entries, factors, w, query, words).len(),
        0 <= b < attached(hits, entries, factors, w, query, words).len(),
        attached(hits, entries, factors, w, query, words)[a].item.id == hits[x].item.id,
        attached(hits, entries, factors, w, query, words)[b].item.id == hits[y].item.id,
        w.relevance > 0,
        hits[x].fused_score >= hits[y].fused_score + 40_000_000,
        forall|i: int|
            0 <= i < hits.len() ==> 0 <= (#[trigger] hits[i]).fused_score <= 4_001_000_000_000,
    ensures
        a < b,
{
    let raws = raw_list(hits, entries, factors, query, words);
    lemma_dominates(hits, entries, factors, w, query, words, x, y, p, q);
    lemma_final(hits, entries, factors, w, query, words, x, y);
    lemma_places(hits, entries, factors, w, query, words, x, y, a, b);
    lemma_relevances(hits, entries, factors, query, words);
    lemma_raw(hits[x].fused_score, entries[p], factors[x], query, words[p]);
    lemma_raw(hits[y].fused_score, entries[q], factors[y], query, words[q]);
    assert(haystack(entries[p]) == haystack(entries[q]));
    assert(names_in(query, entries[p]) == names_in(query, entries[q]));
    lemma_boosted(hits[x].fused_score, hits[y].fused_score, entries[p], entries[q], query);
    assert(raws[x] is Some && raws[y] is Some);
    lemma_normed((raws[x]->0).relevance, (raws[y]->0).relevance, spread(raws, 0));
}

proof fn lemma_relevances(
    hits: Seq<RetrievalView>,
    entries: Seq<ItemView>,
    factors: Seq<HitFactors>,
    query: Seq<Seq<char>>,
    words: Seq<Seq<Seq<char>>>,
)
    requires
        forall|i: int|
            0 <= i < hits.len() ==> 0 <= (#[trigger] hits[i]).fused_score <= 4_001_000_000_000,
    ensures
        ({
            let raws = raw_list(hits, entries, factors, query, words);
            &&& spread(raws, 0) matches Some(b) ==> 0 <= b.0 <= b.1 <= 17_000_000_000_000
            &&& forall|i: int|
                0 <= i < raws.len() && (#[trigger] raws[i]) is Some ==> spread(raws, 0) is Some && (spread(
                    raws,
                    0,
                )->0).0 <= part(raws[i]->0, 0) <= (spread(raws, 0)->0).1
        }),
{
    let raws = raw_list(hits, entries, factors, query, words);
    assert forall|i: int| 0 <= i < raws.len() && (#[trigger] raws[i]) is Some implies 0 <= part(
        raws[i]->0,
        0,
    ) <= 17_000_000_000_000 by {
        let at = last_with_id(entries, hits[i].item.id)->0;
        lemma_raw(hits[i].fused_score, entries[at], factors[i], query, words[at]);
        let n = hits[i].fused_score as int;
        let s = semantic_percent(semantic(entries[at])) as int;
        let t = source_percent(entries[at].metadata) as int;
        let e: int = if names_in(query, entries[at]) {
            3
        } else {
            1
        };
        assert(0 <= n <= 4_001_000_000_000);
        assert(0 <= n * s <= 4_001_000_000_000 * 115) by (nonlinear_arith)
            requires
                0 <= n <= 4_001_000_000_000,
                0 <= s <= 115,
        ;
        assert(0 <= n * s * t <= 4_001_000_000_000 * 115 * 120) by (nonlinear_arith)
            requires
                0 <= n * s <= 4_001_000_000_000 * 115,
                0 <= t <= 120,
        ;
        assert(0 <= n * s * t * e <= 4_001_000_000_000 * 115 * 120 * 3) by (nonlinear_arith)
            requires
                0 <= n * s * t <= 4_001_000_000_000 * 115 * 120,
                0 <= e <= 3,
        ;
    }
    lemma_spread(raws, 0, 0, 17_000_000_000_000);
}

// ---------------------------------------------------------------------------
// What lifts a memory
// ---------------------------------------------------------------------------

/// How near what a memory means is to the user: what the user is or said of the agent, then
/// the relationship, then shared times and projects, then references, then small talk.
pub open spec fn nearness(t: SemanticType) -> int {
    match t {
        SemanticType::User | SemanticType::Feedback => 4,
        SemanticType::Relationship => 3,
        SemanticType::SharedMemory | SemanticType::Project => 2,
        SemanticType::Reference => 1,
        SemanticType::General => 0,
    }
}

/// How directly a memory was learnt: said by the user, then of unknown source, then heard, then
/// only watched.
pub open spec fn directness(meta: Map<Seq<char>, crate::types::MetaView>) -> int {
    if text_at(meta, "knowledge_source"@) == Some("direct"@) {
        3
    } else if text_at(meta, "knowledge_source"@) == Some("heard"@) {
        1
    } else if text_at(meta, "knowledge_source"@) == Some("observed"@) {
        0
    } else {
        2
    }
}

proof fn lemma_sources(meta: Map<Seq<char>, crate::types::MetaView>)
    ensures
        source_percent(meta) == (if directness(meta) == 3 {
            120int
        } else if directness(meta) == 2 {
            100
        } else if directness(meta) == 1 {
            90
        } else {
            50
        }),
{
    reveal_strlit("direct");
    reveal_strlit("heard");
    reveal_strlit("observed");
    assert("direct"@.len() == 6);
    assert("heard"@.len() == 5);
    assert("observed"@.len() == 8);
}

/// What was found equally well counts the more the nearer it is to the user, the more directly
/// it was learnt, and where it holds a name of the query.
pub proof fn nearer_and_more_direct_counts_more(
    fused: i64,
    m: ItemView,
    n: ItemView,
    query: Seq<Seq<char>>,
)
    requires
        fused >= 10_000,
        nearness(semantic(m)) >= nearness(semantic(n)),
        directness(m.metadata) >= directness(n.metadata),
        names_in(query, n) ==> names_in(query, m),
    ensures
        boosted(fused, m, query) >= boosted(fused, n, query),
        nearness(semantic(m)) > nearness(semantic(n)) || directness(m.metadata) > directness(n.metadata) || (
        names_in(query, m) && !names_in(query, n)) ==> boosted(fused, m, query) > boosted(fused, n, query),
        names_in(query, m) && !names_in(query, n) && semantic(m) == semantic(n) && directness(m.metadata)
            == directness(n.metadata) ==> boosted(fused, m, query) >= 3 * boosted(fused, n, query),
{
    lemma_sources(m.metadata);
    lemma_sources(n.metadata);
    let s = semantic_percent(semantic(m)) as int;
    let t = source_percent(m.metadata) as int;
    let e: int = if names_in(query, m) {
        3
    } else {
        1
    };
    let u = semantic_percent(semantic(n)) as int;
    let v = source_percent(n.metadata) as int;
    let f: int = if names_in(query, n) {
        3
    } else {
        1
    };
    let k = s * t * e;
    let l = u * v * f;
    assert(k >= l && (s > u || t > v || e > f ==> k >= l + 200)) by (nonlinear_arith)
        requires
            k == s * t * e,
            l == u * v * f,
            s >= u >= 95,
            t >= v >= 50,
            e >= f >= 1,
            s > u ==> s >= u + 5,
            t > v ==> t >= v + 10,
            e > f ==> e == 3 && f == 1,
    {
        assert(s * t >= u * v);
        if s > u {
            assert(s * t >= u * t + 5 * t);
            assert(u * t >= u * v);
        }
        if t > v {
            assert(s * t >= s * v + 10 * s);
            assert(s * v >= u * v);
        }
        assert(u * v >= 4750);
        assert((s * t) * e >= (u * v) * f);
        assert((s * t) * e >= (s * t) * f);
    }
    assert(fused * s * t * e == fused * k) by (nonlinear_arith)
        requires
            k == s * t * e,
    ;
    assert(fused * u * v * f == fused * l) by (nonlinear_arith)
        requires
            l == u * v * f,
    ;
    assert(fused * k >= fused * l) by (nonlinear_arith)
        requires
            k >= l,
            fused >= 0,
    ;
    if s > u || t > v || e > f {
        assert(fused * k >= fused * l + 200 * 10_000) by (nonlinear_arith)
            requires
                k >= l + 200,
                fused >= 10_000,
        ;
    }
    if e == 3 && f == 1 && s == u && t == v {
        assert(k == 3 * l) by (nonlinear_arith)
            requires
                k == s * t * 3,
                l == s * t * 1,
        ;
        assert(fused * k == 3 * (fused * l)) by (nonlinear_arith)
            requires
                k == 3 * l,
        ;
    }
}

/// A word of the query of three characters at least, or with one that is not Chinese, is a name
/// that a memory holds when it stands in its content, whatever the case there; shorter Chinese
/// words are none.
pub proof fn names_are_long_or_foreign_words(query: Seq<Seq<char>>, m: ItemView, i: int)
    requires
        0 <= i < query.len(),
    ensures
        (query[i].len() >= 3 || has_foreign(query[i])) && has_sub(lowercase(m.content), query[i]) ==> names_in(
            query,
            m,
        ),
        (forall|k: int| 0 <= k < query.len() ==> (#[trigger] query[k]).len() < 3 && !has_foreign(query[k]))
            ==> !names_in(query, m),
{
    let t = query[i];
    if (t.len() >= 3 || has_foreign(t)) && has_sub(lowercase(m.content), t) {
        let c = lowercase(m.content);
        let h = haystack(m);
        let at = choose|at: int| occurs_at(c, t, at);
        assert(occurs_at(h, t, at)) by {
            assert(h.subrange(at, at + t.len()) =~= c.subrange(at, at + t.len()));
        }
        assert(has_sub(h, t));
    }
}

/// Moods make a memory matter more, by a fifteenth each and a fifth at most, and never less.
pub proof fn moods_make_a_memory_matter_more(decayed: i64, moods: nat, more: nat)
    requires
        0 <= decayed,
        moods <= more,
    ensures
        decayed <= felt_importance(decayed, moods) <= felt_importance(decayed, more),
        5 * felt_importance(decayed, more) <= 6 * decayed,
        felt_importance(decayed, 0) == decayed,
        moods >= 3 ==> 5 * felt_importance(decayed, moods) > 6 * decayed - 5,
{
    let k: int = if moods < 3 {
        moods as int
    } else {
        3
    };
    let l: int = if more < 3 {
        more as int
    } else {
        3
    };
    let d = decayed as int;
    assert(d * 15 <= d * (15 + k) <= d * (15 + l) && d * (15 + l) <= d * 18) by (nonlinear_arith)
        requires
            d >= 0,
            0 <= k <= l <= 3,
    ;
}

// ---------------------------------------------------------------------------
// How the parts are measured
// ---------------------------------------------------------------------------

proof fn lemma_spread_reached(raws: Seq<Option<RawScores>>, k: int)
    ensures
        spread(raws, k) matches Some(b) ==> b.0 <= b.1 && (exists|i: int|
            0 <= i < raws.len() && (#[trigger] raws[i]) is Some && part(raws[i]->0, k) == b.0) && (exists|
            i: int,
        |
            0 <= i < raws.len() && (#[trigger] raws[i]) is Some && part(raws[i]->0, k) == b.1),
        forall|i: int|
            0 <= i < raws.len() && (#[trigger] raws[i]) is Some ==> spread(raws, k) is Some && (spread(
                raws,
                k,
            )->0).0 <= part(raws[i]->0, k) <= (spread(raws, k)->0).1,
    decreases raws.len(),
{
    if raws.len() > 0 {
        let d = raws.drop_last();
        let n = raws.len() - 1;
        lemma_spread_reached(d, k);
        assert(raws.last() == raws[n]);
        assert forall|i: int| 0 <= i < raws.len() && (#[trigger] raws[i]) is Some implies spread(raws, k) is Some
            && (spread(raws, k)->0).0 <= part(raws[i]->0, k) <= (spread(raws, k)->0).1 by {
            if i < n {
                assert(d[i] == raws[i]);
            }
        }
        if let Some(b) = spread(d, k) {
            let lo = choose|i: int| 0 <= i < d.len() && (#[trigger] d[i]) is Some && part(d[i]->0, k) == b.0;
            let hi = choose|i: int| 0 <= i < d.len() && (#[trigger] d[i]) is Some && part(d[i]->0, k) == b.1;
            assert(d[lo] == raws[lo] && d[hi] == raws[hi]);
        }
    }
}

/// Each part of a score is measured between the least and the most that any result has of it:
/// the least counts nothing, the most counts in full, and what lies between counts by how far it
/// is from the least. Where all have the same, it counts in full for all.
pub proof fn parts_are_measured_from_least_to_most(
    raws: Seq<Option<RawScores>>,
    k: int,
    i: int,
    least: int,
    most: int,
)
    requires
        0 <= i < raws.len(),
        0 <= least < raws.len(),
        0 <= most < raws.len(),
        raws[i] is Some,
        raws[least] is Some,
        raws[most] is Some,
        forall|j: int|
            0 <= j < raws.len() && (#[trigger] raws[j]) is Some ==> part(raws[least]->0, k) <= part(
                raws[j]->0,
                k,
            ) <= part(raws[most]->0, k),
    ensures
        ({
            let x = part(raws[i]->0, k);
            let low = part(raws[least]->0, k);
            let high = part(raws[most]->0, k);
            let v = normed(x, spread(raws, k));
            &&& x == high ==> v == 1_000_000
            &&& x == low && low < high ==> v == 0
            &&& low < high ==> v * (high - low) <= (x - low) * 1_000_000 < (v + 1) * (high - low)
        }),
{
    lemma_spread_reached(raws, k);
    let b = spread(raws, k)->0;
    let lo = choose|j: int| 0 <= j < raws.len() && (#[trigger] raws[j]) is Some && part(raws[j]->0, k) == b.0;
    let hi = choose|j: int| 0 <= j < raws.len() && (#[trigger] raws[j]) is Some && part(raws[j]->0, k) == b.1;
    let x = part(raws[i]->0, k);
    let low = part(raws[least]->0, k);
    let high = part(raws[most]->0, k);
    assert(raws[lo] is Some && raws[hi] is Some);
    assert(b.0 == low && b.1 == high);
    if low < high {
        let a = (x - low) * 1_000_000;
        let d = high - low;
        let v = a / d;
        assert(v * d <= a < (v + 1) * d) by (nonlinear_arith)
            requires
                v == a / d,
                d > 0,
        ;
        if x == high {
            assert(v == 1_000_000) by (nonlinear_arith)
                requires
                    v == a / d,
                    a == d * 1_000_000,
                    d > 0,
            ;
        }
        if x == low {
            assert(v == 0) by (nonlinear_arith)
                requires
                    v == a / d,
                    a == 0,
                    d > 0,
            ;
        }
    }
}

/// A part counts as much as its weight says: where only one has a weight, the score is that part
/// in full measure times its weight.
pub proof fn weights_say_what_counts(r: RawScores, raws: Seq<Option<RawScores>>, w: RetrievalWeights)
    ensures
        ({
            let s = final_score(r, raws, w);
            &&& w.relevance == 0 && w.importance == 0 && w.hook_boost == 0 && w.need_sim == 0 ==> s == w.recency
                * normed(part(r, 1), spread(raws, 1))
            &&& w.recency == 0 && w.importance == 0 && w.hook_boost == 0 && w.need_sim == 0 ==> s == w.relevance
                * normed(part(r, 0), spread(raws, 0))
            &&& w.recency == 0 && w.relevance == 0 && w.hook_boost == 0 && w.need_sim == 0 ==> s
                == w.importance * normed(part(r, 2), spread(raws, 2))
            &&& w.recency == 0 && w.relevance == 0 && w.importance == 0 && w.need_sim == 0 ==> s
                == w.hook_boost * normed(part(r, 3), spread(raws, 3))
            &&& w.recency == 0 && w.relevance == 0 && w.importance == 0 && w.hook_boost == 0 ==> s
                == w.need_sim * normed(part(r, 4), spread(raws, 4))
        }),
        part(r, 0) == r.relevance && part(r, 1) == r.recency && part(r, 2) == r.importance && part(r, 3)
            == r.hook && part(r, 4) == r.need,
{
}

} // verus!
