//! What the ways to look memories up promise: the best come first, and what makes a memory
//! better than another.

use crate::rank::{order_of, order_sorts, ranked, ranking_gives_the_best};
use crate::select::{filter_from, filter_has};
use crate::strategy::{aged, aged_item, aged_items, aged_key, aged_results, auto_search, combined_score,
    damped, factor_at, fit_keys, hint_at, hinted, hybrid_rank, in_tags, keyword_search, known_hits,
    last_with_id, lemma_last_with_id, match_score, query_hits, scored_hit, vector_rank,
    vector_search, with_fit, word_hits, word_keys, word_matches, Ages, Found, VectorHit};
use crate::text::{byte_len, has_sub, lowercase, opt_text, words};
use crate::types::{item_views, micros_at, ItemView, MetaView};
use vstd::prelude::*;
use vstd::string::*;

verus! {

// ---------------------------------------------------------------------------
// By words
// ---------------------------------------------------------------------------

/// How many of the words stand in the text.
pub open spec fn words_in(terms: Seq<Seq<char>>, text: Seq<char>) -> nat {
    terms.filter(|t: Seq<char>| has_sub(text, t)).len()
}

/// How many of the words stand in one of the tags, whatever the case of the tags.
pub open spec fn words_in_tags(terms: Seq<Seq<char>>, tags: Seq<Seq<char>>) -> nat {
    terms.filter(
        |t: Seq<char>| exists|k: int| 0 <= k < tags.len() && has_sub(lowercase(#[trigger] tags[k]), t),
    ).len()
}

proof fn lemma_word_hits(m: ItemView, terms: Seq<Seq<char>>, n: nat, with_tags: bool)
    requires
        n <= terms.len(),
    ensures
        word_hits(m, terms, n, with_tags) == 10_000_000 * words_in(
            terms.take(n as int),
            lowercase(m.content),
        ) + (if with_tags {
            5_000_000 * words_in_tags(terms.take(n as int), m.tags)
        } else {
            0
        }),
    decreases n,
{
    reveal(Seq::filter);
    if n > 0 {
        lemma_word_hits(m, terms, (n - 1) as nat, with_tags);
        assert(terms.take(n as int).drop_last() =~= terms.take(n - 1));
        assert(terms.take(n as int).last() == terms[n - 1]);
        assert(in_tags(m, terms[n - 1]) == exists|k: int|
            0 <= k < m.tags.len() && has_sub(lowercase(#[trigger] m.tags[k]), terms[n - 1]));
    }
}

proof fn lemma_filter_len<T>(s: Seq<T>, test: spec_fn(T) -> bool)
    ensures
        s.filter(test).len() <= s.len(),
    decreases s.len(),
{
    reveal(Seq::filter);
    if s.len() > 0 {
        lemma_filter_len(s.drop_last(), test);
    }
}

/// What a memory is worth to a search by words, in ten-millionths: one for each word of the
/// query in its content, a half for each in its tags, and a tenth of its importance. A query
/// without words counts as one word, which only the content may hold.
pub open spec fn word_worth(m: ItemView, query: Seq<char>) -> int {
    let q = lowercase(query);
    let terms = words(q);
    m.importance + (if terms.len() > 0 {
        10_000_000 * words_in(terms, lowercase(m.content)) + 5_000_000 * words_in_tags(terms, m.tags)
    } else if has_sub(lowercase(m.content), q) {
        10_000_000
    } else {
        0
    })
}

proof fn lemma_query_hits(m: ItemView, query: Seq<char>)
    requires
        words(lowercase(query)).len() <= usize::MAX,
    ensures
        query_hits(m, query, true) + m.importance == word_worth(m, query),
        0 <= query_hits(m, query, true) <= 15_000_000 * usize::MAX,
{
    let terms = words(lowercase(query));
    if terms.len() > 0 {
        lemma_word_hits(m, terms, terms.len(), true);
        assert(terms.take(terms.len() as int) =~= terms);
        lemma_filter_len(terms, |t: Seq<char>| has_sub(lowercase(m.content), t));
        lemma_filter_len(
            terms,
            |t: Seq<char>|
                exists|k: int| 0 <= k < m.tags.len() && has_sub(lowercase(#[trigger] m.tags[k]), t),
        );
    }
}

/// A match counts the words of the query in the content of a memory, one each, and a tenth of its
/// importance; its tags do not count.
pub proof fn match_counts_words_of_the_content(m: ItemView, query: Seq<char>)
    ensures
        words(lowercase(query)).len() > 0 ==> match_score(m, query) == m.importance + 10_000_000 * words_in(
            words(lowercase(query)),
            lowercase(m.content),
        ),
        words(lowercase(query)).len() == 0 ==> match_score(m, query) == m.importance + (if has_sub(
            lowercase(m.content),
            lowercase(query),
        ) {
            10_000_000
        } else {
            0int
        }),
{
    let terms = words(lowercase(query));
    lemma_word_hits(m, terms, terms.len(), false);
    assert(terms.take(terms.len() as int) =~= terms);
}

/// A search by words gives the memories that are worth the most to it, best first: none stands
/// before one of larger worth, and one that has a word of the query and is left out is worth
/// no more than any that is given.
pub proof fn keyword_search_gives_the_best(entries: Seq<ItemView>, query: Seq<char>, limit: int)
    requires
        0 <= limit,
        words(lowercase(query)).len() <= usize::MAX,
        exists|k: int|
            0 <= k < entries.len() && word_worth(#[trigger] entries[k], query) > entries[k].importance,
    ensures
        ({
            let r = keyword_search(entries, query, limit);
            &&& forall|i: int, j: int|
                0 <= i < j < r.len() ==> word_worth(#[trigger] r[i], query) >= word_worth(
                    #[trigger] r[j],
                    query,
                )
            &&& forall|i: int|
                0 <= i < r.len() ==> entries.contains(#[trigger] r[i]) && word_worth(r[i], query)
                    > r[i].importance
            &&& forall|i: int, k: int|
                0 <= i < r.len() && 0 <= k < entries.len() && word_worth(#[trigger] entries[k], query)
                    > entries[k].importance && !r.contains(entries[k]) ==> word_worth(
                    #[trigger] r[i],
                    query,
                ) >= word_worth(entries[k], query)
            &&& r.len() <= limit
            &&& r.len() == limit || forall|k: int|
                0 <= k < entries.len() && word_worth(#[trigger] entries[k], query) > entries[k].importance
                    ==> r.contains(entries[k])
        }),
{
    let test = |m: ItemView| query_hits(m, query, true) > 0;
    let found = word_matches(entries, query);
    let keys = word_keys(found, query);
    let worth = |m: ItemView| word_worth(m, query);
    assert forall|i: int| 0 <= i < found.len() implies #[trigger] keys[i] == worth(found[i]) by {
        lemma_query_hits(found[i], query);
    }
    let k = choose|k: int|
        0 <= k < entries.len() && word_worth(#[trigger] entries[k], query) > entries[k].importance;
    lemma_query_hits(entries[k], query);
    filter_has(entries, test, k);
    assert(found.len() > 0);
    ranking_gives_the_best(found, keys, limit, worth);
    let r = keyword_search(entries, query, limit);
    assert(r == ranked(found, keys, limit));
    assert forall|i: int| 0 <= i < r.len() implies entries.contains(#[trigger] r[i]) && word_worth(
        r[i],
        query,
    ) > r[i].importance by {
        let at = found.index_of(r[i]);
        filter_from(entries, test, at);
        lemma_query_hits(r[i], query);
    }
    assert forall|i: int, j: int| 0 <= i < j < r.len() implies word_worth(#[trigger] r[i], query)
        >= word_worth(#[trigger] r[j], query) by {
        assert(worth(r[i]) >= worth(r[j]));
    }
    assert forall|i: int, k: int|
        0 <= i < r.len() && 0 <= k < entries.len() && word_worth(#[trigger] entries[k], query)
            > entries[k].importance && !r.contains(entries[k]) implies word_worth(#[trigger] r[i], query)
        >= word_worth(entries[k], query) by {
        lemma_query_hits(entries[k], query);
        filter_has(entries, test, k);
        let x = found.index_of(entries[k]);
        assert(found[x] == entries[k]);
        assert(worth(r[i]) >= worth(found[x]));
    }
    if r.len() != limit {
        assert forall|k: int|
            0 <= k < entries.len() && word_worth(#[trigger] entries[k], query) > entries[k].importance implies r.contains(
        entries[k]) by {
            lemma_query_hits(entries[k], query);
            filter_has(entries, test, k);
            let x = found.index_of(entries[k]);
            assert(found[x] == entries[k]);
        }
    }
}

/// Where no memory has a word of the query, the first ones are given as they stand.
pub proof fn keyword_search_without_matches(entries: Seq<ItemView>, query: Seq<char>, limit: int)
    requires
        0 <= limit,
        words(lowercase(query)).len() <= usize::MAX,
        forall|k: int|
            0 <= k < entries.len() ==> word_worth(#[trigger] entries[k], query) == entries[k].importance,
    ensures
        keyword_search(entries, query, limit) == (if limit < entries.len() {
            entries.take(limit)
        } else {
            entries
        }),
{
    let test = |m: ItemView| query_hits(m, query, true) > 0;
    let found = word_matches(entries, query);
    if found.len() > 0 {
        filter_from(entries, test, 0);
        let k = entries.index_of(found[0]);
        assert(entries[k] == found[0]);
        lemma_query_hits(entries[k], query);
    }
}

proof fn lemma_filter_more<T>(s: Seq<T>, a: spec_fn(T) -> bool, b: spec_fn(T) -> bool)
    requires
        forall|k: int| 0 <= k < s.len() && a(#[trigger] s[k]) ==> b(s[k]),
    ensures
        s.filter(a).len() <= s.filter(b).len(),
        (exists|k: int| 0 <= k < s.len() && b(#[trigger] s[k]) && !a(s[k])) ==> s.filter(a).len() < s.filter(
            b,
        ).len(),
    decreases s.len(),
{
    reveal(Seq::filter);
    if s.len() > 0 {
        let d = s.drop_last();
        assert forall|k: int| 0 <= k < d.len() && a(#[trigger] d[k]) implies b(d[k]) by {
            assert(d[k] == s[k]);
        }
        lemma_filter_more(d, a, b);
        assert(s.last() == s[s.len() - 1]);
        if exists|k: int| 0 <= k < s.len() && b(#[trigger] s[k]) && !a(s[k]) {
            let k = choose|k: int| 0 <= k < s.len() && b(#[trigger] s[k]) && !a(s[k]);
            if k < d.len() {
                assert(d[k] == s[k]);
            }
        }
    }
}

/// A memory whose content and tags hold every word of the query that another's hold, whose
/// content holds one more, and that is no less important, comes before the other.
pub proof fn memory_with_more_words_comes_first(
    entries: Seq<ItemView>,
    query: Seq<char>,
    limit: int,
    i: int,
    j: int,
    t: int,
)
    requires
        0 <= limit,
        words(lowercase(query)).len() <= usize::MAX,
        0 <= i < keyword_search(entries, query, limit).len(),
        0 <= j < keyword_search(entries, query, limit).len(),
        ({
            let terms = words(lowercase(query));
            let better = keyword_search(entries, query, limit)[i];
            let worse = keyword_search(entries, query, limit)[j];
            &&& better.importance >= worse.importance
            &&& forall|k: int|
                0 <= k < terms.len() && has_sub(lowercase(worse.content), #[trigger] terms[k]) ==> has_sub(
                    lowercase(better.content),
                    terms[k],
                )
            &&& forall|k: int, x: int|
                0 <= k < terms.len() && 0 <= x < worse.tags.len() && has_sub(
                    lowercase(#[trigger] worse.tags[x]),
                    #[trigger] terms[k],
                ) ==> exists|y: int|
                    0 <= y < better.tags.len() && has_sub(lowercase(#[trigger] better.tags[y]), terms[k])
            &&& 0 <= t < terms.len()
            &&& has_sub(lowercase(better.content), terms[t])
            &&& !has_sub(lowercase(worse.content), terms[t])
        }),
    ensures
        i < j,
{
    let terms = words(lowercase(query));
    let r = keyword_search(entries, query, limit);
    let better = r[i];
    let worse = r[j];
    lemma_filter_more(
        terms,
        |s: Seq<char>| has_sub(lowercase(worse.content), s),
        |s: Seq<char>| has_sub(lowercase(better.content), s),
    );
    lemma_filter_more(
        terms,
        |s: Seq<char>|
            exists|k: int| 0 <= k < worse.tags.len() && has_sub(lowercase(#[trigger] worse.tags[k]), s),
        |s: Seq<char>|
            exists|k: int| 0 <= k < better.tags.len() && has_sub(lowercase(#[trigger] better.tags[k]), s),
    );
    assert(word_worth(better, query) > word_worth(worse, query));
    let test = |m: ItemView| query_hits(m, query, true) > 0;
    let found = word_matches(entries, query);
    if found.len() > 0 {
        filter_from(entries, test, 0);
        let k = entries.index_of(found[0]);
        assert(entries[k] == found[0]);
        lemma_query_hits(entries[k], query);
        assert(word_worth(entries[k], query) > entries[k].importance);
        keyword_search_gives_the_best(entries, query, limit);
    } else {
        let k = entries.index_of(better);
        if limit < entries.len() {
            assert(entries[i] == better);
        } else {
            assert(entries[i] == better);
        }
        lemma_query_hits(better, query);
        assert(has_sub(lowercase(better.content), terms[t]));
        filter_has(terms, |s: Seq<char>| has_sub(lowercase(better.content), s), t);
        assert(word_worth(better, query) > better.importance);
        filter_has(entries, test, i);
        assert(false);
    }
}

// ---------------------------------------------------------------------------
// By fit
// ---------------------------------------------------------------------------

/// How well a memory fits a query, in ten-millionths: one for each word of the query in its
/// content, and a tenth of its importance.
pub open spec fn fit(m: ItemView, query: Seq<char>) -> int {
    let q = lowercase(query);
    let terms = words(q);
    m.importance + (if terms.len() > 0 {
        10_000_000 * words_in(terms, lowercase(m.content))
    } else if has_sub(lowercase(m.content), q) {
        10_000_000
    } else {
        0
    })
}

/// The fit, and three tenths more where the query stands in the content as a whole.
pub open spec fn fit_with_phrase(m: ItemView, query: Seq<char>) -> int {
    fit(m, query) + (if has_sub(lowercase(m.content), lowercase(query)) {
        3_000_000int
    } else {
        0
    })
}

proof fn lemma_fit(m: ItemView, query: Seq<char>)
    requires
        words(lowercase(query)).len() <= usize::MAX,
    ensures
        match_score(m, query) == fit(m, query),
        m.importance <= fit(m, query) <= m.importance + 10_000_000 * (usize::MAX as int),
{
    let terms = words(lowercase(query));
    if terms.len() > 0 {
        lemma_word_hits(m, terms, terms.len(), false);
        assert(terms.take(terms.len() as int) =~= terms);
        lemma_filter_len(terms, |t: Seq<char>| has_sub(lowercase(m.content), t));
    }
}

proof fn lemma_fit_keys(entries: Seq<ItemView>, query: Seq<char>, phrase: bool, limit: int)
    requires
        0 <= limit,
        words(lowercase(query)).len() <= usize::MAX,
    ensures
        forall|i: int|
            0 <= i < entries.len() ==> #[trigger] fit_keys(entries, query, phrase)[i] == (if phrase {
                fit_with_phrase(entries[i], query)
            } else {
                fit(entries[i], query)
            }),
{
    assert forall|i: int| 0 <= i < entries.len() implies #[trigger] fit_keys(entries, query, phrase)[i] == (
    if phrase {
        fit_with_phrase(entries[i], query)
    } else {
        fit(entries[i], query)
    }) by {
        lemma_fit(entries[i], query);
    }
}

/// Where the vector store finds nothing, the memories that fit best are given, best first, as
/// many as are asked for.
pub proof fn vector_search_falls_back_to_fit(
    entries: Seq<ItemView>,
    query: Seq<char>,
    ages: Ages,
    limit: int,
)
    requires
        0 <= limit,
        words(lowercase(query)).len() <= usize::MAX,
    ensures
        ({
            let r = vector_search(entries, query, Seq::empty(), ages, limit);
            &&& forall|i: int, j: int|
                0 <= i < j < r.len() ==> fit(#[trigger] r[i], query) >= fit(#[trigger] r[j], query)
            &&& forall|i: int| 0 <= i < r.len() ==> entries.contains(#[trigger] r[i])
            &&& forall|i: int, k: int|
                0 <= i < r.len() && 0 <= k < entries.len() && !r.contains(#[trigger] entries[k]) ==> fit(
                    #[trigger] r[i],
                    query,
                ) >= fit(entries[k], query)
            &&& r.len() == limit || r.len() == entries.len()
        }),
{
    let worth = |m: ItemView| fit(m, query);
    lemma_fit_keys(entries, query, false, limit);
    let keys = fit_keys(entries, query, false);
    ranking_gives_the_best(entries, keys, limit, worth);
    let r = vector_search(entries, query, Seq::empty(), ages, limit);
    assert(r == ranked(entries, keys, limit));
    assert forall|i: int, j: int| 0 <= i < j < r.len() implies fit(#[trigger] r[i], query) >= fit(
        #[trigger] r[j],
        query,
    ) by {
        assert(worth(r[i]) >= worth(r[j]));
    }
    assert forall|i: int, k: int|
        0 <= i < r.len() && 0 <= k < entries.len() && !r.contains(#[trigger] entries[k]) implies fit(
        #[trigger] r[i],
        query,
    ) >= fit(entries[k], query) by {
        assert(worth(r[i]) >= worth(entries[k]));
    }
}

/// A search by fit gives memories of the list with nothing but the fit noted in them, those
/// that fit better first, where the query as a whole counts for three tenths of a word; one
/// that is left out fits no better than any that is given.
pub proof fn hybrid_search_gives_the_best_fit(entries: Seq<ItemView>, query: Seq<char>, limit: int)
    requires
        0 <= limit,
        words(lowercase(query)).len() <= usize::MAX,
    ensures
        ({
            let r = hybrid_rank(entries, query, limit);
            &&& forall|i: int, j: int|
                0 <= i < j < r.len() ==> fit_with_phrase(#[trigger] r[i], query) >= fit_with_phrase(
                    #[trigger] r[j],
                    query,
                )
            &&& forall|i: int|
                0 <= i < r.len() ==> exists|k: int|
                    0 <= k < entries.len() && (#[trigger] r[i]) == (ItemView {
                        metadata: r[i].metadata,
                        ..#[trigger] entries[k]
                    })
            &&& forall|i: int, k: int|
                0 <= i < r.len() && 0 <= k < entries.len() && fit_with_phrase(
                    #[trigger] entries[k],
                    query,
                ) > fit_with_phrase(#[trigger] r[i], query) ==> exists|j: int|
                    0 <= j < i && (#[trigger] r[j]).id == entries[k].id
            &&& r.len() == limit || r.len() == entries.len()
        }),
{
    let worth = |m: ItemView| fit_with_phrase(m, query);
    lemma_fit_keys(entries, query, true, limit);
    let keys = fit_keys(entries, query, true);
    ranking_gives_the_best(entries, keys, limit, worth);
    let best = ranked(entries, keys, limit);
    let r = hybrid_rank(entries, query, limit);
    assert forall|i: int| 0 <= i < r.len() implies #[trigger] r[i] == with_fit(best[i], query)
        && fit_with_phrase(r[i], query) == worth(best[i]) by {}
    assert forall|i: int, j: int| 0 <= i < j < r.len() implies fit_with_phrase(#[trigger] r[i], query)
        >= fit_with_phrase(#[trigger] r[j], query) by {
        assert(worth(best[i]) >= worth(best[j]));
    }
    assert forall|i: int| 0 <= i < r.len() implies exists|k: int|
        0 <= k < entries.len() && (#[trigger] r[i]) == (ItemView {
            metadata: r[i].metadata,
            ..#[trigger] entries[k]
        }) by {
        let k = entries.index_of(best[i]);
        assert(entries[k] == best[i]);
    }
    assert forall|i: int, k: int|
        0 <= i < r.len() && 0 <= k < entries.len() && fit_with_phrase(#[trigger] entries[k], query)
            > fit_with_phrase(#[trigger] r[i], query) implies exists|j: int|
        0 <= j < i && (#[trigger] r[j]).id == entries[k].id by {
        if !best.contains(entries[k]) {
            assert(worth(best[i]) >= worth(entries[k]));
        }
        let j = best.index_of(entries[k]);
        assert(r[j].id == entries[k].id);
        if j >= i {
            if j > i {
                assert(worth(best[i]) >= worth(best[j]));
            }
            assert(false);
        }
    }
}

/// What a search by fit notes is the fit in millionths, rounded down.
pub proof fn noted_fit_is_the_fit(m: ItemView, query: Seq<char>)
    requires
        words(lowercase(query)).len() <= usize::MAX,
        fit(m, query) <= 1_000_000_000_000_000_000,
        fit(m, query) >= -1_000_000_000_000_000_000,
    ensures
        with_fit(m, query).metadata["combined_score"@] matches MetaView::Micros(c) && c * 10 <= fit(m, query)
            < c * 10 + 10,
{
    lemma_fit(m, query);
}

// ---------------------------------------------------------------------------
// By similarity
// ---------------------------------------------------------------------------

/// The share `x / (1 + x)` of a fit that is not negative lies between nothing and one and
/// grows with it, and of two hits with the same fit the one that is more alike by more than a
/// millionth has the larger score; three quarters of the score are likeness.
pub proof fn likeness_counts_three_quarters(similarity: i64, more: i64, x: int, y: int)
    requires
        0 <= x <= y,
        -1_000_000_000 <= similarity <= more <= 1_000_000_000,
    ensures
        combined_score(similarity, x) <= combined_score(more, x),
        combined_score(similarity, x) <= combined_score(similarity, y),
        more >= similarity + 2 ==> combined_score(similarity, x) < combined_score(more, x),
        3 * similarity <= 4 * combined_score(similarity, x) + 3,
        4 * combined_score(similarity, x) <= 3 * similarity + 1_000_000,
        x == 0 ==> combined_score(4, x) == 3,
        x == 10_000_000 ==> combined_score(0, x) == 125_000,
{
    lemma_damped(x, y);
}

proof fn lemma_damped(x: int, y: int)
    requires
        0 <= x <= y,
    ensures
        0 <= damped(x) <= damped(y) <= 1_000_000,
        x == 0 ==> damped(x) == 0,
        x == 10_000_000 ==> damped(x) == 500_000,
{
    let d = 10_000_000 + x;
    let e = 10_000_000 + y;
    let f = x * 1_000_000 / d;
    let g = y * 1_000_000 / e;
    assert(f * d <= x * 1_000_000 < (f + 1) * d && 0 <= f) by (nonlinear_arith)
        requires
            f == x * 1_000_000 / d,
            d > 0,
            x >= 0,
    ;
    if x == 10_000_000 {
        assert(f * 20_000_000 <= 10_000_000_000_000 < (f + 1) * 20_000_000);
    }
    assert(y * 1_000_000 < (g + 1) * e && g <= 1_000_000) by (nonlinear_arith)
        requires
            g == y * 1_000_000 / e,
            e > 0,
            0 <= y <= e,
    ;
    assert(x * e <= y * d) by (nonlinear_arith)
        requires
            d == 10_000_000 + x,
            e == 10_000_000 + y,
            0 <= x <= y,
    ;
    assert(f <= g) by (nonlinear_arith)
        requires
            f * d <= x * 1_000_000,
            y * 1_000_000 < (g + 1) * e,
            x * e <= y * d,
            d > 0,
            e > 0,
    {
        assert((f * d) * e <= (x * 1_000_000) * e);
        assert((y * 1_000_000) * d < ((g + 1) * e) * d);
        assert((x * 1_000_000) * e == (x * e) * 1_000_000);
        assert((y * 1_000_000) * d == (y * d) * 1_000_000);
        assert(f * (d * e) < (g + 1) * (d * e));
    }
}

/// The number that is noted under a key, in millionths.
pub open spec fn noted(m: ItemView, key: Seq<char>) -> int {
    match m.metadata[key] {
        MetaView::Micros(n) => n as int,
        _ => 0,
    }
}

proof fn lemma_known_hit(entries: Seq<ItemView>, hits: Seq<VectorHit>, query: Seq<char>, i: int) -> (h: int)
    requires
        0 <= i < known_hits(entries, hits, query).len(),
    ensures
        0 <= h < hits.len(),
        last_with_id(entries, hits[h].memory_id@) is Some,
        ({
            let m = entries[last_with_id(entries, hits[h].memory_id@)->0];
            known_hits(entries, hits, query)[i] == (
                scored_hit(m, hits[h].similarity, query),
                combined_score(hits[h].similarity, match_score(m, query)) as i128,
            )
        }),
    decreases hits.len(),
{
    let rest = known_hits(entries, hits.drop_last(), query);
    if i < rest.len() {
        lemma_known_hit(entries, hits.drop_last(), query, i)
    } else {
        hits.len() - 1
    }
}

proof fn lemma_note_keys()
    ensures
        "vector_similarity"@ != "match_score"@,
        "vector_similarity"@ != "combined_score"@,
        "match_score"@ != "combined_score"@,
{
    reveal_strlit("vector_similarity");
    reveal_strlit("match_score");
    reveal_strlit("combined_score");
    assert("vector_similarity"@.len() == 17);
    assert("match_score"@.len() == 11);
    assert("combined_score"@.len() == 14);
}

/// The memories of the hits of the vector store come by what is noted as their combined score,
/// largest first; each belongs to a hit, whose likeness is noted with it.
pub proof fn vector_hits_come_best_first(
    entries: Seq<ItemView>,
    hits: Seq<VectorHit>,
    query: Seq<char>,
    limit: int,
)
    requires
        0 <= limit,
    ensures
        ({
            let r = vector_rank(entries, hits, query, limit);
            &&& forall|i: int, j: int|
                0 <= i < j < r.len() ==> noted(#[trigger] r[i], "combined_score"@) >= noted(
                    #[trigger] r[j],
                    "combined_score"@,
                )
            &&& forall|i: int|
                0 <= i < r.len() ==> exists|h: int|
                    0 <= h < hits.len() && (#[trigger] hits[h]).memory_id@ == (#[trigger] r[i]).id && noted(
                        r[i],
                        "vector_similarity"@,
                    ) == hits[h].similarity
            &&& r.len() <= limit
        }),
{
    lemma_note_keys();
    let known = known_hits(entries, hits, query);
    let items = known.map_values(|p: (ItemView, i128)| p.0);
    let keys = known.map_values(|p: (ItemView, i128)| p.1);
    let worth = |m: ItemView| noted(m, "combined_score"@);
    assert forall|i: int| 0 <= i < items.len() implies #[trigger] keys[i] == worth(items[i]) by {
        let h = lemma_known_hit(entries, hits, query, i);
    }
    ranking_gives_the_best(items, keys, limit, worth);
    let r = vector_rank(entries, hits, query, limit);
    assert forall|i: int, j: int| 0 <= i < j < r.len() implies noted(#[trigger] r[i], "combined_score"@)
        >= noted(#[trigger] r[j], "combined_score"@) by {
        assert(worth(r[i]) >= worth(r[j]));
    }
    assert forall|i: int| 0 <= i < r.len() implies exists|h: int|
        0 <= h < hits.len() && (#[trigger] hits[h]).memory_id@ == (#[trigger] r[i]).id && noted(
            r[i],
            "vector_similarity"@,
        ) == hits[h].similarity by {
        let at = items.index_of(r[i]);
        let h = lemma_known_hit(entries, hits, query, at);
        lemma_last_with_id(entries, hits[h].memory_id@);
        assert(items[at] == r[i]);
        assert(hits[h].memory_id@ == r[i].id);
    }
}

/// Of two hits whose memories differ in nothing but the identifier the one that is more alike
/// comes first.
pub proof fn more_alike_comes_first(
    entries: Seq<ItemView>,
    hits: Seq<VectorHit>,
    query: Seq<char>,
    limit: int,
    a: int,
    b: int,
    i: int,
    j: int,
)
    requires
        0 <= limit,
        words(lowercase(query)).len() <= usize::MAX,
        0 <= a < entries.len(),
        0 <= b < entries.len(),
        forall|k: int, l: int|
            0 <= k < l < entries.len() ==> (#[trigger] entries[k]).id != (#[trigger] entries[l]).id,
        entries[a] == (ItemView { id: entries[a].id, ..entries[b] }),
        entries[b].importance >= 0,
        0 <= i < vector_rank(entries, hits, query, limit).len(),
        0 <= j < vector_rank(entries, hits, query, limit).len(),
        vector_rank(entries, hits, query, limit)[i].id == entries[a].id,
        vector_rank(entries, hits, query, limit)[j].id == entries[b].id,
        forall|h: int|
            0 <= h < hits.len() ==> -1_000_000_000 <= (#[trigger] hits[h]).similarity <= 1_000_000_000,
        forall|h: int, g: int|
            0 <= h < hits.len() && 0 <= g < hits.len() && (#[trigger] hits[h]).memory_id@ == entries[a].id && (
            #[trigger] hits[g]).memory_id@ == entries[b].id ==> hits[h].similarity >= hits[g].similarity + 2,
    ensures
        i < j,
{
    lemma_note_keys();
    vector_hits_come_best_first(entries, hits, query, limit);
    let r = vector_rank(entries, hits, query, limit);
    let known = known_hits(entries, hits, query);
    let items = known.map_values(|p: (ItemView, i128)| p.0);
    let keys = known.map_values(|p: (ItemView, i128)| p.1);
    order_sorts(keys);
    let p = order_of(keys);
    assert(r[i] == items[p[i]] && r[j] == items[p[j]]);
    let h = lemma_known_hit(entries, hits, query, p[i]);
    let g = lemma_known_hit(entries, hits, query, p[j]);
    lemma_last_with_id(entries, hits[h].memory_id@);
    lemma_last_with_id(entries, hits[g].memory_id@);
    let x = last_with_id(entries, hits[h].memory_id@)->0;
    let y = last_with_id(entries, hits[g].memory_id@)->0;
    assert(x == a) by {
        if x < a {
            assert(entries[x].id != entries[a].id);
        } else if a < x {
            assert(entries[a].id != entries[x].id);
        }
    }
    assert(y == b) by {
        if y < b {
            assert(entries[y].id != entries[b].id);
        } else if b < y {
            assert(entries[b].id != entries[y].id);
        }
    }
    assert(hits[h].similarity >= hits[g].similarity + 2);
    lemma_fit(entries[a], query);
    lemma_fit(entries[b], query);
    let f = match_score(entries[b], query);
    assert(match_score(entries[a], query) == f);
    likeness_counts_three_quarters(hits[g].similarity, hits[h].similarity, f, f);
    assert(noted(r[i], "combined_score"@) > noted(r[j], "combined_score"@));
}

// ---------------------------------------------------------------------------
// Ageing
// ---------------------------------------------------------------------------

/// A score that is not negative never grows by ageing; all of it is left where the factor is
/// one, the smaller the factor the less is left, and of what is left only three tenths where
/// the time to live is over.
pub proof fn ageing_takes_from_the_score(score: int, factor: int, more: int)
    requires
        0 <= score,
        0 <= factor <= more <= 1_000_000,
    ensures
        0 <= aged(score, factor, false) <= aged(score, more, false) <= score,
        aged(score, 1_000_000, false) == score,
        10 * aged(score, factor, true) <= 3 * aged(score, factor, false) < 10 * aged(score, factor, true) + 10,
{
    assert(0 <= score * factor <= score * more && score * more <= score * 1_000_000) by (nonlinear_arith)
        requires
            0 <= score,
            0 <= factor <= more <= 1_000_000,
    ;
    assert(score * 1_000_000 / 1_000_000 == score);
}

/// Only knowledge ages; what is noted of it is what ageing leaves of its combined score, and a
/// memory whose time to live is over is marked. Everything else stays as it is.
pub proof fn only_knowledge_ages(m: ItemView, factor: i64, now: i64)
    requires
        0 <= factor <= 1_000_000,
    ensures
        m.memory_type != "knowledge"@ ==> aged_item(m, factor, now) == m,
        aged_item(m, factor, now) == (ItemView { metadata: aged_item(m, factor, now).metadata, ..m }),
        m.memory_type == "knowledge"@ ==> {
            let over = micros_at(m.metadata, "expires_at"@) matches Some(t) && now * 1000 >= t;
            let n = aged_item(m, factor, now);
            &&& n.metadata["recency_factor"@] == MetaView::Micros(factor)
            &&& over ==> n.metadata["expired"@] == MetaView::Bool(true)
            &&& micros_at(m.metadata, "combined_score"@) matches Some(s) ==> (0 <= s <= i64::MAX
                ==> n.metadata["temporal_adjusted_score"@] == MetaView::Micros(
                aged(s as int, factor as int, over) as i64,
            ))
        },
{
    reveal_strlit("recency_factor");
    reveal_strlit("temporal_adjusted_score");
    reveal_strlit("expired");
    assert("recency_factor"@.len() == 14);
    assert("temporal_adjusted_score"@.len() == 23);
    assert("expired"@.len() == 7);
    if let Some(s) = micros_at(m.metadata, "combined_score"@) {
        if s >= 0 {
            ageing_takes_from_the_score(s as int, factor as int, 1_000_000);
        }
    }
}

/// What decides the place of a memory after ageing: what ageing left of its score, else its
/// combined score, else nothing.
pub open spec fn place_score(m: ItemView) -> int {
    match micros_at(m.metadata, "temporal_adjusted_score"@) {
        Some(s) => s as int,
        None => match micros_at(m.metadata, "combined_score"@) {
            Some(s) => s as int,
            None => 0,
        },
    }
}

/// The results after ageing are the same memories, and those with more of their score left
/// come first.
pub proof fn aged_results_come_best_first(entries: Seq<ItemView>, items: Seq<ItemView>, ages: Ages)
    ensures
        ({
            let r = aged_results(entries, items, ages);
            &&& r.len() == items.len()
            &&& forall|i: int, j: int|
                0 <= i < j < r.len() ==> place_score(#[trigger] r[i]) >= place_score(#[trigger] r[j])
            &&& forall|k: int|
                0 <= k < items.len() ==> r.contains(
                    aged_item(
                        #[trigger] items[k],
                        factor_at(entries, ages.factors@, items[k].timestamp),
                        ages.now,
                    ),
                )
        }),
{
    let factors = items.map_values(|m: ItemView| factor_at(entries, ages.factors@, m.timestamp));
    let aged_all = aged_items(items, factors, ages.now);
    let keys = aged_all.map_values(|m: ItemView| aged_key(m));
    let worth = |m: ItemView| place_score(m);
    assert forall|i: int| 0 <= i < aged_all.len() implies #[trigger] keys[i] == worth(aged_all[i]) by {}
    ranking_gives_the_best(aged_all, keys, aged_all.len() as int, worth);
    let r = aged_results(entries, items, ages);
    assert forall|i: int, j: int| 0 <= i < j < r.len() implies place_score(#[trigger] r[i]) >= place_score(
        #[trigger] r[j],
    ) by {
        assert(worth(r[i]) >= worth(r[j]));
    }
    assert forall|k: int| 0 <= k < items.len() implies r.contains(
        aged_item(#[trigger] items[k], factor_at(entries, ages.factors@, items[k].timestamp), ages.now),
    ) by {
        assert(r.contains(aged_all[k]));
    }
}

/// The factor and the hint of a time are those of the memory that was made then.
pub proof fn age_of_a_memory_is_its_own(
    entries: Seq<ItemView>,
    factors: Seq<i64>,
    hints: Seq<Option<String>>,
    i: int,
)
    requires
        factors.len() == entries.len(),
        hints.len() == entries.len(),
        0 <= i < entries.len(),
        forall|k: int| i < k < entries.len() ==> (#[trigger] entries[k]).timestamp != entries[i].timestamp,
    ensures
        factor_at(entries, factors, entries[i].timestamp) == factors[i],
        hint_at(entries, hints, entries[i].timestamp) == opt_text(hints[i]),
    decreases entries.len(),
{
    if i < entries.len() - 1 {
        let d = entries.drop_last();
        assert(entries[entries.len() - 1].timestamp != entries[i].timestamp);
        assert forall|k: int| i < k < d.len() implies (#[trigger] d[k]).timestamp != d[i].timestamp by {
            assert(d[k] == entries[k]);
        }
        age_of_a_memory_is_its_own(d, factors.drop_last(), hints.drop_last(), i);
        lemma_prefix_ages(d, factors.drop_last(), factors, hints.drop_last(), hints, entries[i].timestamp);
    }
}

proof fn lemma_prefix_ages(
    entries: Seq<ItemView>,
    a: Seq<i64>,
    b: Seq<i64>,
    c: Seq<Option<String>>,
    d: Seq<Option<String>>,
    time: i64,
)
    requires
        forall|k: int| 0 <= k < entries.len() ==> a[k] == b[k] && c[k] == d[k],
    ensures
        factor_at(entries, a, time) == factor_at(entries, b, time),
        hint_at(entries, c, time) == hint_at(entries, d, time),
    decreases entries.len(),
{
    if entries.len() > 0 && entries.last().timestamp != time {
        lemma_prefix_ages(entries.drop_last(), a, b, c, d, time);
    }
}

// ---------------------------------------------------------------------------
// Choosing the way
// ---------------------------------------------------------------------------

/// The automatic way gives the fused results where there are ten memories at least and some
/// were fused; else what the vector store finds, where it holds and finds something; else it
/// looks up by words where the query has less than five bytes or there are less than ten
/// memories, and by fit in all other cases.
pub proof fn automatic_way_takes_the_first_that_gives(
    entries: Seq<ItemView>,
    query: Seq<char>,
    found: Found,
    ages: Ages,
    limit: int,
)
    ensures
        ({
            let r = auto_search(entries, query, found, ages, limit);
            let alike = vector_search(entries, query, found.hits@, ages, limit);
            if entries.len() >= 10 && found.fused@.len() > 0 {
                r == aged_results(entries, hinted(entries, item_views(found.fused@), ages), ages)
            } else if found.vectors > 0 && alike.len() > 0 {
                r == alike
            } else if entries.len() < 10 || byte_len(query) < 5 {
                r == keyword_search(entries, query, limit)
            } else {
                r == aged_results(entries, hybrid_rank(entries, query, limit), ages)
            }
        }),
{
}

} // verus!
