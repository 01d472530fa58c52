//! What fusing the arms of a search promises, and what is done with its results: neighbours
//! are added, repetitions dropped, and gaps filled.

use crate::ordered::{is_ordered, lemma_less_irreflexive, lemma_with_id_ordered};
use crate::rank::{order_of, order_sorts, ranked, ranking_gives_the_best};
use crate::retriever::{absent, arm_ids, best_in_group, compensated, covered, expanded, filler, filler_score,
    fused_for, fused_list, fusing_keeps_every_memory, gap_fillers, gap_score, gap_scores, gap_total,
    gaps_filled, good_enough, group_labels, haystack, is_result, least_share, lemma_group_len,
    lemma_rank_worth, listed, name_arm, name_hits, name_words, named_entries, neighbour, number_after,
    number_before, overlap_share, rank_in, raw_with_number, reweighted, scores_of, searched,
    similar_memories_share_a_group, weighted, with_arm, with_number, Arms, Corpus, FusedView, PostGraphScore,
    RetrievalView, Scored};
use crate::strategy::{last_with_id, lemma_last_with_id};
use crate::text::{has_sub, lowercase};
use crate::tokens::overlap_counts_words;
use crate::types::{count_at, ItemView};
use vstd::prelude::*;
use vstd::string::*;

verus! {

// ---------------------------------------------------------------------------
// Fusing the arms
// ---------------------------------------------------------------------------

/// The place of an identifier in an arm: the last where it stands, or none.
pub open spec fn stands_at(arm: Seq<Scored>, id: Seq<char>, at: Option<int>) -> bool {
    match at {
        Some(i) => 0 <= i < arm.len() && arm[i].0 == id && forall|k: int|
            i < k < arm.len() ==> (#[trigger] arm[k]).0 != id,
        None => forall|k: int| 0 <= k < arm.len() ==> (#[trigger] arm[k]).0 != id,
    }
}

proof fn lemma_stands(arm: Seq<Scored>, id: Seq<char>, at: Option<int>)
    requires
        stands_at(arm, id, at),
    ensures
        rank_in(arm, id) == at,
    decreases arm.len(),
{
    if arm.len() > 0 {
        let d = arm.drop_last();
        assert(arm.last() == arm[arm.len() - 1]);
        if arm.last().0 != id {
            assert forall|k: int| 0 <= k < d.len() implies d[k] == #[trigger] arm[k] by {}
            assert(stands_at(d, id, at)) by {
                match at {
                    Some(i) => {
                        assert forall|k: int| i < k < d.len() implies (#[trigger] d[k]).0 != id by {
                            assert(arm[k].0 != id);
                        }
                    },
                    None => {
                        assert forall|k: int| 0 <= k < d.len() implies (#[trigger] d[k]).0 != id by {
                            assert(arm[k].0 != id);
                        }
                    },
                }
            }
            lemma_stands(d, id, at);
        } else {
            match at {
                Some(i) => {
                    if i < arm.len() - 1 {
                        assert(arm[arm.len() - 1].0 != id);
                    }
                },
                None => assert(arm[arm.len() - 1].0 != id),
            }
        }
    }
}

/// What an arm adds for a place in it, counted from zero: the inverse of sixty-one and the
/// place, in millionths of millionths; nothing where the memory is not in it.
pub open spec fn share_of_arm(at: Option<int>) -> int {
    match at {
        Some(i) => 1_000_000_000_000int / (61 + i),
        None => 0,
    }
}

/// The fused score of a memory is what the arms add for its places in them, and its scores are
/// those that the arms gave it there.
pub proof fn arms_add_by_place(
    a: Arms,
    id: Seq<char>,
    bm25: Option<int>,
    vector: Option<int>,
    graph: Option<int>,
    entity: Option<int>,
)
    requires
        stands_at(a.bm25, id, bm25),
        stands_at(a.vector, id, vector),
        stands_at(a.graph, id, graph),
        stands_at(a.entity, id, entity),
    ensures
        fused_for(a, id).id == id,
        fused_for(a, id).fused == share_of_arm(bm25) + share_of_arm(vector) + share_of_arm(graph)
            + share_of_arm(entity),
        fused_for(a, id).bm25 == (match bm25 {
            Some(i) => a.bm25[i].1,
            None => 0,
        }),
        fused_for(a, id).vector == (match vector {
            Some(i) => a.vector[i].1,
            None => 0,
        }),
        fused_for(a, id).graph == (match graph {
            Some(i) => a.graph[i].1,
            None => 0,
        }),
{
    lemma_stands(a.bm25, id, bm25);
    lemma_stands(a.vector, id, vector);
    lemma_stands(a.graph, id, graph);
    lemma_stands(a.entity, id, entity);
    lemma_rank_worth(bm25);
    lemma_rank_worth(vector);
    lemma_rank_worth(graph);
    lemma_rank_worth(entity);
}

/// An earlier place in an arm counts for more than a later one, and any place for more than
/// none.
pub proof fn earlier_place_counts_more(i: int, j: int)
    requires
        0 <= i < j <= 900_000,
    ensures
        share_of_arm(Some(i)) > share_of_arm(Some(j)) > share_of_arm(None),
        share_of_arm(None) == 0,
{
    let x = 61 + i;
    let y = 61 + j;
    let n = 1_000_000_000_000int;
    let p = n / x;
    let q = n / y;
    assert(n < (p + 1) * x) by (nonlinear_arith)
        requires
            p == n / x,
            x > 0,
    ;
    assert(q * y <= n && q >= 1) by (nonlinear_arith)
        requires
            q == n / y,
            0 < y <= 1_000_000,
            n == 1_000_000_000_000,
    ;
    assert(p > q) by (nonlinear_arith)
        requires
            n < (p + 1) * x,
            q * y <= n,
            x + 1 <= y,
            0 < x,
            y <= 1_000_000,
            n == 1_000_000_000_000,
            q == n / y,
    {
        assert((q + 1) * y > n);
        assert(q + 1 > 1_000_000 - 1);
        assert(q >= 999_999);
        assert(q * y >= q * x + q);
        if p <= q {
            assert((p + 1) * x <= (q + 1) * x);
            assert((q + 1) * x == q * x + x);
            assert(q * x + x <= q * y - q + x);
            assert(x <= 999_999);
        }
    }
}

proof fn lemma_ids_ordered(s: Seq<Seq<char>>, arm: Seq<Scored>)
    requires
        is_ordered(s),
    ensures
        is_ordered(with_arm(s, arm)),
    decreases arm.len(),
{
    if arm.len() > 0 {
        lemma_ids_ordered(s, arm.drop_last());
        lemma_with_id_ordered(with_arm(s, arm.drop_last()), arm.last().0);
    }
}

/// Whether an arm has the memory.
pub open spec fn arm_has(arm: Seq<Scored>, id: Seq<char>) -> bool {
    exists|i: int| 0 <= i < arm.len() && (#[trigger] arm[i]).0 == id
}

/// The fused results are the memories that some arm has, each once, those with a larger fused
/// score first.
pub proof fn fused_results_come_best_first(a: Arms)
    ensures
        ({
            let r = fused_list(a);
            &&& forall|i: int, j: int|
                0 <= i < j < r.len() ==> (#[trigger] r[i]).fused >= (#[trigger] r[j]).fused && r[i].id
                    != r[j].id
            &&& forall|i: int|
                0 <= i < r.len() ==> (#[trigger] r[i]) == fused_for(a, r[i].id) && (arm_has(
                    a.bm25,
                    r[i].id,
                ) || arm_has(a.vector, r[i].id) || arm_has(a.graph, r[i].id) || arm_has(a.entity, r[i].id))
            &&& forall|id: Seq<char>|
                arm_has(a.bm25, id) || arm_has(a.vector, id) || arm_has(a.graph, id) || arm_has(a.entity, id)
                    ==> r.contains(#[trigger] fused_for(a, id))
        }),
{
    let none = Seq::<Seq<char>>::empty();
    let x = with_arm(none, a.bm25);
    let y = with_arm(x, a.vector);
    let z = with_arm(y, a.graph);
    let ids = arm_ids(a);
    lemma_ids_ordered(none, a.bm25);
    lemma_ids_ordered(x, a.vector);
    lemma_ids_ordered(y, a.graph);
    lemma_ids_ordered(z, a.entity);
    assert forall|id: Seq<char>| #[trigger] ids.contains(id) == (arm_has(a.bm25, id) || arm_has(
        a.vector,
        id,
    ) || arm_has(a.graph, id) || arm_has(a.entity, id)) by {
        fusing_keeps_every_memory(none, a.bm25, id);
        fusing_keeps_every_memory(x, a.vector, id);
        fusing_keeps_every_memory(y, a.graph, id);
        fusing_keeps_every_memory(z, a.entity, id);
        assert(!none.contains(id));
    }
    let s = ids.map_values(|id: Seq<char>| fused_for(a, id));
    let keys = s.map_values(|f: FusedView| f.fused as i128);
    let worth = |f: FusedView| f.fused as int;
    assert forall|i: int| 0 <= i < s.len() implies #[trigger] keys[i] == worth(s[i]) by {}
    ranking_gives_the_best(s, keys, s.len() as int, worth);
    order_sorts(keys);
    let p = order_of(keys);
    let r = fused_list(a);
    assert forall|i: int, j: int| 0 <= i < j < r.len() implies (#[trigger] r[i]).fused >= (
    #[trigger] r[j]).fused && r[i].id != r[j].id by {
        assert(worth(r[i]) >= worth(r[j]));
        assert(r[i].id == ids[p[i]] && r[j].id == ids[p[j]]);
        assert(crate::rank::before(keys, p[i], p[j]));
        assert(p[i] != p[j]);
        lemma_less_irreflexive(ids[p[i]]);
        if p[i] < p[j] {
            assert(crate::ordered::text_less(ids[p[i]], ids[p[j]]));
        } else {
            assert(crate::ordered::text_less(ids[p[j]], ids[p[i]]));
        }
    }
    assert forall|i: int| 0 <= i < r.len() implies (#[trigger] r[i]) == fused_for(a, r[i].id) && (arm_has(
        a.bm25,
        r[i].id,
    ) || arm_has(a.vector, r[i].id) || arm_has(a.graph, r[i].id) || arm_has(a.entity, r[i].id)) by {
        assert(s[p[i]] == fused_for(a, ids[p[i]]));
        assert(ids.contains(ids[p[i]]));
    }
    assert forall|id: Seq<char>|
        arm_has(a.bm25, id) || arm_has(a.vector, id) || arm_has(a.graph, id) || arm_has(
            a.entity,
            id,
        ) implies r.contains(#[trigger] fused_for(a, id)) by {
        assert(ids.contains(id));
        let k = ids.index_of(id);
        assert(s[k] == fused_for(a, id));
    }
}

/// A memory that holds the whole query, whatever the case, gains a thousandth; all others keep
/// their score. The results stay the same, those with a larger score first.
pub proof fn whole_query_lifts_a_memory(
    entries: Seq<ItemView>,
    query: Seq<char>,
    fused: Seq<FusedView>,
    k: int,
    at: int,
)
    requires
        0 <= k < fused.len(),
        fused[k].fused <= 1_000_000_000_000_000_000,
        0 <= at < entries.len(),
        entries[at].id == fused[k].id,
        forall|i: int| at < i < entries.len() ==> (#[trigger] entries[i]).id != fused[k].id,
    ensures
        ({
            let r = reweighted(entries, query, fused);
            let h = weighted(entries, query, fused[k]);
            &&& r.contains(h)
            &&& r.len() == fused.len()
            &&& h.item.id == fused[k].id
            &&& h.fused_score == fused[k].fused + (if lowercase(query).len() > 0 && has_sub(
                lowercase(entries[at].content),
                lowercase(query),
            ) {
                1_000_000_000int
            } else {
                0
            })
            &&& forall|i: int, j: int|
                0 <= i < j < r.len() ==> (#[trigger] r[i]).fused_score >= (#[trigger] r[j]).fused_score
        }),
{
    lemma_last_with_id(entries, fused[k].id);
    let l = last_with_id(entries, fused[k].id);
    assert(l == Some(at)) by {
        match l {
            Some(x) => {
                if x < at {
                    lemma_later(entries, fused[k].id, at);
                } else if at < x {
                    assert(entries[x].id != fused[k].id);
                }
            },
            None => assert(entries[at].id != fused[k].id),
        }
    }
    let s = fused.map_values(|f: FusedView| weighted(entries, query, f));
    let keys = s.map_values(|h: RetrievalView| h.fused_score as i128);
    let worth = |h: RetrievalView| h.fused_score as int;
    assert forall|i: int| 0 <= i < s.len() implies #[trigger] keys[i] == worth(s[i]) by {}
    ranking_gives_the_best(s, keys, s.len() as int, worth);
    let r = reweighted(entries, query, fused);
    assert(r.contains(s[k]));
    assert forall|i: int, j: int| 0 <= i < j < r.len() implies (#[trigger] r[i]).fused_score >= (
    #[trigger] r[j]).fused_score by {
        assert(worth(r[i]) >= worth(r[j]));
    }
}

proof fn lemma_later(s: Seq<ItemView>, id: Seq<char>, at: int)
    requires
        0 <= at < s.len(),
        s[at].id == id,
    ensures
        last_with_id(s, id) matches Some(i) && i >= at,
    decreases s.len(),
{
    if s.last().id != id {
        lemma_later(s.drop_last(), id, at);
    }
}

// ---------------------------------------------------------------------------
// The arm of the names
// ---------------------------------------------------------------------------

proof fn lemma_name_hits(names: Seq<Seq<char>>, m: ItemView, n: nat)
    requires
        n <= names.len(),
    ensures
        name_hits(names, m, n) == names.take(n as int).filter(
            |t: Seq<char>| has_sub(haystack(m), t),
        ).len(),
        name_hits(names, m, n) <= n,
    decreases n,
{
    reveal(Seq::filter);
    if n > 0 {
        lemma_name_hits(names, m, (n - 1) as nat);
        assert(names.take(n as int).drop_last() =~= names.take(n - 1));
        assert(names.take(n as int).last() == names[n - 1]);
    }
}

/// How many names of the query a memory holds, each once.
pub open spec fn names_held(query: Seq<Seq<char>>, m: ItemView) -> nat {
    name_words(query).filter(|t: Seq<char>| has_sub(haystack(m), t)).len()
}

/// The arm of the names gives memories that hold a name of the query, with how many they hold,
/// those that hold more first; one that is left out holds no more than any that is given.
pub proof fn memories_with_more_names_come_first(entries: Seq<ItemView>, query: Seq<Seq<char>>, k: int)
    requires
        0 <= k,
        name_words(query).len() <= i64::MAX,
    ensures
        ({
            let r = name_arm(entries, query, k);
            &&& forall|i: int, j: int| 0 <= i < j < r.len() ==> (#[trigger] r[i]).1 >= (#[trigger] r[j]).1
            &&& forall|i: int|
                0 <= i < r.len() ==> exists|e: int|
                    0 <= e < entries.len() && (#[trigger] entries[e]).id == (#[trigger] r[i]).0 && r[i].1
                        == names_held(query, entries[e]) && r[i].1 > 0
            &&& forall|e: int, i: int|
                0 <= e < entries.len() && 0 <= i < r.len() && names_held(query, #[trigger] entries[e])
                    > (#[trigger] r[i]).1 ==> r.contains(
                    (entries[e].id, names_held(query, entries[e]) as i64),
                )
            &&& r.len() <= k
            &&& forall|e: int|
                0 <= e < entries.len() && names_held(query, #[trigger] entries[e]) > 0 && r.len() < k
                    ==> r.contains((entries[e].id, names_held(query, entries[e]) as i64))
        }),
{
    let names = name_words(query);
    let found = named_entries(names, entries, entries.len());
    lemma_named(names, query, entries, entries.len());
    let worth = |s: Scored| s.1 as int;
    assert forall|i: int| 0 <= i < found.len() implies #[trigger] scores_of(found)[i] == worth(found[i]) by {}
    ranking_gives_the_best(found, scores_of(found), k, worth);
    let r = name_arm(entries, query, k);
    assert forall|i: int, j: int| 0 <= i < j < r.len() implies (#[trigger] r[i]).1 >= (#[trigger] r[j]).1 by {
        assert(worth(r[i]) >= worth(r[j]));
    }
    assert forall|i: int| 0 <= i < r.len() implies exists|e: int|
        0 <= e < entries.len() && (#[trigger] entries[e]).id == (#[trigger] r[i]).0 && r[i].1 == names_held(
            query,
            entries[e],
        ) && r[i].1 > 0 by {
        let x = found.index_of(r[i]);
        assert(found[x] == r[i]);
    }
    assert forall|e: int, i: int|
        0 <= e < entries.len() && 0 <= i < r.len() && names_held(query, #[trigger] entries[e]) > (
        #[trigger] r[i]).1 implies r.contains((entries[e].id, names_held(query, entries[e]) as i64)) by {
        let x = found.index_of(r[i]);
        assert(found[x] == r[i]);
        let want = (entries[e].id, names_held(query, entries[e]) as i64);
        lemma_name_hits(names, entries[e], names.len());
        assert(names.take(names.len() as int) =~= names);
        assert(found.contains(want));
        let y = found.index_of(want);
        if !r.contains(want) {
            assert(worth(r[i]) >= worth(found[y]));
        }
    }
    assert forall|e: int|
        0 <= e < entries.len() && names_held(query, #[trigger] entries[e]) > 0 && r.len() < k implies r.contains(
    (entries[e].id, names_held(query, entries[e]) as i64)) by {
        let want = (entries[e].id, names_held(query, entries[e]) as i64);
        assert(found.contains(want));
        assert(found[found.index_of(want)] == want);
    }
}

proof fn lemma_named(names: Seq<Seq<char>>, query: Seq<Seq<char>>, entries: Seq<ItemView>, n: nat)
    requires
        names == name_words(query),
        names.len() <= i64::MAX,
        n <= entries.len(),
    ensures
        forall|i: int|
            0 <= i < named_entries(names, entries, n).len() ==> exists|e: int|
                0 <= e < n && (#[trigger] entries[e]).id == (#[trigger] named_entries(names, entries, n)[i]).0
                    && named_entries(names, entries, n)[i].1 == names_held(query, entries[e]) && named_entries(
                    names,
                    entries,
                    n,
                )[i].1 > 0,
        forall|e: int|
            0 <= e < n && names_held(query, #[trigger] entries[e]) > 0 ==> named_entries(
                names,
                entries,
                n,
            ).contains((entries[e].id, names_held(query, entries[e]) as i64)),
    decreases n,
{
    if n > 0 {
        lemma_named(names, query, entries, (n - 1) as nat);
        let rest = named_entries(names, entries, (n - 1) as nat);
        let all = named_entries(names, entries, n);
        lemma_name_hits(names, entries[n - 1], names.len());
        assert(names.take(names.len() as int) =~= names);
        assert(name_hits(names, entries[n - 1], names.len()) == names_held(query, entries[n - 1]));
        assert forall|i: int| 0 <= i < all.len() implies exists|e: int|
            0 <= e < n && (#[trigger] entries[e]).id == (#[trigger] all[i]).0 && all[i].1 == names_held(
                query,
                entries[e],
            ) && all[i].1 > 0 by {
            if i < rest.len() {
                assert(all[i] == rest[i]);
                let e = choose|e: int|
                    0 <= e < n - 1 && (#[trigger] entries[e]).id == rest[i].0 && rest[i].1 == names_held(
                        query,
                        entries[e],
                    ) && rest[i].1 > 0;
                assert(entries[e].id == all[i].0);
            } else {
                assert(entries[n - 1].id == all[i].0);
            }
        }
        assert forall|e: int|
            0 <= e < n && names_held(query, #[trigger] entries[e]) > 0 implies all.contains(
        (entries[e].id, names_held(query, entries[e]) as i64)) by {
            let want = (entries[e].id, names_held(query, entries[e]) as i64);
            if e < n - 1 {
                assert(rest.contains(want));
                assert(all[rest.index_of(want)] == want);
            } else {
                assert(all[rest.len() as int] == want);
            }
        }
    }
}

// ---------------------------------------------------------------------------
// Neighbours
// ---------------------------------------------------------------------------

/// Two numbers follow each other; the last and the first do too.
pub open spec fn follow_each_other(a: u64, b: u64) -> bool {
    a + 1 == b || b + 1 == a || (a == u64::MAX && b == 0) || (b == u64::MAX && a == 0)
}

proof fn lemma_raw_number(entries: Seq<ItemView>, n: u64)
    ensures
        raw_with_number(entries, n) matches Some(i) ==> 0 <= i < entries.len() && entries[i].granularity
            == "turn"@ && count_at(entries[i].metadata, "seq_no"@) == Some(n),
    decreases entries.len(),
{
    if entries.len() > 0 {
        lemma_raw_number(entries.drop_last(), n);
        reveal_strlit("raw");
        reveal_strlit("episodic");
        reveal_strlit("semantic");
        assert("raw"@.len() == 3 && "episodic"@.len() == 8 && "semantic"@.len() == 8);
        assert(entries.last() == entries[entries.len() - 1]);
    }
}

/// What is added to the results are messages of the conversation, marked as neighbours, whose
/// number follows or is followed by that of a result.
pub proof fn added_memories_are_neighbours(
    hits: Seq<ItemView>,
    entries: Seq<ItemView>,
    max: int,
    n: nat,
    i: int,
)
    requires
        0 <= max,
        n <= hits.len(),
        hits.len() <= i < expanded(hits, entries, max, n).len(),
    ensures
        exists|h: int, e: int|
            0 <= h < n && 0 <= e < entries.len() && expanded(hits, entries, max, n)[i] == neighbour(
                #[trigger] entries[e],
            ) && entries[e].granularity == "turn"@ && count_at((#[trigger] hits[h]).metadata, "seq_no"@) is Some
                && count_at(entries[e].metadata, "seq_no"@) is Some && follow_each_other(
                count_at(hits[h].metadata, "seq_no"@)->0,
                count_at(entries[e].metadata, "seq_no"@)->0,
            ),
    decreases n,
{
    if n > 0 {
        let s = expanded(hits, entries, max, (n - 1) as nat);
        let all = expanded(hits, entries, max, n);
        if i < s.len() {
            added_memories_are_neighbours(hits, entries, max, (n - 1) as nat, i);
            assert(all[i] == s[i]);
            let (h, e) = choose|h: int, e: int|
                0 <= h < n - 1 && 0 <= e < entries.len() && s[i] == neighbour(#[trigger] entries[e])
                    && entries[e].granularity == "turn"@ && count_at(
                    (#[trigger] hits[h]).metadata,
                    "seq_no"@,
                ) is Some && count_at(entries[e].metadata, "seq_no"@) is Some && follow_each_other(
                    count_at(hits[h].metadata, "seq_no"@)->0,
                    count_at(entries[e].metadata, "seq_no"@)->0,
                );
            assert(all[i] == neighbour(entries[e]));
            assert(count_at(hits[h].metadata, "seq_no"@) is Some);
        } else {
            let k = count_at(hits[n - 1].metadata, "seq_no"@)->0;
            lemma_raw_number(entries, number_after(k));
            lemma_raw_number(entries, number_before(k));
            let t = with_number(s, entries, number_after(k), s.len() + max);
            let e = if i < t.len() {
                raw_with_number(entries, number_after(k))->0
            } else {
                raw_with_number(entries, number_before(k))->0
            };
            assert(all[i] == neighbour(entries[e]));
            assert(count_at(hits[n - 1].metadata, "seq_no"@) is Some);
        }
    }
}

/// Where there is room for two for each result, every message whose number follows or is
/// followed by that of a result is in the list, if no other message has that number.
pub proof fn neighbours_are_added(
    hits: Seq<ItemView>,
    entries: Seq<ItemView>,
    max: int,
    n: nat,
    h: int,
    e: int,
)
    requires
        2 <= max,
        n <= hits.len(),
        0 <= h < n,
        0 <= e < entries.len(),
        entries[e].granularity == "turn"@,
        count_at(hits[h].metadata, "seq_no"@) is Some,
        count_at(entries[e].metadata, "seq_no"@) is Some,
        follow_each_other(
            count_at(hits[h].metadata, "seq_no"@)->0,
            count_at(entries[e].metadata, "seq_no"@)->0,
        ),
        forall|k: int|
            0 <= k < entries.len() && k != e ==> count_at((#[trigger] entries[k]).metadata, "seq_no"@)
                != count_at(entries[e].metadata, "seq_no"@),
    ensures
        exists|i: int|
            0 <= i < expanded(hits, entries, max, n).len() && (#[trigger] expanded(hits, entries, max, n)[i]).id
                == entries[e].id,
    decreases n,
{
    let s = expanded(hits, entries, max, (n - 1) as nat);
    let all = expanded(hits, entries, max, n);
    let k = count_at(hits[n - 1].metadata, "seq_no"@);
    if h < n - 1 {
        neighbours_are_added(hits, entries, max, (n - 1) as nat, h, e);
        let i = choose|i: int| 0 <= i < s.len() && (#[trigger] s[i]).id == entries[e].id;
        assert(all[i] == s[i]);
    } else {
        let m = count_at(entries[e].metadata, "seq_no"@)->0;
        lemma_only_number(entries, m, e);
        let t = with_number(s, entries, number_after(k->0), s.len() + max);
        assert(all == with_number(t, entries, number_before(k->0), s.len() + max));
        if number_after(k->0) == m {
            if listed(s, entries[e].id) {
                let i = choose|i: int| 0 <= i < s.len() && (#[trigger] s[i]).id == entries[e].id;
                assert(all[i] == s[i]);
            } else {
                assert(t == s.push(neighbour(entries[e])));
                assert(all[s.len() as int].id == entries[e].id);
            }
        } else {
            assert(number_before(k->0) == m);
            assert(t.len() <= s.len() + 1);
            if listed(t, entries[e].id) {
                let i = choose|i: int| 0 <= i < t.len() && (#[trigger] t[i]).id == entries[e].id;
                assert(all[i] == t[i]);
            } else {
                assert(all[t.len() as int].id == entries[e].id);
            }
        }
    }
}

proof fn lemma_only_number(entries: Seq<ItemView>, n: u64, e: int)
    requires
        0 <= e < entries.len(),
        entries[e].granularity == "turn"@,
        count_at(entries[e].metadata, "seq_no"@) == Some(n),
        forall|k: int|
            0 <= k < entries.len() && k != e ==> count_at((#[trigger] entries[k]).metadata, "seq_no"@) != Some(n),
    ensures
        raw_with_number(entries, n) == Some(e),
    decreases entries.len(),
{
    if e < entries.len() - 1 {
        let d = entries.drop_last();
        assert(count_at(entries[entries.len() - 1].metadata, "seq_no"@) != Some(n));
        assert forall|k: int| 0 <= k < d.len() && k != e implies count_at(
            (#[trigger] d[k]).metadata,
            "seq_no"@,
        ) != Some(n) by {
            assert(d[k] == entries[k]);
        }
        lemma_only_number(d, n, e);
    }
}

// ---------------------------------------------------------------------------
// Repetitions
// ---------------------------------------------------------------------------

/// Of two memories that mean the same at most one stays, and it is the one with the larger
/// score, the first of equals.
pub proof fn better_of_similar_memories_stays(
    similar: Seq<Seq<bool>>,
    scores: Seq<i128>,
    n: nat,
    a: int,
    b: int,
)
    requires
        scores.len() == n,
        0 <= a < b < n,
        similar[a][b],
    ensures
        ({
            let labels = group_labels(similar, n, n);
            &&& best_in_group(labels, scores, a) ==> scores[a] >= scores[b] && !best_in_group(
                labels,
                scores,
                b,
            )
            &&& best_in_group(labels, scores, b) ==> scores[b] > scores[a]
        }),
{
    similar_memories_share_a_group(similar, n, n, a, b);
    lemma_group_len(similar, n, n);
    let labels = group_labels(similar, n, n);
    assert(labels[a] == labels[b]);
    assert(labels.len() == n);
    if best_in_group(labels, scores, a) {
        let s = scores[b];
        assert(s < scores[a] || (s == scores[a] && a < b));
        if best_in_group(labels, scores, b) {
            let u = scores[a];
            assert(u < scores[b] || (u == scores[b] && b < a));
        }
    }
    if best_in_group(labels, scores, b) {
        let u = scores[a];
        assert(u < scores[b] || (u == scores[b] && b < a));
    }
}

/// Of every group of memories that mean the same one stays that no other of the group beats.
pub proof fn one_of_each_group_stays(labels: Seq<int>, scores: Seq<i128>, i: int) -> (b: int)
    requires
        scores.len() == labels.len(),
        0 <= i < labels.len(),
    ensures
        0 <= b < labels.len(),
        labels[b] == labels[i],
        best_in_group(labels, scores, b),
        scores[b] >= scores[i],
{
    lemma_best(labels, scores, labels[i], labels.len())
}

proof fn lemma_best(labels: Seq<int>, scores: Seq<i128>, l: int, n: nat) -> (b: int)
    requires
        scores.len() == labels.len(),
        n <= labels.len(),
        exists|i: int| 0 <= i < n && labels[i] == l,
    ensures
        0 <= b < n,
        labels[b] == l,
        forall|j: int|
            0 <= j < n && labels[j] == l && j != b ==> (#[trigger] scores[j]) < scores[b] || (scores[j]
                == scores[b] && b < j),
    decreases n,
{
    if exists|i: int| 0 <= i < n - 1 && labels[i] == l {
        let c = lemma_best(labels, scores, l, (n - 1) as nat);
        if labels[n - 1] == l && scores[n - 1] > scores[c] {
            n - 1
        } else {
            c
        }
    } else {
        n - 1
    }
}

// ---------------------------------------------------------------------------
// Gaps
// ---------------------------------------------------------------------------

/// Of how well a memory fills gaps a quarter is novelty, three tenths difference, a fifth
/// detail and a quarter the gaps it fills; more of one is never worse.
pub proof fn gap_score_weighs_its_parts(p: PostGraphScore, q: PostGraphScore)
    requires
        0 <= p.novelty <= q.novelty <= 1_000_000,
        0 <= p.complementarity <= q.complementarity <= 1_000_000,
        0 <= p.specificity <= q.specificity <= 1_000_000,
        0 <= p.gap_fill <= q.gap_fill <= 1_000_000,
    ensures
        gap_total(p.novelty, p.complementarity, p.specificity, p.gap_fill) <= gap_total(
            q.novelty,
            q.complementarity,
            q.specificity,
            q.gap_fill,
        ),
        gap_total(1_000_000, 0, 0, 0) == 250_000,
        gap_total(0, 1_000_000, 0, 0) == 300_000,
        gap_total(0, 0, 1_000_000, 0) == 200_000,
        gap_total(0, 0, 0, 1_000_000) == 250_000,
{
}

proof fn lemma_least_share(words: Seq<Seq<char>>, hit_words: Seq<Seq<Seq<char>>>, n: nat, k: int)
    requires
        n <= hit_words.len(),
    ensures
        0 <= k < n ==> least_share(words, hit_words, n) <= overlap_share(words, hit_words[k]),
        0 <= least_share(words, hit_words, n) <= 1_000_000,
        n == 0 || least_share(words, hit_words, n) == 1_000_000 || exists|i: int|
            0 <= i < n && overlap_share(words, #[trigger] hit_words[i]) == least_share(words, hit_words, n),
    decreases n,
{
    if n > 0 {
        lemma_least_share(words, hit_words, (n - 1) as nat, k);
        lemma_share(words, hit_words[n - 1]);
        if least_share(words, hit_words, n) == overlap_share(words, hit_words[n - 1]) {
        } else if n > 1 && least_share(words, hit_words, n) != 1_000_000 {
            let i = choose|i: int|
                0 <= i < n - 1 && overlap_share(words, #[trigger] hit_words[i]) == least_share(
                    words,
                    hit_words,
                    (n - 1) as nat,
                );
            assert(overlap_share(words, hit_words[i]) == least_share(words, hit_words, n));
        }
    }
}

proof fn lemma_share(a: Seq<Seq<char>>, b: Seq<Seq<char>>)
    ensures
        0 <= overlap_share(a, b) <= 1_000_000,
        a.to_set().disjoint(b.to_set()) ==> overlap_share(a, b) == 0,
        a.len() > 0 && a.to_set() == b.to_set() ==> overlap_share(a, b) == 1_000_000,
{
    overlap_counts_words(a, b);
    vstd::seq_lib::seq_to_set_is_finite(a);
    vstd::seq_lib::seq_to_set_is_finite(b);
    let i = a.to_set().intersect(b.to_set());
    let u = a.to_set().union(b.to_set());
    vstd::set_lib::lemma_len_subset(i, u);
    let n = i.len() as int;
    let d: int = if u.len() == 0 {
        1
    } else {
        u.len() as int
    };
    assert(0 <= (n * 1_000_000) / d <= 1_000_000) by (nonlinear_arith)
        requires
            0 <= n <= d,
            d > 0,
    ;
    if a.to_set().disjoint(b.to_set()) {
        assert(i =~= Set::<Seq<char>>::empty());
        assert(0int / d == 0) by (nonlinear_arith)
            requires
                d > 0,
        ;
    }
    if a.len() > 0 && a.to_set() == b.to_set() {
        assert(i =~= u);
        assert(u.contains(a[0]));
        assert((d * 1_000_000) / d == 1_000_000) by (nonlinear_arith)
            requires
                d > 0,
        ;
    }
}

/// A memory that shares no word with one of the results is as novel as can be; one that has the
/// very words of all of them is not novel at all.
pub proof fn novelty_is_in_new_words(
    m: ItemView,
    words: Seq<Seq<char>>,
    query: Seq<Seq<char>>,
    hits: Seq<ItemView>,
    hit_words: Seq<Seq<Seq<char>>>,
    specificity: i64,
    k: int,
)
    requires
        hits.len() == hit_words.len(),
        0 <= k < hits.len(),
        words.len() > 0,
    ensures
        ({
            let g = gap_score(m, words, query, hits, hit_words, specificity);
            &&& words.to_set().disjoint(hit_words[k].to_set()) ==> g.novelty == 1_000_000
            &&& (forall|i: int| 0 <= i < hit_words.len() ==> (#[trigger] hit_words[i]).to_set() == words.to_set())
                ==> g.novelty == 0
        }),
{
    lemma_least_share(words, hit_words, hits.len(), k);
    lemma_share(words, hit_words[k]);
    if forall|i: int| 0 <= i < hit_words.len() ==> (#[trigger] hit_words[i]).to_set() == words.to_set() {
        assert(hit_words[k].to_set() == words.to_set());
        if least_share(words, hit_words, hits.len()) != 1_000_000 {
            let i = choose|i: int|
                0 <= i < hits.len() && overlap_share(words, #[trigger] hit_words[i]) == least_share(
                    words,
                    hit_words,
                    hits.len(),
                );
            lemma_share(words, hit_words[i]);
        }
    }
}

/// A memory fills a gap for each word of the query that it has and no result has, and for no
/// other: none where the results have every word that it has, all where they have no word and
/// it has every one.
pub proof fn gaps_are_words_that_no_result_has(
    query: Seq<Seq<char>>,
    words: Seq<Seq<char>>,
    hit_words: Seq<Seq<Seq<char>>>,
    n: nat,
)
    requires
        n <= query.len(),
    ensures
        gaps_filled(query, words, hit_words, n) == query.take(n as int).filter(
            |w: Seq<char>|
                words.contains(w) && forall|i: int|
                    0 <= i < hit_words.len() ==> !(#[trigger] hit_words[i]).contains(w),
        ).len(),
    decreases n,
{
    reveal(Seq::filter);
    if n > 0 {
        gaps_are_words_that_no_result_has(query, words, hit_words, (n - 1) as nat);
        assert(query.take(n as int).drop_last() =~= query.take(n - 1));
        assert(query.take(n as int).last() == query[n - 1]);
        assert(covered(hit_words, query[n - 1]) == !forall|i: int|
            0 <= i < hit_words.len() ==> !(#[trigger] hit_words[i]).contains(query[n - 1]));
    }
}

/// Of the candidates those that reach the smallest score fill the gaps, best first, no more
/// than are wanted; one that is left out is no better than any that is taken.
pub proof fn best_candidates_fill_the_gaps(scores: Seq<PostGraphScore>, min_score: i64, target: int)
    requires
        0 <= target,
    ensures
        ({
            let r = gap_fillers(scores, min_score, target);
            &&& r.len() <= target
            &&& forall|i: int|
                0 <= i < r.len() ==> 0 <= #[trigger] r[i] < scores.len() && scores[r[i]].total >= min_score
            &&& forall|i: int, j: int|
                0 <= i < j < r.len() ==> scores[#[trigger] r[i]].total >= scores[#[trigger] r[j]].total && r[i]
                    != r[j]
            &&& forall|k: int, i: int|
                0 <= k < scores.len() && (#[trigger] scores[k]).total >= min_score && 0 <= i < r.len()
                    && !r.contains(k) ==> scores[#[trigger] r[i]].total >= scores[k].total
            &&& r.len() == target || forall|k: int|
                0 <= k < scores.len() && (#[trigger] scores[k]).total >= min_score ==> r.contains(k)
        }),
{
    let at = good_enough(scores, min_score, scores.len());
    lemma_good(scores, min_score, scores.len());
    let keys = at.map_values(|i: int| scores[i].total as i128);
    let worth = |i: int| scores[i].total as int;
    assert forall|i: int| 0 <= i < at.len() implies #[trigger] keys[i] == worth(at[i]) by {}
    ranking_gives_the_best(at, keys, target, worth);
    order_sorts(keys);
    let p = order_of(keys);
    let r = gap_fillers(scores, min_score, target);
    assert(r == ranked(at, keys, target));
    assert forall|i: int| 0 <= i < r.len() implies 0 <= #[trigger] r[i] < scores.len() && scores[r[i]].total
        >= min_score by {
        assert(r[i] == at[p[i]]);
    }
    assert forall|i: int, j: int| 0 <= i < j < r.len() implies scores[#[trigger] r[i]].total >= scores[
    #[trigger] r[j]].total && r[i] != r[j] by {
        assert(worth(r[i]) >= worth(r[j]));
        assert(crate::rank::before(keys, p[i], p[j]));
        assert(r[i] == at[p[i]] && r[j] == at[p[j]]);
        if p[i] < p[j] {
            assert(at[p[i]] < at[p[j]]);
        } else {
            assert(at[p[j]] < at[p[i]]);
        }
    }
    assert forall|k: int, i: int|
        0 <= k < scores.len() && (#[trigger] scores[k]).total >= min_score && 0 <= i < r.len() && !r.contains(
            k,
        ) implies scores[#[trigger] r[i]].total >= scores[k].total by {
        assert(at.contains(k));
        let x = at.index_of(k);
        assert(at[x] == k);
        assert(worth(r[i]) >= worth(at[x]));
    }
    if r.len() != target {
        assert forall|k: int| 0 <= k < scores.len() && (#[trigger] scores[k]).total >= min_score implies r.contains(
        k) by {
            assert(at.contains(k));
            assert(at[at.index_of(k)] == k);
        }
    }
}

proof fn lemma_good(scores: Seq<PostGraphScore>, min_score: i64, n: nat)
    requires
        n <= scores.len(),
    ensures
        ({
            let at = good_enough(scores, min_score, n);
            &&& at.len() <= n
            &&& forall|i: int|
                0 <= i < at.len() ==> 0 <= #[trigger] at[i] < n && scores[at[i]].total >= min_score
            &&& forall|i: int, j: int| 0 <= i < j < at.len() ==> #[trigger] at[i] < #[trigger] at[j]
            &&& forall|k: int| 0 <= k < n && (#[trigger] scores[k]).total >= min_score ==> at.contains(k)
        }),
    decreases n,
{
    if n > 0 {
        lemma_good(scores, min_score, (n - 1) as nat);
        let rest = good_enough(scores, min_score, (n - 1) as nat);
        let at = good_enough(scores, min_score, n);
        assert forall|k: int| 0 <= k < n && (#[trigger] scores[k]).total >= min_score implies at.contains(k) by {
            if k < n - 1 {
                assert(rest.contains(k));
                assert(at[rest.index_of(k)] == k);
            } else {
                assert(at[rest.len() as int] == k);
            }
        }
    }
}

/// Filling gaps keeps every result, adds no more than are wanted, only memories that were no
/// results and fill gaps well enough, and the list comes by score.
pub proof fn filling_gaps_keeps_the_results(
    results: Seq<RetrievalView>,
    c: Corpus,
    query: Seq<Seq<char>>,
    blank_words: Seq<Seq<char>>,
    target: int,
    min_score: i64,
)
    requires
        0 <= target,
        forall|i: int, j: int|
            0 <= i < j < results.len() ==> (#[trigger] results[i]).fused_score >= (
            #[trigger] results[j]).fused_score,
    ensures
        ({
            let r = compensated(results, c, query, blank_words, target, min_score);
            &&& results.len() <= r.len() <= results.len() + target
            &&& forall|i: int| 0 <= i < results.len() ==> r.contains(#[trigger] results[i])
            &&& forall|i: int, j: int|
                0 <= i < j < r.len() ==> (#[trigger] r[i]).fused_score >= (#[trigger] r[j]).fused_score
            &&& forall|i: int|
                0 <= i < r.len() ==> results.contains(#[trigger] r[i]) || (!is_result(results, r[i].item.id)
                    && r[i].graph_score >= min_score && c.entries.contains(r[i].item))
        }),
{
    let r = compensated(results, c, query, blank_words, target, min_score);
    let at = absent(c.entries, results, c.entries.len());
    lemma_absent(c.entries, results, c.entries.len());
    if results.len() == 0 || target == 0 || at.len() == 0 {
        assert forall|i: int| 0 <= i < results.len() implies r.contains(#[trigger] results[i]) by {
            assert(r[i] == results[i]);
        }
        assert forall|i: int| 0 <= i < r.len() implies results.contains(#[trigger] r[i]) by {
            assert(results[i] == r[i]);
        }
    } else {
        let scores = gap_scores(c, at, query, results, blank_words);
        let picks = gap_fillers(scores, min_score, target);
        best_candidates_fill_the_gaps(scores, min_score, target);
        let last = results.last().fused_score;
        let more = picks.map_values(|k: int| filler(c.entries[at[k]], scores[k], last));
        let all = results + more;
        let keys = all.map_values(|h: RetrievalView| h.fused_score as i128);
        let worth = |h: RetrievalView| h.fused_score as int;
        assert forall|i: int| 0 <= i < all.len() implies #[trigger] keys[i] == worth(all[i]) by {}
        ranking_gives_the_best(all, keys, all.len() as int, worth);
        assert(r == ranked(all, keys, all.len() as int));
        assert forall|i: int| 0 <= i < results.len() implies r.contains(#[trigger] results[i]) by {
            assert(all[i] == results[i]);
        }
        assert forall|i: int, j: int| 0 <= i < j < r.len() implies (#[trigger] r[i]).fused_score >= (
        #[trigger] r[j]).fused_score by {
            assert(worth(r[i]) >= worth(r[j]));
        }
        assert forall|i: int| 0 <= i < r.len() implies results.contains(#[trigger] r[i]) || (!is_result(
            results,
            r[i].item.id,
        ) && r[i].graph_score >= min_score && c.entries.contains(r[i].item)) by {
            let x = all.index_of(r[i]);
            assert(all[x] == r[i]);
            if x < results.len() {
                assert(results[x] == r[i]);
            } else {
                let k = picks[x - results.len()];
                assert(more[x - results.len()] == filler(c.entries[at[k]], scores[k], last));
                assert(r[i].item == c.entries[at[k]]);
                assert(!is_result(results, c.entries[at[k]].id));
            }
        }
    }
}

proof fn lemma_absent(entries: Seq<ItemView>, results: Seq<RetrievalView>, n: nat)
    requires
        n <= entries.len(),
    ensures
        forall|k: int|
            0 <= k < absent(entries, results, n).len() ==> 0 <= #[trigger] absent(entries, results, n)[k] < n
                && !is_result(results, entries[absent(entries, results, n)[k]].id),
    decreases n,
{
    if n > 0 {
        lemma_absent(entries, results, (n - 1) as nat);
    }
}

/// The score of a memory that fills a gap lies between that of the last result, or three
/// tenths where it has less, and how well it fills the gap: it is the mean of the two.
pub proof fn filler_score_is_the_mean(last: i64, total: i64)
    requires
        0 <= last <= 1_000_000_000_000_000_000,
        0 <= total <= 1_000_000,
    ensures
        ({
            let base: int = if last > 300_000_000_000 {
                last as int
            } else {
                300_000_000_000
            };
            2 * filler_score(last, total) <= base + total * 1_000_000 <= 2 * filler_score(last, total) + 1
        }),
{
}

/// A search gives no more than are asked for, those with a larger score first.
pub proof fn search_gives_the_best(
    c: Corpus,
    arms: Arms,
    query: Seq<char>,
    query_words: Seq<Seq<char>>,
    blank_words: Seq<Seq<char>>,
    limit: int,
)
    requires
        0 <= limit,
    ensures
        ({
            let r = searched(c, arms, query, query_words, blank_words, limit);
            &&& r.len() <= limit
            &&& forall|i: int, j: int|
                0 <= i < j < r.len() ==> (#[trigger] r[i]).fused_score >= (#[trigger] r[j]).fused_score
            &&& c.entries.len() > 0 && r.len() < limit ==> r.len() >= fused_list(arms).len()
        }),
{
    let fused = fused_list(arms);
    let s = fused.map_values(|f: FusedView| weighted(c.entries, query, f));
    let keys = s.map_values(|h: RetrievalView| h.fused_score as i128);
    let worth = |h: RetrievalView| h.fused_score as int;
    assert forall|i: int| 0 <= i < s.len() implies #[trigger] keys[i] == worth(s[i]) by {}
    ranking_gives_the_best(s, keys, s.len() as int, worth);
    let first = reweighted(c.entries, query, fused);
    assert forall|i: int, j: int| 0 <= i < j < first.len() implies (#[trigger] first[i]).fused_score >= (
    #[trigger] first[j]).fused_score by {
        assert(worth(first[i]) >= worth(first[j]));
    }
    filling_gaps_keeps_the_results(first, c, query_words, blank_words, 2, 300_000);
}

} // verus!
