//! What keeping memories promises: what is written, replaced, archived, visited, deleted and
//! taken back, and that nothing else changes.

use crate::conflict::{conflict_step, retried, settled, ConflictStep, ConflictView, OutcomeView, Verdict};
use crate::manager::{conflicts_processed, first_hint, hinted, recent_queries, requeued, restored,
    soft_deleted, tally, visits, with_episode, ManagerView};
use crate::rank::ranking_gives_the_best;
use crate::recording::{committed, final_item};
use crate::recycle_bin::{first_for, fresh, pushed, repeats, without_repeats, RecycleView};
use crate::retention_laws::ids_differ;
use crate::search::is_searchable;
use crate::select::{filter_from, filter_has, kept_from, kept_has};
use crate::store::{by_ids, edited, faded_seeds, granularity_or_turn, has_open_hook, heaviest, is_live,
    item_times, item_weights, latest, live_from, live_with_tag, places_of, real_count, visible_within, visited,
    with_entry, with_hook, without_id};
use crate::strategy::{last_with_id, lemma_last_with_id};
use crate::text::trim;
use crate::types::{flag_at, text_at, Granularity, HookView, ItemView};
use vstd::prelude::*;
use vstd::string::*;

verus! {

// ---------------------------------------------------------------------------
// Reading
// ---------------------------------------------------------------------------

/// The latest memories come latest first, and none that is left out is later than one that is
/// given.
pub proof fn latest_memories_come_first(s: Seq<ItemView>, limit: int)
    requires
        0 <= limit,
    ensures
        ({
            let r = latest(s, limit);
            &&& r.len() == limit || r.len() == s.len()
            &&& forall|i: int, j: int|
                0 <= i < j < r.len() ==> (#[trigger] r[i]).timestamp >= (#[trigger] r[j]).timestamp
            &&& forall|i: int| 0 <= i < r.len() ==> s.contains(#[trigger] r[i])
            &&& forall|i: int, k: int|
                0 <= i < r.len() && 0 <= k < s.len() && !r.contains(#[trigger] s[k]) ==> (
                #[trigger] r[i]).timestamp >= s[k].timestamp
        }),
{
    let worth = |m: ItemView| m.timestamp as int;
    let keys = item_times(s);
    assert forall|i: int| 0 <= i < s.len() implies #[trigger] keys[i] == worth(s[i]) by {}
    ranking_gives_the_best(s, keys, limit, worth);
    let r = latest(s, limit);
    assert forall|i: int, j: int| 0 <= i < j < r.len() implies (#[trigger] r[i]).timestamp >= (
    #[trigger] r[j]).timestamp by {
        assert(worth(r[i]) >= worth(r[j]));
    }
    assert forall|i: int, k: int|
        0 <= i < r.len() && 0 <= k < s.len() && !r.contains(#[trigger] s[k]) implies (
    #[trigger] r[i]).timestamp >= s[k].timestamp by {
        assert(worth(r[i]) >= worth(s[k]));
    }
}

/// The most important memories come most important first, and none that is left out is more
/// important than one that is given.
pub proof fn important_memories_come_first(s: Seq<ItemView>, limit: int)
    requires
        0 <= limit,
    ensures
        ({
            let r = heaviest(s, limit);
            &&& r.len() == limit || r.len() == s.len()
            &&& forall|i: int, j: int|
                0 <= i < j < r.len() ==> (#[trigger] r[i]).importance >= (#[trigger] r[j]).importance
            &&& forall|i: int| 0 <= i < r.len() ==> s.contains(#[trigger] r[i])
            &&& forall|i: int, k: int|
                0 <= i < r.len() && 0 <= k < s.len() && !r.contains(#[trigger] s[k]) ==> (
                #[trigger] r[i]).importance >= s[k].importance
        }),
{
    let worth = |m: ItemView| m.importance as int;
    let keys = item_weights(s);
    assert forall|i: int| 0 <= i < s.len() implies #[trigger] keys[i] == worth(s[i]) by {}
    ranking_gives_the_best(s, keys, limit, worth);
    let r = heaviest(s, limit);
    assert forall|i: int, j: int| 0 <= i < j < r.len() implies (#[trigger] r[i]).importance >= (
    #[trigger] r[j]).importance by {
        assert(worth(r[i]) >= worth(r[j]));
    }
    assert forall|i: int, k: int|
        0 <= i < r.len() && 0 <= k < s.len() && !r.contains(#[trigger] s[k]) implies (
    #[trigger] r[i]).importance >= s[k].importance by {
        assert(worth(r[i]) >= worth(s[k]));
    }
}

pub(crate) proof fn lemma_filtered(s: Seq<ItemView>, test: spec_fn(ItemView) -> bool, x: ItemView)
    ensures
        s.filter(test).contains(x) <==> s.contains(x) && test(x),
{
    if s.filter(test).contains(x) {
        filter_from(s, test, s.filter(test).index_of(x));
    }
    if s.contains(x) && test(x) {
        filter_has(s, test, s.index_of(x));
    }
}

/// What is looked up by time, tag, importance or hook is what has it and is not archived: each
/// such memory, and no other. A span of time holds its beginning and not its end, and shows also
/// what a summary stands for, but neither seeds nor diary entries.
pub proof fn memories_are_looked_up_by_what_they_have(
    s: Seq<ItemView>,
    tags: Seq<Seq<char>>,
    least: i64,
    after: i64,
    before: i64,
    x: ItemView,
)
    ensures
        s.filter(live_with_tag(tags)).contains(x) <==> s.contains(x) && !x.consolidated && exists|t: Seq<char>|
            #[trigger] x.tags.contains(t) && tags.contains(t),
        s.filter(live_from(least)).contains(x) <==> s.contains(x) && !x.consolidated && x.importance >= least,
        s.filter(has_open_hook()).contains(x) <==> s.contains(x) && exists|k: int|
            0 <= k < x.open_hooks.len() && (#[trigger] x.open_hooks[k]).closed_at is None,
        s.filter(visible_within(after, before)).contains(x) <==> {
            &&& s.contains(x)
            &&& after <= x.timestamp < before
            &&& !x.consolidated || flag_at(x.metadata, "summarized"@)
            &&& text_at(x.metadata, "source"@) != Some("system_seed"@)
            &&& !x.tags.contains("diary"@)
            &&& text_at(x.metadata, "kind"@) != Some("diary"@)
        },
        s.filter(is_live()).contains(x) <==> s.contains(x) && !x.consolidated,
        s.filter(is_searchable()).contains(x) <==> s.contains(x) && (!x.consolidated || flag_at(
            x.metadata,
            "summarized"@,
        )),
{
    lemma_filtered(s, live_with_tag(tags), x);
    lemma_filtered(s, live_from(least), x);
    lemma_filtered(s, has_open_hook(), x);
    lemma_filtered(s, visible_within(after, before), x);
    lemma_filtered(s, is_live(), x);
    lemma_filtered(s, is_searchable(), x);
    if exists|k: int| 0 <= k < x.tags.len() && tags.contains(#[trigger] x.tags[k]) {
        let k = choose|k: int| 0 <= k < x.tags.len() && tags.contains(#[trigger] x.tags[k]);
        assert(x.tags.contains(x.tags[k]));
    }
    if exists|t: Seq<char>| #[trigger] x.tags.contains(t) && tags.contains(t) {
        let t = choose|t: Seq<char>| #[trigger] x.tags.contains(t) && tags.contains(t);
        assert(tags.contains(x.tags[x.tags.index_of(t)]));
    }
}

/// The memories of identifiers are those that are asked for and not archived: each, and no
/// other.
pub proof fn memories_of_identifiers(s: Seq<ItemView>, ids: Seq<Seq<char>>, x: ItemView)
    requires
        ids_differ(s),
    ensures
        by_ids(s, ids).contains(x) <==> s.contains(x) && !x.consolidated && ids.contains(x.id),
    decreases ids.len(),
{
    if ids.len() > 0 {
        let d = ids.drop_last();
        let id = ids.last();
        memories_of_identifiers(s, d, x);
        lemma_last_with_id(s, id);
        let rest = by_ids(s, d);
        let all = by_ids(s, ids);
        assert(ids.contains(x.id) == (d.contains(x.id) || x.id == id)) by {
            if d.contains(x.id) {
                assert(ids[d.index_of(x.id)] == x.id);
            }
            if x.id == id {
                assert(ids[ids.len() - 1] == x.id);
            }
            if ids.contains(x.id) && x.id != id {
                assert(d[ids.index_of(x.id)] == x.id);
            }
        }
        if rest.contains(x) {
            assert(all[rest.index_of(x)] == x);
        }
        if all.contains(x) && !rest.contains(x) {
            let k = all.index_of(x);
            if k < rest.len() {
                assert(rest[k] == x);
            }
            assert(s.contains(x));
        }
        if s.contains(x) && x.id == id && !d.contains(id) {
            let i = s.index_of(x);
            lemma_only(s, i);
            if !x.consolidated {
                assert(all[rest.len() as int] == x);
            }
        }
    } else {
        assert(!ids.contains(x.id));
    }
}

proof fn lemma_only(s: Seq<ItemView>, i: int)
    requires
        ids_differ(s),
        0 <= i < s.len(),
    ensures
        last_with_id(s, s[i].id) == Some(i),
{
    lemma_last_with_id(s, s[i].id);
    match last_with_id(s, s[i].id) {
        Some(k) => {
            if k < i {
                assert(s[k].id != s[i].id);
            } else if i < k {
                assert(s[i].id != s[k].id);
            }
        },
        None => assert(s[i].id != s[i].id),
    }
}

// ---------------------------------------------------------------------------
// Adding
// ---------------------------------------------------------------------------

pub(crate) proof fn lemma_places(s: Seq<ItemView>, granularity: Seq<char>)
    ensures
        places_of(s, granularity).len() == s.filter(|m: ItemView| m.granularity == granularity).len(),
        forall|k: int|
            0 <= k < places_of(s, granularity).len() ==> 0 <= #[trigger] places_of(s, granularity)[k] < s.len()
                && s[places_of(s, granularity)[k]].granularity == granularity,
        places_of(s, granularity).len() > 0 ==> forall|i: int|
            0 <= i < places_of(s, granularity)[0] ==> (#[trigger] s[i]).granularity != granularity,
        places_of(s, granularity).len() == 0 ==> forall|i: int|
            0 <= i < s.len() ==> (#[trigger] s[i]).granularity != granularity,
    decreases s.len(),
{
    reveal(Seq::filter);
    if s.len() > 0 {
        let d = s.drop_last();
        lemma_places(d, granularity);
        let p = places_of(s, granularity);
        let q = places_of(d, granularity);
        assert forall|i: int| 0 <= i < d.len() implies #[trigger] d[i] == s[i] by {}
        assert forall|k: int| 0 <= k < p.len() implies 0 <= #[trigger] p[k] < s.len() && s[p[k]].granularity
            == granularity by {
            if k < q.len() {
                assert(p[k] == q[k]);
                assert(d[q[k]] == s[q[k]]);
            }
        }
        if q.len() == 0 {
            assert forall|i: int| 0 <= i < d.len() implies (#[trigger] s[i]).granularity != granularity by {
                assert(d[i].granularity != granularity);
            }
        } else {
            assert(p[0] == q[0]);
            assert forall|i: int| 0 <= i < p[0] implies (#[trigger] s[i]).granularity != granularity by {
                assert(d[i].granularity != granularity);
            }
        }
    }
}

/// How many memories of a granularity stay in full: so many turns as are asked for, thirty
/// sessions, two hundred summaries and five hundred keywords. One more makes the first of them
/// only stand for what was; nothing else is touched.
pub proof fn oldest_makes_room(s: Seq<ItemView>, item: ItemView, now: i64, turns: usize, i: int)
    requires
        0 <= i < s.len(),
    ensures
        ({
            let g = granularity_or_turn(item.granularity);
            let cap: int = match g {
                Granularity::Turn => turns as int,
                Granularity::Session => 30,
                Granularity::Summary => 200,
                Granularity::Keyword => 500,
            };
            let there = s.filter(|m: ItemView| m.granularity == g.name()).len();
            let first = s[i].granularity == g.name() && forall|k: int|
                0 <= k < i ==> (#[trigger] s[k]).granularity != g.name();
            let after = with_entry(s, item, now, turns);
            &&& there >= cap && first ==> after[i].consolidated && after[i].content == s[i].content
            &&& !(there >= cap && first) ==> after[i] == s[i]
            &&& after[s.len() as int] == (ItemView { timestamp: now, ..item })
        }),
{
    let g = granularity_or_turn(item.granularity);
    lemma_places(s, g.name());
    let p = places_of(s, g.name());
    if s[i].granularity == g.name() && forall|k: int| 0 <= k < i ==> (#[trigger] s[k]).granularity != g.name() {
        assert(p.len() > 0);
        if p[0] < i {
            assert(s[p[0]].granularity != g.name());
        } else if i < p[0] {
            assert(s[i].granularity != g.name());
        }
        assert(p[0] == i);
    } else if p.len() > 0 && p[0] == i {
        assert(s[i].granularity == g.name());
        assert(false);
    }
}

/// A seed loses a tenth of one for every five real memories beyond ten, down to three tenths;
/// with ten real memories or fewer nothing is lost.
pub proof fn seeds_fade_step_by_step(s: Seq<ItemView>, i: int)
    requires
        0 <= i < s.len(),
        0 <= s[i].importance <= 1_000_000,
    ensures
        ({
            let grown = s.filter(
                |m: ItemView| !(m.id.len() >= 5 && m.id.take(5) == "seed_"@),
            ).len() as int;
            let seed = s[i].id.len() >= 5 && s[i].id.take(5) == "seed_"@;
            let left = s[i].importance - 100_000 * ((grown - 10) / 5);
            faded_seeds(s)[i] == (ItemView {
                importance: if !seed || s[i].protected || grown <= 10 || s[i].importance < 300_000 {
                    s[i].importance
                } else if left < 300_000 {
                    300_000
                } else {
                    left as i64
                },
                ..s[i]
            })
        }),
{
    reveal_strlit("seed_");
    assert("seed_"@.len() == 5);
    let test = |m: ItemView| !(m.id.len() >= 5 && m.id.take(5) == "seed_"@);
    let no_seed = |m: ItemView| !crate::store::is_seed(m);
    assert forall|m: ItemView| #[trigger] test(m) == no_seed(m) by {}
    lemma_same_filter(s, test, no_seed);
    let n = real_count(s) as int;
    assert(n == s.filter(no_seed).len());
    if n > 10 {
        assert(100_000 * ((n - 10) / 5) == (n - 10) / 5 * 100_000);
        assert((n - 10) / 5 >= 0);
    }
}

proof fn lemma_same_filter(s: Seq<ItemView>, a: spec_fn(ItemView) -> bool, b: spec_fn(ItemView) -> bool)
    requires
        forall|m: ItemView| #[trigger] a(m) == b(m),
    ensures
        s.filter(a) == s.filter(b),
    decreases s.len(),
{
    reveal(Seq::filter);
    if s.len() > 0 {
        lemma_same_filter(s.drop_last(), a, b);
    }
}

// ---------------------------------------------------------------------------
// Conflicts
// ---------------------------------------------------------------------------

/// Whether a memory with that identifier is there.
pub open spec fn is_there(s: Seq<ItemView>, id: Seq<char>) -> bool {
    exists|i: int| 0 <= i < s.len() && (#[trigger] s[i]).id == id
}

proof fn lemma_there_without(s: Seq<ItemView>, id: Seq<char>, x: Seq<char>)
    requires
        ids_differ(s),
    ensures
        is_there(without_id(s, id), x) <==> is_there(s, x) && x != id,
        ids_differ(without_id(s, id)),
        without_id(s, id).len() == s.len() - (if is_there(s, id) {
            1int
        } else {
            0
        }),
{
    lemma_last_with_id(s, id);
    let r = without_id(s, id);
    match last_with_id(s, id) {
        None => {
            assert(!is_there(s, id));
        },
        Some(at) => {
            assert(s[at].id == id);
            assert forall|i: int, j: int| 0 <= i < j < r.len() implies (#[trigger] r[i]).id != (
            #[trigger] r[j]).id by {
                let a = if i < at {
                    i
                } else {
                    i + 1
                };
                let b = if j < at {
                    j
                } else {
                    j + 1
                };
                assert(r[i] == s[a] && r[j] == s[b]);
            }
            if is_there(r, x) {
                let i = choose|i: int| 0 <= i < r.len() && (#[trigger] r[i]).id == x;
                let a = if i < at {
                    i
                } else {
                    i + 1
                };
                assert(s[a] == r[i]);
                if a < at {
                    assert(s[a].id != s[at].id);
                } else {
                    assert(s[at].id != s[a].id);
                }
            }
            if is_there(s, x) && x != id {
                let i = choose|i: int| 0 <= i < s.len() && (#[trigger] s[i]).id == x;
                if i < at {
                    assert(r[i].id == x);
                } else {
                    assert(r[i - 1].id == x);
                }
            }
        },
    }
}

proof fn lemma_there_after_writing(s: Seq<ItemView>, item: ItemView, now: i64, turns: usize, x: Seq<char>)
    ensures
        is_there(faded_seeds(with_entry(s, item, now, turns)), x) <==> is_there(s, x) || x == item.id,
{
    let t = with_entry(s, item, now, turns);
    let r = faded_seeds(t);
    let g = granularity_or_turn(item.granularity);
    lemma_places(s, g.name());
    assert forall|i: int| 0 <= i < s.len() implies (#[trigger] t[i]).id == s[i].id by {}
    assert forall|i: int| 0 <= i < r.len() implies (#[trigger] r[i]).id == t[i].id by {}
    if is_there(r, x) {
        let i = choose|i: int| 0 <= i < r.len() && (#[trigger] r[i]).id == x;
        if i < s.len() {
            assert(t[i].id == s[i].id);
        }
    }
    if is_there(s, x) {
        let i = choose|i: int| 0 <= i < s.len() && (#[trigger] s[i]).id == x;
        assert(t[i].id == x);
        assert(r[i].id == x);
    }
    if x == item.id {
        assert(r[s.len() as int].id == x);
    }
}

/// Writing a memory whose conflict calls for it takes out the old memory and no other, and the
/// new one is there; where both stay or the arbiter is waited for, nothing is taken out.
pub proof fn writing_takes_out_only_the_contradicted(
    m: ManagerView,
    item: ItemView,
    o: OutcomeView,
    merged: Seq<char>,
    conflict_id: Seq<char>,
    now: i64,
    x: Seq<char>,
)
    requires
        ids_differ(m.entries),
        x != item.id,
    ensures
        ({
            let after = committed(m, item, o, merged, conflict_id, now).entries;
            &&& is_there(after, item.id)
            &&& match o {
                OutcomeView::ReplaceOld(old) => is_there(after, x) <==> is_there(m.entries, x) && x != old,
                OutcomeView::MergeSupersede(old, _) => is_there(after, x) <==> is_there(m.entries, x) && x
                    != old,
                OutcomeView::KeepBoth => is_there(after, x) <==> is_there(m.entries, x),
                OutcomeView::QueueLlm(_, _, _) => is_there(after, x) <==> is_there(m.entries, x),
            }
        }),
{
    let rest = match o {
        OutcomeView::ReplaceOld(old) => without_id(m.entries, old),
        OutcomeView::MergeSupersede(old, _) => without_id(m.entries, old),
        _ => m.entries,
    };
    match o {
        OutcomeView::ReplaceOld(old) => lemma_there_without(m.entries, old, x),
        OutcomeView::MergeSupersede(old, _) => lemma_there_without(m.entries, old, x),
        _ => {},
    }
    let put = final_item(item, o, merged);
    lemma_there_after_writing(rest, put, now, m.turns, x);
    lemma_there_after_writing(rest, put, now, m.turns, item.id);
}

/// A conflict that is left to the arbiter waits, with both memories named and no try made, where
/// fewer than fifty wait; no other outcome makes one wait.
pub proof fn open_conflict_waits(
    m: ManagerView,
    item: ItemView,
    o: OutcomeView,
    merged: Seq<char>,
    conflict_id: Seq<char>,
    now: i64,
)
    ensures
        ({
            let after = committed(m, item, o, merged, conflict_id, now).conflicts;
            match o {
                OutcomeView::QueueLlm(old, text, alike) => if m.conflicts.len() < 50 {
                    &&& after.len() == m.conflicts.len() + 1
                    &&& after.drop_last() == m.conflicts
                    &&& after.last().old_memory_id == old && after.last().old_content == text
                    &&& after.last().new_memory_id == item.id && after.last().new_content == item.content
                    &&& after.last().similarity == alike && after.last().retry_count == 0
                    &&& after.last().id == conflict_id && after.last().created_at == now
                } else {
                    after == m.conflicts
                },
                _ => after == m.conflicts,
            }
        }),
{
    let after = committed(m, item, o, merged, conflict_id, now).conflicts;
    if o is QueueLlm && m.conflicts.len() < 50 {
        assert(after.drop_last() =~= m.conflicts);
    }
}

/// Settling a conflict in favour of the new memory takes out the old one and no other; a merge
/// gives the new one the merged content and the time; and where both are to stay or the
/// arbiter failed, nothing changes.
pub proof fn settling_takes_out_only_the_old(
    s: Seq<ItemView>,
    c: ConflictView,
    v: Verdict,
    now: i64,
    x: Seq<char>,
)
    requires
        ids_differ(s),
        c.old_memory_id != c.new_memory_id,
    ensures
        v is KeepBoth || v is Failed ==> settled(s, c, v, now) == s,
        v is ReplaceOld || v is MergeSupersede ==> (is_there(settled(s, c, v, now), x) <==> is_there(s, x) && x
            != c.old_memory_id),
        v matches Verdict::MergeSupersede(text) ==> (is_there(s, c.new_memory_id) ==> exists|i: int|
            0 <= i < settled(s, c, v, now).len() && (#[trigger] settled(s, c, v, now)[i]).id
                == c.new_memory_id && settled(s, c, v, now)[i].content == text && settled(
                s,
                c,
                v,
                now,
            )[i].timestamp == now),
{
    match v {
        Verdict::ReplaceOld => lemma_there_without(s, c.old_memory_id, x),
        Verdict::MergeSupersede(text) => {
            let change = |m: ItemView| ItemView { content: text, timestamp: now, ..m };
            let t = edited(s, c.new_memory_id, change);
            lemma_last_with_id(s, c.new_memory_id);
            assert forall|i: int| 0 <= i < s.len() implies (#[trigger] t[i]).id == s[i].id by {}
            assert(ids_differ(t)) by {
                assert forall|i: int, j: int| 0 <= i < j < t.len() implies (#[trigger] t[i]).id != (
                #[trigger] t[j]).id by {
                    assert(s[i].id != s[j].id);
                }
            }
            assert(is_there(t, x) == is_there(s, x)) by {
                if is_there(s, x) {
                    let i = choose|i: int| 0 <= i < s.len() && (#[trigger] s[i]).id == x;
                    assert(t[i].id == x);
                }
                if is_there(t, x) {
                    let i = choose|i: int| 0 <= i < t.len() && (#[trigger] t[i]).id == x;
                    assert(s[i].id == x);
                }
            }
            lemma_there_without(t, c.old_memory_id, x);
            if is_there(s, c.new_memory_id) {
                let at = last_with_id(s, c.new_memory_id)->0;
                assert(t[at].id == c.new_memory_id && t[at].content == text && t[at].timestamp == now);
                lemma_last_with_id(t, c.old_memory_id);
                let r = settled(s, c, v, now);
                assert(r == without_id(t, c.old_memory_id));
                let k = match last_with_id(t, c.old_memory_id) {
                    Some(o) => if at < o {
                        at
                    } else {
                        at - 1
                    },
                    None => at,
                };
                assert(t[at].id != c.old_memory_id);
                assert(r[k] == t[at]);
                assert(r[k].id == c.new_memory_id && r[k].content == text && r[k].timestamp == now);
            }
        },
        _ => {},
    }
}

/// A conflict is dropped as settled when the old memory is gone, waits when only the new one is
/// not there, and is put before the arbiter when both are; it is tried again three times at
/// most.
pub proof fn conflicts_are_tried_three_times(s: Seq<ItemView>, c: ConflictView)
    ensures
        match conflict_step(s, c) {
            ConflictStep::Settled => !is_there(s, c.old_memory_id),
            ConflictStep::Wait => is_there(s, c.old_memory_id) && !is_there(s, c.new_memory_id),
            ConflictStep::Ask => is_there(s, c.old_memory_id) && is_there(s, c.new_memory_id),
        },
        retried(c) is None <==> c.retry_count >= 3,
        retried(c) matches Some(r) ==> r == (ConflictView { retry_count: (c.retry_count + 1) as u32, ..c })
            && r.retry_count <= 3,
{
    lemma_last_with_id(s, c.old_memory_id);
    lemma_last_with_id(s, c.new_memory_id);
}

/// At one time five conflicts at most are worked on, the ones that wait longest; the others stay
/// in their order before those that are tried again.
pub proof fn five_conflicts_at_a_time(m: ManagerView, answers: Seq<Verdict>, now: i64)
    requires
        m.conflicts.len() <= 50,
    ensures
        ({
            let after = conflicts_processed(m, answers, now).conflicts;
            let left = if m.conflicts.len() < 5 {
                Seq::<ConflictView>::empty()
            } else {
                m.conflicts.skip(5)
            };
            &&& left.len() <= after.len()
            &&& after.take(left.len() as int) == left
            &&& after.len() <= m.conflicts.len()
        }),
{
    let n = m.conflicts.len();
    let k: nat = if n < 5 {
        n
    } else {
        5
    };
    let t = tally(m.entries, m.conflicts.take(k as int), answers, now, k);
    lemma_tally(m.entries, m.conflicts.take(k as int), answers, now, k);
    let left = m.conflicts.skip(k as int);
    lemma_requeued(left, t.waiting);
    if n < 5 {
        assert(left =~= Seq::<ConflictView>::empty());
    }
}

proof fn lemma_tally(s: Seq<ItemView>, batch: Seq<ConflictView>, answers: Seq<Verdict>, now: i64, n: nat)
    ensures
        tally(s, batch, answers, now, n).waiting.len() <= n,
    decreases n,
{
    if n > 0 {
        lemma_tally(s, batch, answers, now, (n - 1) as nat);
    }
}

proof fn lemma_requeued(q: Seq<ConflictView>, waiting: Seq<ConflictView>)
    ensures
        q.len() <= requeued(q, waiting).len() <= q.len() + waiting.len(),
        requeued(q, waiting).take(q.len() as int) == q,
    decreases waiting.len(),
{
    if waiting.len() > 0 {
        lemma_requeued(q, waiting.drop_last());
        let r = requeued(q, waiting.drop_last());
        assert(requeued(q, waiting).take(q.len() as int) =~= r.take(q.len() as int));
    } else {
        assert(q.take(q.len() as int) =~= q);
    }
}

// ---------------------------------------------------------------------------
// Changes to one memory
// ---------------------------------------------------------------------------

/// A visit counts once, is noted with its time and heat, and makes a memory more important by a
/// twentieth, up to one; nothing else changes.
pub proof fn visit_counts_once(m: ItemView, heat: i64, now: i64)
    requires
        m.importance <= 1_000_000,
        m.visit_count < u32::MAX,
    ensures
        ({
            let v = visited(m, heat, now);
            &&& v.visit_count == m.visit_count + 1
            &&& v.last_visit_at == now && v.heat_score == heat
            &&& v.importance == m.importance + 50_000 || (v.importance == 1_000_000 && m.importance >= 950_000)
            &&& v.importance <= 1_000_000
            &&& v == (ItemView {
                visit_count: v.visit_count,
                last_visit_at: v.last_visit_at,
                heat_score: v.heat_score,
                importance: v.importance,
                ..m
            })
        }),
{
}

/// Only the memories that are named are visited; each other stays as it is.
pub proof fn only_named_memories_are_visited(
    s: Seq<ItemView>,
    ids: Seq<Seq<char>>,
    heats: Seq<i64>,
    now: i64,
    n: nat,
    i: int,
)
    requires
        n <= ids.len(),
        0 <= i < s.len(),
    ensures
        visits(s, ids, heats, now, n).len() == s.len(),
        visits(s, ids, heats, now, n)[i].id == s[i].id,
        visits(s, ids, heats, now, n)[i].content == s[i].content,
        !ids.take(n as int).contains(s[i].id) ==> visits(s, ids, heats, now, n)[i] == s[i],
        visits(s, ids, heats, now, n)[i].visit_count >= s[i].visit_count,
    decreases n,
{
    if n > 0 {
        let p = (n - 1) as nat;
        only_named_memories_are_visited(s, ids, heats, now, p, i);
        let t = visits(s, ids, heats, now, p);
        lemma_last_with_id(t, ids[n - 1]);
        assert(ids.take(n as int) =~= ids.take(n - 1).push(ids[n - 1]));
        if ids.take(n - 1).contains(s[i].id) {
            assert(ids.take(n as int)[ids.take(n - 1).index_of(s[i].id)] == s[i].id);
        }
        if ids[n - 1] == s[i].id {
            assert(ids.take(n as int)[n - 1] == s[i].id);
        }
    }
}

/// A memory that is part of an episode stays part of it; one that is named and part of none
/// becomes part of the new one, and no other does.
pub proof fn episodes_do_not_change_hands(
    s: Seq<ItemView>,
    ids: Seq<Seq<char>>,
    episode: Seq<char>,
    n: nat,
    i: int,
)
    requires
        ids_differ(s),
        n <= ids.len(),
        0 <= i < s.len(),
    ensures
        ({
            let t = with_episode(s, ids, episode, n).0;
            &&& t.len() == s.len()
            &&& t[i].id == s[i].id
            &&& s[i].episode_id is Some ==> t[i] == s[i]
            &&& s[i].episode_id is None && ids.take(n as int).contains(s[i].id) ==> t[i] == (ItemView {
                episode_id: Some(episode),
                ..s[i]
            })
            &&& s[i].episode_id is None && !ids.take(n as int).contains(s[i].id) ==> t[i] == s[i]
        }),
    decreases n,
{
    if n == 0 {
        assert(!ids.take(0).contains(s[i].id));
    } else {
        let p = (n - 1) as nat;
        let t = with_episode(s, ids, episode, p).0;
        assert forall|k: int| 0 <= k < s.len() implies t.len() == s.len() && (#[trigger] t[k]).id == s[k].id by {
            episodes_do_not_change_hands(s, ids, episode, p, k);
        }
        episodes_do_not_change_hands(s, ids, episode, p, i);
        assert(ids_differ(t)) by {
            assert forall|a: int, b: int| 0 <= a < b < t.len() implies (#[trigger] t[a]).id != (
            #[trigger] t[b]).id by {
                assert(s[a].id != s[b].id);
            }
        }
        let id = ids[n - 1];
        lemma_last_with_id(t, id);
        assert(ids.take(n as int) =~= ids.take(n - 1).push(id));
        if ids.take(n - 1).contains(s[i].id) {
            assert(ids.take(n as int)[ids.take(n - 1).index_of(s[i].id)] == s[i].id);
        }
        if id == s[i].id {
            assert(ids.take(n as int)[n - 1] == s[i].id);
            lemma_only(t, i);
        } else if ids.take(n as int).contains(s[i].id) {
            assert(ids.take(n - 1)[ids.take(n as int).index_of(s[i].id)] == s[i].id);
        }
    }
}

/// A memory has at most one open hook of a type: one more of the type is taken up only where
/// none is open, and then stands last.
pub proof fn one_open_hook_of_a_type(m: ItemView, hook: HookView)
    ensures
        (exists|k: int|
            0 <= k < m.open_hooks.len() && (#[trigger] m.open_hooks[k]).hook_type == hook.hook_type
                && m.open_hooks[k].closed_at is None) ==> with_hook(m, hook) == m,
        !(exists|k: int|
            0 <= k < m.open_hooks.len() && (#[trigger] m.open_hooks[k]).hook_type == hook.hook_type
                && m.open_hooks[k].closed_at is None) ==> with_hook(m, hook).open_hooks == m.open_hooks.push(
            hook,
        ) && with_hook(m, hook).content == m.content,
{
}

// ---------------------------------------------------------------------------
// Deleting and taking back
// ---------------------------------------------------------------------------

proof fn lemma_first_for(s: Seq<RecycleView>, id: Seq<char>)
    ensures
        0 <= first_for(s, id) <= s.len(),
        forall|j: int| 0 <= j < first_for(s, id) ==> (#[trigger] s[j]).item.id != id,
        first_for(s, id) < s.len() ==> s[first_for(s, id)].item.id == id,
    decreases s.len(),
{
    if s.len() > 0 && s[0].item.id != id {
        lemma_first_for(s.skip(1), id);
        let i = first_for(s, id);
        assert forall|j: int| 0 <= j < i implies (#[trigger] s[j]).item.id != id by {
            if j > 0 {
                assert(s.skip(1)[j - 1] == s[j]);
            }
        }
        if i < s.len() {
            assert(s.skip(1)[i - 1] == s[i]);
        }
    }
}

/// Deleting a memory takes it out and no other, and puts it into the bin as it was, with the
/// time and the reason.
pub proof fn deleted_memory_is_in_the_bin(m: ManagerView, id: Seq<char>, reason: Seq<char>, now: i64, x: Seq<char>)
    requires
        ids_differ(m.entries),
        is_there(m.entries, id),
    ensures
        ({
            let after = soft_deleted(m, id, reason, now);
            &&& is_there(after.entries, x) <==> is_there(m.entries, x) && x != id
            &&& after.bin.len() > 0
            &&& after.bin.last().item.id == id && m.entries.contains(after.bin.last().item)
            &&& after.bin.last().deleted_at == now && after.bin.last().reason == reason
        }),
{
    lemma_there_without(m.entries, id, x);
    lemma_last_with_id(m.entries, id);
    let i = last_with_id(m.entries, id)->0;
    assert(m.entries[i].id == id);
}

/// Taking a memory back takes one of its entries out of the bin and puts the memory behind the
/// others; where the bin has none, nothing changes.
pub proof fn restored_memory_leaves_the_bin(m: ManagerView, id: Seq<char>)
    ensures
        ({
            let after = restored(m, id);
            let held = exists|i: int| 0 <= i < m.bin.len() && (#[trigger] m.bin[i]).item.id == id;
            &&& held ==> after.entries.len() == m.entries.len() + 1 && after.entries.last().id == id
                && after.entries.drop_last() == m.entries && after.bin.len() == m.bin.len() - 1
            &&& held ==> exists|i: int|
                0 <= i < m.bin.len() && after.entries.last() == (#[trigger] m.bin[i]).item && after.bin
                    == m.bin.remove(i)
            &&& !held ==> after == m
        }),
{
    lemma_first_for(m.bin, id);
    let i = first_for(m.bin, id);
    let after = restored(m, id);
    if i < m.bin.len() {
        assert(m.bin[i].item.id == id);
        assert(after.entries.drop_last() =~= m.entries);
        assert(after.entries.last() == m.bin[i].item);
    }
}

/// The bin holds five hundred entries: the new one always, and where there are too many the
/// first ones go.
pub proof fn bin_keeps_the_latest(s: Seq<RecycleView>, e: RecycleView)
    requires
        s.len() <= 500,
    ensures
        s.len() < 500 ==> pushed(s, e) == s.push(e),
        s.len() == 500 ==> pushed(s, e) == s.skip(1).push(e),
{
    if s.len() == 500 {
        assert(pushed(s, e) =~= s.skip(1).push(e));
    }
}

/// An entry is kept for seven days: it is still kept a moment before, and no longer when they
/// are over.
pub proof fn bin_keeps_for_seven_days(e: RecycleView, now: i64)
    ensures
        now < e.deleted_at + 604_800_000 ==> fresh(e, now),
        now >= e.deleted_at + 604_800_000 ==> !fresh(e, now),
{
}

/// Without repetitions no two entries of the bin say the same, and whatever one said, one still
/// says.
pub proof fn bin_without_repetitions(s: Seq<RecycleView>, i: int)
    requires
        0 <= i < s.len(),
    ensures
        (forall|j: int| 0 <= j < i ==> (#[trigger] s[j]).item.content != s[i].item.content)
            ==> without_repeats(s).contains(s[i]),
        forall|k: int| 0 <= k < without_repeats(s).len() ==> s.contains(#[trigger] without_repeats(s)[k]),
{
    let flags = Seq::new(s.len(), |k: int| !repeats(s, k));
    if forall|j: int| 0 <= j < i ==> (#[trigger] s[j]).item.content != s[i].item.content {
        assert(!repeats(s, i));
        kept_has(s, flags, i);
    }
    assert forall|k: int| 0 <= k < without_repeats(s).len() implies s.contains(
        #[trigger] without_repeats(s)[k],
    ) by {
        let at = kept_from(s, flags, k);
    }
}

// ---------------------------------------------------------------------------
// Topics
// ---------------------------------------------------------------------------

/// A topic is of interest for a day after it was searched for, and no longer.
pub proof fn topics_stay_for_a_day(h: Seq<(Seq<char>, i64)>, now: i64, q: Seq<char>)
    ensures
        recent_queries(h, now).contains(q) <==> exists|i: int|
            0 <= i < h.len() && (#[trigger] h[i]).0 == q && h[i].1 + 86_400_000 >= now,
    decreases h.len(),
{
    if h.len() > 0 {
        let d = h.drop_last();
        topics_stay_for_a_day(d, now, q);
        let rest = recent_queries(d, now);
        let all = recent_queries(h, now);
        if rest.contains(q) {
            assert(all[rest.index_of(q)] == q);
            let i = choose|i: int| 0 <= i < d.len() && (#[trigger] d[i]).0 == q && d[i].1 + 86_400_000 >= now;
            assert(h[i] == d[i]);
        }
        if all.contains(q) && !rest.contains(q) {
            let k = all.index_of(q);
            if k < rest.len() {
                assert(rest[k] == q);
            }
            assert(h[h.len() - 1].0 == q);
        }
        if exists|i: int| 0 <= i < h.len() && (#[trigger] h[i]).0 == q && h[i].1 + 86_400_000 >= now {
            let i = choose|i: int| 0 <= i < h.len() && (#[trigger] h[i]).0 == q && h[i].1 + 86_400_000 >= now;
            if i < d.len() {
                assert(d[i] == h[i]);
            } else {
                assert(all[rest.len() as int] == q);
            }
        }
    }
}

/// A search makes its topic new; no topic stands twice, twenty at most are kept, and the other
/// topics stay as they are but for the one that stood longest.
pub proof fn searched_topic_is_new(h: Seq<(Seq<char>, i64)>, query: Seq<char>, now: i64)
    requires
        h.len() <= 20,
        trim(query).len() > 0,
        forall|i: int, j: int| 0 <= i < j < h.len() ==> (#[trigger] h[i]).0 != (#[trigger] h[j]).0,
    ensures
        ({
            let r = hinted(h, query, now);
            &&& r.len() <= 20
            &&& r.contains((trim(query), now))
            &&& forall|i: int, j: int| 0 <= i < j < r.len() ==> (#[trigger] r[i]).0 != (#[trigger] r[j]).0
            &&& forall|i: int|
                1 <= i < h.len() && (#[trigger] h[i]).0 != trim(query) ==> r.contains(h[i])
        }),
{
    let q = trim(query);
    let at = first_hint(h, q);
    lemma_hint(h, q);
    let r = hinted(h, query, now);
    if at < h.len() {
        assert(r == h.update(at, (q, now)));
        assert(r[at] == (q, now));
        assert forall|i: int| 1 <= i < h.len() && (#[trigger] h[i]).0 != q implies r.contains(h[i]) by {
            assert(r[i] == h[i]);
        }
        assert forall|i: int, j: int| 0 <= i < j < r.len() implies (#[trigger] r[i]).0 != (
        #[trigger] r[j]).0 by {
            assert(h[i].0 != h[j].0);
        }
    } else {
        assert forall|i: int| 0 <= i < h.len() implies (#[trigger] h[i]).0 != q by {}
        if h.len() == 20 {
            assert(r =~= h.skip(1).push((q, now)));
            assert(r[19] == (q, now));
            assert forall|i: int| 1 <= i < h.len() implies r.contains(#[trigger] h[i]) by {
                assert(r[i - 1] == h[i]);
            }
            assert forall|i: int, j: int| 0 <= i < j < r.len() implies (#[trigger] r[i]).0 != (
            #[trigger] r[j]).0 by {
                assert(r[i] == h[i + 1]);
                if j < 19 {
                    assert(r[j] == h[j + 1]);
                }
            }
        } else {
            assert(r == h.push((q, now)));
            assert(r[h.len() as int] == (q, now));
            assert forall|i: int| 1 <= i < h.len() implies r.contains(#[trigger] h[i]) by {
                assert(r[i] == h[i]);
            }
            assert forall|i: int, j: int| 0 <= i < j < r.len() implies (#[trigger] r[i]).0 != (
            #[trigger] r[j]).0 by {
                assert(r[i] == h[i]);
                if j < h.len() {
                    assert(r[j] == h[j]);
                }
            }
        }
    }
}

proof fn lemma_hint(h: Seq<(Seq<char>, i64)>, q: Seq<char>)
    ensures
        0 <= first_hint(h, q) <= h.len(),
        forall|j: int| 0 <= j < first_hint(h, q) ==> (#[trigger] h[j]).0 != q,
        first_hint(h, q) < h.len() ==> h[first_hint(h, q)].0 == q,
    decreases h.len(),
{
    if h.len() > 0 && h[0].0 != q {
        lemma_hint(h.skip(1), q);
        let i = first_hint(h, q);
        assert forall|j: int| 0 <= j < i implies (#[trigger] h[j]).0 != q by {
            if j > 0 {
                assert(h.skip(1)[j - 1] == h[j]);
            }
        }
        if i < h.len() {
            assert(h.skip(1)[i - 1] == h[i]);
        }
    }
}

} // verus!
