//! What keeping what was found promises: a summary, a fact or an insight is kept beside all that
//! was there, and what it takes the place of is archived.

use crate::conflict::OutcomeView;
use crate::consolidation::{kind_test, of_kind, recent_summaries};
use crate::manager::{all_deleted, ManagerView};
use crate::notes::{keeps_session, with_keywords};
use crate::pipeline::{episode_is, first_live, marked_manager, merge_plan, promoted, summed, EpisodePlan,
    PromotionView, SummaryView, Summing};
use crate::pipeline_laws::lemma_first_live;
use crate::recording::{committed, safe_text};
use crate::relational_recall::{arm_hits, common_hits, nearest_hits, EntityMention, FanoutResult, QueryView,
    RelationalKind};
use crate::retention_laws::{ids_differ, lemma_without};
use crate::stages::{batch_is, mused, reinforce_plan, reinforce_target, Batch, InsightView, Musing};
use crate::store::{capacity, granularity_or_turn, latest, with_entry, with_room, without_id};
use crate::store_laws::{latest_memories_come_first, lemma_filtered, lemma_places};
use crate::strategy::{last_with_id, lemma_last_with_id};
use crate::task_laws::merged_memory_takes_after_the_most_important;
use crate::telling_laws::lemma_joined;
use crate::text::{has_sub, texts};
use crate::topic_merger::{is_plan_for, MergePlan};
use crate::types::{flag_at, item_views, list_at, ItemView};
use crate::writing::{new_fact, nothing_left, WorldFactCategory};
use vstd::prelude::*;
use vstd::string::*;

verus! {

spec fn beside(before: Seq<ItemView>, after: Seq<ItemView>) -> bool {
    before.len() <= after.len() && forall|i: int|
        0 <= i < before.len() ==> (#[trigger] after[i]).id == before[i].id && after[i].content
            == before[i].content
}

proof fn lemma_committed(m: ManagerView, item: ItemView, now: i64)
    ensures
        ({
            let after = committed(m, item, OutcomeView::KeepBoth, Seq::empty(), Seq::empty(), now);
            &&& after.entries.len() == m.entries.len() + 1
            &&& beside(m.entries, after.entries)
            &&& after.entries.last().id == item.id && after.entries.last().content == item.content
            &&& after.entries.last().metadata == item.metadata && after.entries.last().tags == item.tags
            &&& after.entries.last().memory_type == item.memory_type
            &&& after.entries.last().consolidated == item.consolidated
            &&& after.conflicts == m.conflicts
        }),
{
    let g = granularity_or_turn(item.granularity);
    lemma_places(m.entries, g.name());
    let room = with_room(m.entries, g.name(), capacity(g, m.turns) as int);
    assert(room.len() == m.entries.len());
    assert(with_entry(m.entries, item, now, m.turns).last() == (ItemView { timestamp: now, ..item }));
}

/// What is promoted is kept in its own words, without personal data, and with its kind, its tags
/// and what is noted with it; all that was there stays in its place, and no conflict comes of it.
/// What is nothing but placeholders is not kept.
pub proof fn promoted_memory_is_kept(m: ManagerView, p: PromotionView, heat: i64, u: Seq<char>, now: i64)
    ensures
        ({
            let after = promoted(m, p, heat, u, now).0;
            let id = promoted(m, p, heat, u, now).1;
            let x = after.entries.last();
            &&& after.conflicts == m.conflicts
            &&& nothing_left(safe_text(p.content)) ==> after.entries.len() == m.entries.len()
            &&& !nothing_left(safe_text(p.content)) ==> {
                &&& after.entries.len() == m.entries.len() + 1
                &&& x.id == id && x.content == safe_text(p.content) && !x.consolidated
                &&& x.memory_type == p.memory_type.name()
                &&& p.tags.len() > 0 ==> x.tags == p.tags
                &&& forall|k: Seq<char>| #[trigger]
                    p.patch.contains_key(k) ==> x.metadata.contains_key(k) && x.metadata[k] == p.patch[k]
            }
            &&& forall|i: int|
                0 <= i < m.entries.len() ==> (#[trigger] after.entries[i]).id == m.entries[i].id
                    && after.entries[i].content == m.entries[i].content
        }),
{
    let after = promoted(m, p, heat, u, now).0;
    let n = crate::recording::plain_new(
        p.content,
        p.memory_type,
        p.importance,
        p.tags,
        Some(crate::pipeline::inner_metadata(m.char_id)),
        heat,
    );
    let w = crate::pipeline::written(m, n, u, now);
    if !nothing_left(n.content) {
        lemma_committed(m, w.1, now);
        assert(last_with_id(w.0.entries, w.1.id) == Some(w.0.entries.len() - 1));
    } else {
        lemma_last_with_id(m.entries, w.1.id);
    }
}

/// A memory that is marked as summed up is archived, and nothing but that changes.
pub proof fn marked_memory_is_archived(m: ManagerView, id: Seq<char>, i: int)
    requires
        0 <= i < m.entries.len(),
        m.entries[i].id == id,
    ensures
        ({
            let after = marked_manager(m, id).entries;
            &&& after.len() == m.entries.len()
            &&& forall|k: int|
                0 <= k < after.len() ==> (#[trigger] after[k]).id == m.entries[k].id && after[k].content
                    == m.entries[k].content && after[k].importance == m.entries[k].importance && (
                m.entries[k].id != id ==> after[k] == m.entries[k])
            &&& exists|k: int|
                0 <= k < after.len() && (#[trigger] after[k]).id == id && after[k].consolidated && flag_at(
                    after[k].metadata,
                    "summarized"@,
                )
        }),
{
    lemma_last_with_id(m.entries, id);
    assert(last_with_id(m.entries, id) is Some);
    let k = last_with_id(m.entries, id)->0;
    let after = marked_manager(m, id).entries;
    assert(after[k].id == id && after[k].consolidated);
}

spec fn gives_way(after: Seq<ItemView>, id: Seq<char>) -> bool {
    exists|k: int|
        0 <= k < after.len() && (#[trigger] after[k]).id == id && after[k].consolidated && flag_at(
            after[k].metadata,
            "summarized"@,
        )
}

proof fn lemma_gives_way(m: ManagerView, p: PromotionView, heat: i64, u: Seq<char>, now: i64, id: Seq<char>)
    requires
        first_live(m.entries, id) is Some,
    ensures
        ({
            let mid = promoted(m, p, heat, u, now).0;
            let after = marked_manager(mid, id);
            &&& gives_way(after.entries, id)
            &&& after.entries.len() == mid.entries.len()
            &&& beside(m.entries, after.entries)
            &&& after.entries.last().content == mid.entries.last().content
            &&& after.conflicts == m.conflicts
        }),
{
    lemma_first_live(m.entries, id);
    promoted_memory_is_kept(m, p, heat, u, now);
    let mid = promoted(m, p, heat, u, now).0;
    let i = m.entries.index_of(first_live(m.entries, id)->0);
    assert(mid.entries[i].id == id);
    marked_memory_is_archived(mid, id, i);
}

/// A summary that continues an earlier one takes its place: the earlier one is archived as summed
/// up, the new one is kept in its words, and all else stays in its place.
pub proof fn continued_summary_gives_way(
    w: Summing,
    s: SummaryView,
    target: Option<Seq<char>>,
    sources: Seq<Seq<char>>,
    heat: i64,
    u: Seq<char>,
    now: i64,
)
    requires
        !w.failed,
        merge_plan(w.memory, target, s, sources, now) is Some,
    ensures
        ({
            let p = merge_plan(w.memory, target, s, sources, now)->0;
            let after = summed(w, s, target, sources, heat, u, now);
            &&& exists|k: int|
                0 <= k < after.memory.entries.len() && (#[trigger] after.memory.entries[k]).id == target->0
                    && after.memory.entries[k].consolidated && flag_at(
                    after.memory.entries[k].metadata,
                    "summarized"@,
                )
            &&& !nothing_left(safe_text(p.content)) ==> after.memory.entries.len() == w.memory.entries.len() + 1
                && after.memory.entries.last().content == safe_text(p.content)
            &&& forall|i: int|
                0 <= i < w.memory.entries.len() ==> (#[trigger] after.memory.entries[i]).id
                    == w.memory.entries[i].id && after.memory.entries[i].content == w.memory.entries[i].content
            &&& after.merged == w.merged + 1 && after.created == w.created && after.ids == w.ids
        }),
{
    let p = merge_plan(w.memory, target, s, sources, now)->0;
    lemma_gives_way(w.memory, p, heat, u, now, target->0);
    promoted_memory_is_kept(w.memory, p, heat, u, now);
}

/// A summary that continues none is kept as a new one, under the name that is handed on, and all
/// else stays in its place; one whose personal data cannot be taken out ends the work.
pub proof fn new_summary_is_kept(
    w: Summing,
    s: SummaryView,
    target: Option<Seq<char>>,
    sources: Seq<Seq<char>>,
    heat: i64,
    u: Seq<char>,
    now: i64,
)
    requires
        !w.failed,
        merge_plan(w.memory, target, s, sources, now) is None,
    ensures
        ({
            let after = summed(w, s, target, sources, heat, u, now);
            &&& after.failed ==> after.memory == w.memory
            &&& !after.failed ==> after.created == w.created + 1 && after.merged == w.merged
                && after.ids.len() == w.ids.len() + 1
            &&& !after.failed && !nothing_left(safe_text(s.summary)) ==> after.memory.entries.len()
                == w.memory.entries.len() + 1 && after.memory.entries.last().content == safe_text(s.summary)
                && after.memory.entries.last().id == after.ids.last()
                && after.memory.entries.last().tags.contains("session_summary"@)
        }),
{
    let p = crate::pipeline::new_summary(s, sources, now);
    promoted_memory_is_kept(w.memory, p, heat, u, now);
    assert(p.tags[0] == "session_summary"@);
}

/// An insight that says an earlier one again takes its place: the earlier one is archived, and
/// the new one is kept in its words.
pub proof fn repeated_insight_gives_way(
    w: Musing,
    i: InsightView,
    existing: Seq<ItemView>,
    heat: i64,
    u: Seq<char>,
    now: i64,
)
    requires
        !w.failed,
        reinforce_plan(w.memory, reinforce_target(i.source_ids, existing), i, now) is Some,
    ensures
        ({
            let target = reinforce_target(i.source_ids, existing);
            let p = reinforce_plan(w.memory, target, i, now)->0;
            let after = mused(w, i, existing, heat, u, now);
            &&& exists|k: int|
                0 <= k < after.memory.entries.len() && (#[trigger] after.memory.entries[k]).id == target->0
                    && after.memory.entries[k].consolidated && flag_at(
                    after.memory.entries[k].metadata,
                    "summarized"@,
                )
            &&& !nothing_left(safe_text(p.content)) ==> after.memory.entries.len() == w.memory.entries.len() + 1
                && after.memory.entries.last().content == safe_text(p.content)
            &&& after.reinforced == w.reinforced + 1 && after.created == w.created
        }),
{
    let target = reinforce_target(i.source_ids, existing);
    let p = reinforce_plan(w.memory, target, i, now)->0;
    lemma_gives_way(w.memory, p, heat, u, now, target->0);
    promoted_memory_is_kept(w.memory, p, heat, u, now);
}

/// An insight that says none again is kept as a new one, in its words.
pub proof fn new_insight_is_kept(
    w: Musing,
    i: InsightView,
    existing: Seq<ItemView>,
    heat: i64,
    u: Seq<char>,
    now: i64,
)
    requires
        !w.failed,
        reinforce_plan(w.memory, reinforce_target(i.source_ids, existing), i, now) is None,
    ensures
        ({
            let after = mused(w, i, existing, heat, u, now);
            &&& after.failed ==> after.memory == w.memory
            &&& !after.failed ==> after.created == w.created + 1 && after.reinforced == w.reinforced
            &&& !after.failed && !nothing_left(safe_text(i.insight)) ==> after.memory.entries.len()
                == w.memory.entries.len() + 1 && after.memory.entries.last().content == safe_text(i.insight)
                && after.memory.entries.last().tags.contains("insight"@)
        }),
{
    let p = crate::stages::new_insight(i, now);
    promoted_memory_is_kept(w.memory, p, heat, u, now);
    assert(p.tags[0] == "insight"@);
}

// ---------------------------------------------------------------------------
// What is planned
// ---------------------------------------------------------------------------

/// A model is shown the latest session summaries, five at most, latest first.
pub proof fn latest_summaries_are_shown(all: Seq<ItemView>, x: ItemView)
    ensures
        ({
            let r = recent_summaries(all);
            &&& r.len() <= 5
            &&& forall|i: int, j: int|
                0 <= i < j < r.len() ==> (#[trigger] r[i]).timestamp >= (#[trigger] r[j]).timestamp
            &&& r.contains(x) ==> all.contains(x) && of_kind(x, "session_summary"@)
            &&& all.contains(x) && of_kind(x, "session_summary"@) && !r.contains(x) ==> r.len() == 5
                && forall|i: int| 0 <= i < r.len() ==> (#[trigger] r[i]).timestamp >= x.timestamp
        }),
{
    let some = all.filter(kind_test("session_summary"@));
    let r = recent_summaries(all);
    latest_memories_come_first(some, 5);
    lemma_filtered(all, kind_test("session_summary"@), x);
    if r.contains(x) {
        assert(some.contains(r[r.index_of(x)]));
    }
    if some.contains(x) && !r.contains(x) {
        let k = some.index_of(x);
        assert(some[k] == x);
        if r.len() < 5 {
            assert(r.len() == some.len());
            lemma_all_given(some, r, k);
        }
    }
}

proof fn lemma_all_given(s: Seq<ItemView>, r: Seq<ItemView>, k: int)
    requires
        r == latest(s, 5),
        r.len() < 5,
        0 <= k < s.len(),
    ensures
        r.contains(s[k]),
{
    crate::rank::order_sorts(crate::store::item_times(s));
    let order = crate::rank::order_of(crate::store::item_times(s));
    latest_memories_come_first(s, 5);
    assert(order.contains(k));
    let at = order.index_of(k);
    assert(r[at] == s[k]);
}

/// The memory that takes the place of several is as old as the oldest of them, matters at least as
/// much as any that matters less than 0.95, and names them all.
pub proof fn merged_memory_names_what_it_merges(
    plan: MergePlan,
    cluster: Seq<ItemView>,
    content: Seq<char>,
    now: i64,
    k: int,
)
    requires
        is_plan_for(plan, cluster, content, now),
        0 <= k < cluster.len(),
    ensures
        plan.content@ == content,
        plan.timestamp <= cluster[k].timestamp,
        cluster[k].importance <= 950_000 ==> plan.importance >= cluster[k].importance,
        texts(plan.original_ids@).len() == cluster.len() && texts(plan.original_ids@)[k] == cluster[k].id,
        list_at(plan.metadata@, "merged_from"@).contains(cluster[k].id),
{
    reveal_strlit("merged_from");
    reveal_strlit("merged_at");
    reveal_strlit("cluster_size");
    assert("merged_from"@.len() == 11);
    assert("merged_at"@.len() == 9);
    assert("cluster_size"@.len() == 12);
    merged_memory_takes_after_the_most_important(cluster, k);
    let ids = crate::topic_merger::ids_of(cluster);
    assert(ids[k] == cluster[k].id);
    assert(list_at(plan.metadata@, "merged_from"@) == ids);
}

/// An episode names the memories that it closes and the summaries that came of them, each memory
/// with its own time and importance.
pub proof fn episode_names_its_memories(
    e: EpisodePlan,
    short: Seq<ItemView>,
    list: Seq<SummaryView>,
    new_ids: Seq<Seq<char>>,
    i: int,
    k: int,
)
    requires
        episode_is(e, short, list, new_ids),
    ensures
        e.memory_ids@.len() == short.len() + new_ids.len(),
        0 <= i < short.len() ==> texts(e.memory_ids@)[i] == short[i].id && e.timestamps@[i] == short[i].timestamp
            && e.importances@[i] == short[i].importance,
        0 <= k < new_ids.len() ==> texts(e.memory_ids@).contains(new_ids[k]),
        0 <= k < list.len() ==> has_sub(e.summary@, list[k].summary),
        e.topic is None <==> list.len() == 0,
{
    assert(texts(e.memory_ids@).len() == e.memory_ids@.len());
    if 0 <= i < short.len() {
        assert(texts(e.memory_ids@)[i] == short[i].id);
    }
    if 0 <= k < new_ids.len() {
        assert(texts(e.memory_ids@)[short.len() + k] == new_ids[k]);
    }
    if 0 <= k < list.len() {
        lemma_joined(list.map_values(|x: SummaryView| x.summary), "\n"@, k);
    }
}

/// A batch hands on the names of its memories, each in its place.
pub proof fn batch_names_its_memories(b: Batch, sources: Seq<ItemView>, i: int)
    requires
        batch_is(b, sources),
        0 <= i < sources.len(),
    ensures
        b.sources@.len() == sources.len() && b.source_ids@.len() == sources.len(),
        b.sources@[i]@ == sources[i],
        b.source_ids@[i]@ == sources[i].id,
{
    assert(item_views(b.sources@)[i] == b.sources@[i]@);
    assert(texts(b.source_ids@).len() == b.source_ids@.len());
    assert(item_views(b.sources@).len() == b.sources@.len());
    assert(texts(b.source_ids@)[i] == b.source_ids@[i]@);
}

/// A session is kept with its summary and each keyword that says something: so many memories
/// come to those that were there. It is its own first relation.
pub proof fn session_is_kept_with_its_keywords(
    before: ManagerView,
    after: ManagerView,
    item: ItemView,
    summary: Seq<char>,
    keywords: Seq<Seq<char>>,
    importance: i64,
    now: i64,
    u: Seq<char>,
    us: Seq<Seq<char>>,
)
    requires
        keeps_session(before, after, item, summary, keywords, importance, now, u, us),
    ensures
        item.content == summary && item.importance == importance && item.related_ids == seq![item.id],
        after.entries.len() == before.entries.len() + 1 + keywords.filter(|w: Seq<char>| w.len() > 0).len(),
        after.conflicts == before.conflicts,
{
    let session = crate::notes::session_item(u, summary, keywords, importance, now);
    let s = with_entry(before.entries, session, now, before.turns);
    lemma_entry_len(before.entries, session, now, before.turns);
    lemma_keywords_len(s, keywords, us, session.id, importance, now, before.turns, keywords.len());
    assert(keywords.take(keywords.len() as int) =~= keywords);
}

proof fn lemma_entry_len(s: Seq<ItemView>, item: ItemView, now: i64, turns: usize)
    ensures
        with_entry(s, item, now, turns).len() == s.len() + 1,
{
    let g = granularity_or_turn(item.granularity);
    lemma_places(s, g.name());
    assert(with_room(s, g.name(), capacity(g, turns) as int).len() == s.len());
}

proof fn lemma_keywords_len(
    s: Seq<ItemView>,
    keywords: Seq<Seq<char>>,
    us: Seq<Seq<char>>,
    session_id: Seq<char>,
    importance: i64,
    now: i64,
    turns: usize,
    n: nat,
)
    requires
        n <= keywords.len(),
    ensures
        with_keywords(s, keywords, us, session_id, importance, now, turns, n).len() == s.len() + keywords.take(
            n as int,
        ).filter(|w: Seq<char>| w.len() > 0).len(),
    decreases n,
{
    reveal(Seq::filter);
    if n > 0 {
        lemma_keywords_len(s, keywords, us, session_id, importance, now, turns, (n - 1) as nat);
        let rest = with_keywords(s, keywords, us, session_id, importance, now, turns, (n - 1) as nat);
        assert(keywords.take(n as int).drop_last() =~= keywords.take(n - 1));
        lemma_entry_len(
            rest,
            crate::notes::keyword_item(us[n - 1], keywords[n - 1], session_id, importance, now),
            now,
            turns,
        );
    }
}

/// Deleting several takes out each of them where names do not repeat, and nothing else.
pub proof fn all_that_is_named_is_deleted(m: ManagerView, ids: Seq<Seq<char>>, now: i64, n: nat, x: ItemView)
    requires
        ids_differ(m.entries),
        n <= ids.len(),
    ensures
        ids_differ(all_deleted(m, ids, now, n).entries),
        all_deleted(m, ids, now, n).entries.contains(x) <==> m.entries.contains(x) && !ids.take(
            n as int,
        ).contains(x.id),
    decreases n,
{
    if n > 0 {
        let before = all_deleted(m, ids, now, (n - 1) as nat);
        all_that_is_named_is_deleted(m, ids, now, (n - 1) as nat, x);
        lemma_without(before.entries, ids[n - 1], x);
        assert(all_deleted(m, ids, now, n).entries == without_id(before.entries, ids[n - 1]));
        let a = ids.take(n - 1);
        let b = ids.take(n as int);
        if a.contains(x.id) {
            assert(b[a.index_of(x.id)] == x.id);
        }
        if b.contains(x.id) {
            let k = b.index_of(x.id);
            if k < n - 1 {
                assert(a[k] == x.id);
            }
        }
        if x.id == ids[n - 1] {
            assert(b[n - 1] == x.id);
        }
    }
}

/// What goes to the shared world is the fact in its words, from the one who told it, at its time,
/// and said once.
pub proof fn shared_fact_is_told_once(
    content: Seq<char>,
    category: WorldFactCategory,
    importance: i64,
    who: Seq<char>,
    memory_id: Seq<char>,
    number: u32,
    second: u64,
)
    requires
        second <= i64::MAX,
    ensures
        ({
            let f = new_fact(content, category, importance, who, memory_id, number, second);
            &&& f.fact_text == content && f.category == category && f.importance == importance
            &&& f.contributors == seq![who] && f.source_event_ids == seq![memory_id]
            &&& f.created_at == second && f.last_reinforced_at == second && f.reinforcement_count == 0
        }),
{
}

/// Two that a question connects are looked for together; one alone is looked for by itself, and a
/// question that names no one gives nothing.
pub proof fn questions_look_for_whom_they_name(
    q: QueryView,
    first: Seq<FanoutResult>,
    second: Seq<FanoutResult>,
    mentions: Seq<EntityMention>,
    limit: int,
)
    ensures
        q.seeds.len() == 0 ==> arm_hits(q, first, second, mentions, limit).len() == 0,
        q.seeds.len() == 1 || (q.seeds.len() > 0 && q.kind != RelationalKind::Connects) ==> arm_hits(
            q,
            first,
            second,
            mentions,
            limit,
        ) == arm_hits(q, first, Seq::empty(), mentions, limit),
        q.seeds.len() >= 2 && q.kind == RelationalKind::Connects ==> arm_hits(
            q,
            first,
            second,
            mentions,
            limit,
        ) == nearest_hits(
            common_hits(first, second, mentions, q.seeds[0] + "+"@ + q.seeds[1], first.len()),
            limit,
        ),
{
}

} // verus!
