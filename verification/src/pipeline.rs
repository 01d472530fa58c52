//! How short memories become lasting ones: short-term memories are summed up, summaries
//! become facts, and facts become insights. A model is asked outside; what it answered comes
//! in as an argument.

use crate::conflict::OutcomeView;
use crate::consolidation::{is_content_redundant, joined, of_kind, says_no_more, union_holds_both,
    union_strings};
use crate::manager::{ManagerView, MemoryManager};
use crate::notes::ids_of;
use crate::recording::{committed, kept_memory_is_found, plain_new, safe_text, writes};
use crate::redact::{apart, found, lemma_remembers_more, lemma_remembers_one, pii_in, remembers, remembers_all,
    TrackerStore};
use crate::store::{edited, holds_id, patched, summarized, summed_up};
use crate::strategy::{last_with_id, lemma_last_with_id};
use crate::text::{copy_strings, count_chars, first_chars, head_of, join, join_strings, list_has, opt_text,
    same, texts};
use crate::tokens::{distinct_words, distinct_words_hold_all};
use crate::types::{is_storable_time, item_id, item_views, list_at, seconds_value, seconds_view, ItemView,
    MemoryItem, MemoryType, MetaValue, MetaView, Metadata};
use crate::writing::{drafted, nothing_left, skipped_draft, NewView};
use vstd::prelude::*;
use vstd::string::*;

verus! {

/// How warm a summary is that is worth drawing facts from, in millionths.
pub const STAGE2_HEAT_THRESHOLD: i64 = 2_500_000;

/// After how long a summary that nobody looked at is drawn from, in milliseconds.
pub const STAGE2_FALLBACK_MILLIS: i64 = 86_400_000;

/// How many new lasting memories call for insights.
pub const STAGE3_NEW_LTM_THRESHOLD: usize = 5;

/// How much importance of new lasting memories calls for insights, in hundredths.
pub const STAGE3_IMPORTANCE_SUM: u64 = 800;

/// How long is waited between two summaries, in milliseconds.
pub const STAGE1_COOLDOWN_MILLIS: i64 = 120_000;

/// How many sources two insights share that say the same.
pub const SEMANTIC_REINFORCEMENT_OVERLAP: usize = 2;

// ---------------------------------------------------------------------------
// What a model answers
// ---------------------------------------------------------------------------

/// A summary that a model gave.
#[derive(Debug)]
pub struct SummaryItem {
    pub summary: String,
    /// In millionths.
    pub importance: i64,
    pub mood_tags: Vec<String>,
    pub date_labels: Vec<String>,
    pub time_of_days: Vec<String>,
}

/// What a summary is.
pub struct SummaryView {
    pub summary: Seq<char>,
    pub importance: i64,
    pub mood_tags: Seq<Seq<char>>,
    pub date_labels: Seq<Seq<char>>,
    pub time_of_days: Seq<Seq<char>>,
}

impl View for SummaryItem {
    type V = SummaryView;

    open spec fn view(&self) -> SummaryView {
        SummaryView {
            summary: self.summary@,
            importance: self.importance,
            mood_tags: texts(self.mood_tags@),
            date_labels: texts(self.date_labels@),
            time_of_days: texts(self.time_of_days@),
        }
    }
}

/// A fact that a model gave.
#[derive(Debug)]
pub struct FactItem {
    pub fact: String,
    pub fact_type: String,
    /// In millionths.
    pub importance: i64,
    pub topic: String,
}

/// The topic of a fact that was given none.
pub fn default_topic() -> (r: String)
    ensures
        r@ == "general"@,
{
    "general".to_owned()
}

/// An insight that a model gave.
#[derive(Debug)]
pub struct InsightItem {
    pub insight: String,
    /// In millionths.
    pub importance: i64,
    pub source_ids: Vec<String>,
}

/// How the user felt towards the character.
#[derive(Debug)]
pub struct RelationshipSignalItem {
    pub user_mood: String,
    pub relationship_signal: String,
    pub important_moment: Option<String>,
    pub next_care_cue: String,
}

/// What the user is up to.
#[derive(Debug)]
pub struct L1RecentStateUpdate {
    pub recent_goals: Vec<String>,
    pub current_projects: Vec<String>,
    pub recent_preferences: Vec<String>,
}

impl Default for L1RecentStateUpdate {
    fn default() -> (r: L1RecentStateUpdate)
        ensures
            r.recent_goals@.len() == 0,
            r.current_projects@.len() == 0,
            r.recent_preferences@.len() == 0,
    {
        L1RecentStateUpdate {
            recent_goals: Vec::new(),
            current_projects: Vec::new(),
            recent_preferences: Vec::new(),
        }
    }
}

/// Whether the model said what the user is up to.
pub open spec fn tells_state(s: L1RecentStateUpdate) -> bool {
    s.recent_goals@.len() > 0 || s.current_projects@.len() > 0 || s.recent_preferences@.len() > 0
}

/// The state, where it tells something.
pub fn keep_state(s: L1RecentStateUpdate) -> (r: Option<L1RecentStateUpdate>)
    ensures
        r == (if tells_state(s) {
            Some(s)
        } else {
            None
        }),
{
    if s.recent_goals.len() > 0 || s.current_projects.len() > 0 || s.recent_preferences.len() > 0 {
        Some(s)
    } else {
        None
    }
}

/// How a character behaves, in the words of a model.
#[derive(Debug)]
pub struct AcquiredBehaviorItem {
    pub category: String,
    pub description: String,
    /// In millionths.
    pub confidence: i64,
}

/// How a character behaves.
#[derive(Debug)]
pub struct AcquiredBehavior {
    pub category: String,
    pub description: String,
    pub evidence: Vec<String>,
    /// In millionths.
    pub confidence: i64,
    pub acquired_at: i64,
}

/// What was learnt of a behaviour at `now`: without evidence, and with a confidence between
/// none and one.
pub open spec fn acquires(b: AcquiredBehavior, i: AcquiredBehaviorItem, now: i64) -> bool {
    &&& b.category@ == i.category@
    &&& b.description@ == i.description@
    &&& b.evidence@.len() == 0
    &&& b.confidence == crate::writing::clamped(i.confidence)
    &&& b.acquired_at == now
}

/// What was learnt of the behaviours at `now`.
pub fn acquire_behaviors(items: &Vec<AcquiredBehaviorItem>, now: i64) -> (out: Vec<AcquiredBehavior>)
    ensures
        out@.len() == items@.len(),
        forall|k: int| 0 <= k < out@.len() ==> acquires(#[trigger] out@[k], items@[k], now),
{
    let mut out: Vec<AcquiredBehavior> = Vec::new();
    let mut i: usize = 0;
    while i < items.len()
        invariant
            i <= items@.len(),
            out@.len() == i,
            forall|k: int| 0 <= k < i ==> acquires(#[trigger] out@[k], items@[k], now),
        decreases items@.len() - i,
    {
        out.push(
            AcquiredBehavior {
                category: items[i].category.clone(),
                description: items[i].description.clone(),
                evidence: Vec::new(),
                confidence: crate::writing::clamp_importance(items[i].confidence),
                acquired_at: now,
            },
        );
        i += 1;
    }
    out
}

/// What a consolidation did.
#[derive(Debug)]
pub struct ConsolidationReport {
    pub stage1_summaries: usize,
    pub stage2_facts: usize,
    pub stage3_insights: usize,
    pub stage3_concepts: usize,
    pub stage2_acquired_behaviors: Vec<AcquiredBehavior>,
    pub stage2_relationship_signals: Vec<RelationshipSignalItem>,
    pub stage2_recent_state: Option<L1RecentStateUpdate>,
}

impl Default for ConsolidationReport {
    fn default() -> (r: ConsolidationReport)
        ensures
            r.stage1_summaries == 0,
            r.stage2_facts == 0,
            r.stage3_insights == 0,
            r.stage3_concepts == 0,
            r.stage2_acquired_behaviors@.len() == 0,
            r.stage2_relationship_signals@.len() == 0,
            r.stage2_recent_state is None,
    {
        ConsolidationReport {
            stage1_summaries: 0,
            stage2_facts: 0,
            stage3_insights: 0,
            stage3_concepts: 0,
            stage2_acquired_behaviors: Vec::new(),
            stage2_relationship_signals: Vec::new(),
            stage2_recent_state: None,
        }
    }
}

// ---------------------------------------------------------------------------
// Memories that come out
// ---------------------------------------------------------------------------

/// A memory that is drawn from others.
pub struct Promotion {
    pub content: String,
    pub memory_type: MemoryType,
    pub importance: i64,
    pub tags: Vec<String>,
    /// What is added to its metadata.
    pub patch: Metadata,
}

/// What a memory drawn from others is.
pub struct PromotionView {
    pub content: Seq<char>,
    pub memory_type: MemoryType,
    pub importance: i64,
    pub tags: Seq<Seq<char>>,
    pub patch: Map<Seq<char>, MetaView>,
}

impl View for Promotion {
    type V = PromotionView;

    open spec fn view(&self) -> PromotionView {
        PromotionView {
            content: self.content@,
            memory_type: self.memory_type,
            importance: self.importance,
            tags: texts(self.tags@),
            patch: self.patch@,
        }
    }
}

/// The metadata of something that a character says to itself.
pub open spec fn inner_metadata(char_id: Seq<char>) -> Map<Seq<char>, MetaView> {
    Map::<Seq<char>, MetaView>::empty().insert("channel"@, MetaView::Text("inner"@)).insert(
        "speaker"@,
        MetaView::Text(char_id),
    ).insert("listener"@, MetaView::Text(char_id)).insert(
        "perspective"@,
        MetaView::Text("speaker"@),
    ).insert("knowledge_source"@, MetaView::Text("extracted"@))
}

fn inner_meta(char_id: &str) -> (r: Metadata)
    ensures
        r@ == inner_metadata(char_id@),
{
    let mut m = Metadata::new();
    m.insert("channel", MetaValue::Text("inner".to_owned()));
    m.insert("speaker", MetaValue::Text(char_id.to_owned()));
    m.insert("listener", MetaValue::Text(char_id.to_owned()));
    m.insert("perspective", MetaValue::Text("speaker".to_owned()));
    m.insert("knowledge_source", MetaValue::Text("extracted".to_owned()));
    m
}

/// The manager and the memory after a content was written at `now`, with an identifier made
/// of `u`.
pub open spec fn written(m: ManagerView, n: NewView, u: Seq<char>, now: i64) -> (ManagerView, ItemView) {
    if nothing_left(n.content) {
        (m, skipped_draft(n, u, now))
    } else {
        let d = drafted(n, m.session_id, u, now);
        (
            committed(
                m,
                d,
                OutcomeView::KeepBoth,
                Seq::empty(),
                Seq::empty(),
                now,
            ),
            d,
        )
    }
}

/// The manager after a memory drawn from others was kept, and the identifier of it.
pub open spec fn promoted(m: ManagerView, p: PromotionView, heat: i64, u: Seq<char>, now: i64) -> (
    ManagerView,
    Seq<char>,
) {
    let w = written(
        m,
        plain_new(
            p.content,
            p.memory_type,
            p.importance,
            p.tags,
            Some(inner_metadata(m.char_id)),
            heat,
        ),
        u,
        now,
    );
    (patched_manager(w.0, w.1.id, p.patch), w.1.id)
}

/// The manager after metadata were added to a memory.
pub open spec fn patched_manager(m: ManagerView, id: Seq<char>, patch: Map<Seq<char>, MetaView>) -> ManagerView {
    ManagerView {
        entries: edited(m.entries, id, |x: ItemView| patched(x, patch)),
        dirty: m.dirty || holds_id(m.entries, id),
        ..m
    }
}

/// The manager after a summary stands for a memory.
pub open spec fn marked_manager(m: ManagerView, id: Seq<char>) -> ManagerView {
    ManagerView {
        entries: edited(m.entries, id, |x: ItemView| summarized(x)),
        dirty: m.dirty || holds_id(m.entries, id),
        ..m
    }
}

/// The manager after summaries stand for the first `n` memories.
pub open spec fn marked_all(m: ManagerView, ids: Seq<Seq<char>>, n: nat) -> ManagerView
    decreases n,
{
    if n == 0 {
        m
    } else {
        marked_manager(marked_all(m, ids, (n - 1) as nat), ids[n - 1])
    }
}

/// Marking memories changes neither their number nor what they say, and marks each of those
/// that are there.
pub proof fn marking_keeps_contents(m: ManagerView, ids: Seq<Seq<char>>, n: nat)
    requires
        n <= ids.len(),
    ensures
        ({
            let s = m.entries;
            let t = marked_all(m, ids, n).entries;
            &&& t.len() == s.len()
            &&& forall|k: int|
                0 <= k < s.len() ==> (#[trigger] t[k]).id == s[k].id && t[k].content == s[k].content && (
                s[k].consolidated ==> t[k].consolidated)
            &&& forall|k: int| 0 <= k < s.len() && summed_up(s[k]) ==> summed_up(#[trigger] t[k])
            &&& forall|j: int|
                0 <= j < n && holds_id(s, #[trigger] ids[j]) ==> {
                    let i = last_with_id(s, ids[j])->0;
                    t[i].consolidated && summed_up(t[i])
                }
        }),
    decreases n,
{
    if n > 0 {
        let s = m.entries;
        let p = (n - 1) as nat;
        marking_keeps_contents(m, ids, p);
        let r = marked_all(m, ids, p).entries;
        let t = marked_all(m, ids, n).entries;
        lemma_same_last(s, r, ids[n - 1]);
        lemma_last_with_id(s, ids[n - 1]);
        assert forall|j: int| 0 <= j < n && holds_id(s, #[trigger] ids[j]) implies ({
            let i = last_with_id(s, ids[j])->0;
            t[i].consolidated && summed_up(t[i])
        }) by {
            lemma_last_with_id(s, ids[j]);
        }
    }
}

/// The last memory of an identifier stands where it stands in a list of the same
/// identifiers.
proof fn lemma_same_last(s: Seq<ItemView>, t: Seq<ItemView>, id: Seq<char>)
    requires
        s.len() == t.len(),
        forall|k: int| 0 <= k < s.len() ==> (#[trigger] t[k]).id == s[k].id,
    ensures
        last_with_id(s, id) == last_with_id(t, id),
    decreases s.len(),
{
    if s.len() > 0 {
        assert(t[s.len() - 1].id == s[s.len() - 1].id);
        let u = t.drop_last();
        assert forall|k: int| 0 <= k < s.len() - 1 implies (#[trigger] u[k]).id == s.drop_last()[k].id by {
            assert(u[k] == t[k]);
        }
        lemma_same_last(s.drop_last(), u, id);
    }
}

pub(crate) fn mark_all(memory: &mut MemoryManager, ids: &Vec<String>)
    ensures
        final(memory)@ == marked_all(old(memory)@, texts(ids@), ids@.len()),
{
    let ghost was = memory@;
    let ghost all = texts(ids@);
    let mut i: usize = 0;
    while i < ids.len()
        invariant
            i <= ids@.len(),
            all == texts(ids@),
            memory@ == marked_all(was, all, i as nat),
        decreases ids@.len() - i,
    {
        assert(all[i as int] == ids@[i as int]@);
        let _ = memory.mark_summarized(ids[i].as_str());
        i += 1;
    }
}

/// Keeps a memory drawn from others, and gives the identifier of it; `None` where personal
/// data cannot be taken out of its content.
pub fn promote(
    memory: &mut MemoryManager,
    trackers: &mut TrackerStore,
    p: &Promotion,
    heat: i64,
    now: i64,
) -> (r: Option<String>)
    ensures
        r is None == !apart(pii_in(p@.content)),
        r is None ==> final(memory)@ == old(memory)@,
        r is Some ==> exists|u: Seq<char>|
            u.len() == 36 && #[trigger] promoted(old(memory)@, p@, heat, u, now) == (
                final(memory)@,
                r->0@,
            ),
        remembers(old(trackers).entries@, final(trackers).entries@, found(p@.content, 8), p@.content),
{
    let ghost was = memory@;
    let meta = inner_meta(memory.char_id());
    let ghost n = plain_new(
        p@.content,
        p@.memory_type,
        p@.importance,
        p@.tags,
        Some(inner_metadata(was.char_id)),
        heat,
    );
    match memory.add_memory_with_metadata(
        trackers,
        p.content.as_str(),
        p.memory_type,
        p.importance,
        copy_strings(&p.tags),
        meta,
        heat,
        now,
    ) {
        None => None,
        Some(item) => {
            let ghost mid = memory@;
            let ghost iv = item@;
            let _ = memory.patch_memory_metadata(item.id.as_str(), &p.patch);
            proof {
                let u = choose|u: Seq<char>|
                    u.len() == 36 && #[trigger] item_id(u).len() >= 0 && writes(
                        was,
                        mid,
                        iv,
                        n,
                        u,
                        now,
                    );
                assert(written(was, n, u, now) == (mid, iv));
                assert(promoted(was, p@, heat, u, now) == (memory@, iv.id));
            }
            Some(item.id)
        },
    }
}

// ---------------------------------------------------------------------------
// Summing up
// ---------------------------------------------------------------------------

/// The metadata with a list under a key, where it is not empty.
pub open spec fn with_list(meta: Map<Seq<char>, MetaView>, key: Seq<char>, list: Seq<Seq<char>>) -> Map<
    Seq<char>,
    MetaView,
> {
    if list.len() > 0 {
        meta.insert(key, MetaView::List(list))
    } else {
        meta
    }
}

/// The metadata with a list under a key and its first text under another, where the list is
/// not empty.
pub open spec fn with_list_and_first(
    meta: Map<Seq<char>, MetaView>,
    key: Seq<char>,
    list: Seq<Seq<char>>,
    first: Seq<char>,
) -> Map<Seq<char>, MetaView> {
    if list.len() > 0 {
        meta.insert(key, MetaView::List(list)).insert(first, MetaView::Text(list[0]))
    } else {
        meta
    }
}

fn put_list(meta: &mut Metadata, key: &str, list: &Vec<String>)
    ensures
        final(meta)@ == with_list(old(meta)@, key@, texts(list@)),
{
    assert(texts(list@).len() == list@.len());
    if list.len() > 0 {
        meta.insert(key, MetaValue::List(copy_strings(list)));
    }
}

fn put_list_and_first(meta: &mut Metadata, key: &str, list: &Vec<String>, first: &str)
    ensures
        final(meta)@ == with_list_and_first(old(meta)@, key@, texts(list@), first@),
{
    assert(texts(list@).len() == list@.len());
    if list.len() > 0 {
        assert(texts(list@)[0] == list@[0]@);
        meta.insert(key, MetaValue::List(copy_strings(list)));
        meta.insert(first, MetaValue::Text(list[0].clone()));
    }
}

/// Where a memory comes from, when it was drawn, and at which stage.
pub open spec fn origin(
    meta: Map<Seq<char>, MetaView>,
    source_ids: Seq<Seq<char>>,
    now: i64,
    stage: Seq<char>,
) -> Map<Seq<char>, MetaView> {
    meta.insert("promoted_from"@, MetaView::List(source_ids)).insert(
        "promoted_at"@,
        seconds_view(now),
    ).insert("consolidation_stage"@, MetaView::Text(stage))
}

pub(crate) fn put_origin(meta: &mut Metadata, source_ids: &Vec<String>, now: i64, stage: &str)
    requires
        is_storable_time(now),
    ensures
        final(meta)@ == origin(old(meta)@, texts(source_ids@), now, stage@),
{
    meta.insert("promoted_from", MetaValue::List(copy_strings(source_ids)));
    meta.insert("promoted_at", seconds_value(now));
    meta.insert("consolidation_stage", MetaValue::Text(stage.to_owned()));
}

/// A new summary of a session.
pub open spec fn new_summary(s: SummaryView, source_ids: Seq<Seq<char>>, now: i64) -> PromotionView {
    let a = origin(Map::empty(), source_ids, now, "stage1"@);
    let b = with_list(a, "mood_tags"@, s.mood_tags);
    let c = with_list_and_first(b, "date_labels"@, s.date_labels, "date_label"@);
    PromotionView {
        content: s.summary,
        memory_type: MemoryType::SessionSummary,
        importance: s.importance,
        tags: seq!["session_summary"@],
        patch: with_list_and_first(c, "time_of_days"@, s.time_of_days, "time_of_day"@),
    }
}

/// A new summary of a session.
pub fn plan_new_summary(s: &SummaryItem, source_ids: &Vec<String>, now: i64) -> (r: Promotion)
    requires
        is_storable_time(now),
    ensures
        r@ == new_summary(s@, texts(source_ids@), now),
{
    let mut patch = Metadata::new();
    put_origin(&mut patch, source_ids, now, "stage1");
    put_list(&mut patch, "mood_tags", &s.mood_tags);
    put_list_and_first(&mut patch, "date_labels", &s.date_labels, "date_label");
    put_list_and_first(&mut patch, "time_of_days", &s.time_of_days, "time_of_day");
    let mut tags: Vec<String> = Vec::new();
    tags.push("session_summary".to_owned());
    assert(texts(tags@) =~= seq!["session_summary"@]);
    Promotion {
        content: s.summary.clone(),
        memory_type: MemoryType::SessionSummary,
        importance: s.importance,
        tags,
        patch,
    }
}

/// The larger of two.
pub open spec fn larger(a: i64, b: i64) -> i64 {
    if a >= b {
        a
    } else {
        b
    }
}

/// The sources of a memory, then those that are new.
pub open spec fn all_sources(m: ItemView, source_ids: Seq<Seq<char>>) -> Seq<Seq<char>> {
    joined(distinct_words(list_at(m.metadata, "promoted_from"@)), source_ids)
}

pub(crate) fn merge_sources(m: &MemoryItem, source_ids: &Vec<String>) -> (r: Vec<String>)
    ensures
        texts(r@) == all_sources(m@, texts(source_ids@)),
{
    let there = m.metadata.list("promoted_from");
    union_strings(&there, source_ids)
}

/// A summary with one that continues it. Its text grows unless the new one says hardly
/// more; it is as important as the more important of the two; sources, moods, dates and
/// times are those of both, and the first of the dates and times stands for them.
pub open spec fn merged_summary(
    target: ItemView,
    s: SummaryView,
    source_ids: Seq<Seq<char>>,
    now: i64,
) -> PromotionView {
    let a = origin(target.metadata, all_sources(target, source_ids), now, "stage1_merge"@).insert(
        "merged_from"@,
        MetaView::Text(target.id),
    );
    let b = with_list(
        a,
        "mood_tags"@,
        joined(distinct_words(list_at(target.metadata, "mood_tags"@)), s.mood_tags),
    );
    let c = with_list_and_first(
        b,
        "date_labels"@,
        joined(distinct_words(list_at(target.metadata, "date_labels"@)), s.date_labels),
        "date_label"@,
    );
    PromotionView {
        content: if says_no_more(target.content, s.summary) {
            target.content
        } else {
            target.content + "\n"@ + s.summary
        },
        memory_type: MemoryType::SessionSummary,
        importance: larger(target.importance, s.importance),
        tags: if target.tags.contains("session_summary"@) {
            target.tags
        } else {
            target.tags.push("session_summary"@)
        },
        patch: with_list_and_first(
            c,
            "time_of_days"@,
            joined(distinct_words(list_at(target.metadata, "time_of_days"@)), s.time_of_days),
            "time_of_day"@,
        ),
    }
}

/// The sources of a summary that was kept are found in it, under the identifier that it
/// was kept with.
pub proof fn summary_names_its_sources(
    m: ManagerView,
    s: SummaryView,
    source_ids: Seq<Seq<char>>,
    heat: i64,
    u: Seq<char>,
    now: i64,
)
    requires
        !nothing_left(safe_text(s.summary)),
    ensures
        ({
            let (after, id) = promoted(m, new_summary(s, source_ids, now), heat, u, now);
            let n = after.entries.len() - 1;
            &&& last_with_id(after.entries, id) == Some(n)
            &&& after.entries[n].content == safe_text(s.summary)
            &&& of_kind(after.entries[n], "session_summary"@)
            &&& list_at(after.entries[n].metadata, "promoted_from"@) == source_ids
        }),
{
    let p = new_summary(s, source_ids, now);
    let new = plain_new(p.content, p.memory_type, p.importance, p.tags, Some(inner_metadata(m.char_id)), heat);
    let d = drafted(new, m.session_id, u, now);
    kept_memory_is_found(m, d, OutcomeView::KeepBoth, Seq::empty(), Seq::empty(), now);
    let w = written(m, new, u, now).0;
    let after = promoted(m, p, heat, u, now).0;
    let n = after.entries.len() - 1;
    assert(after.entries[n] == patched(w.entries[n], p.patch));
    assert(after.entries.last().id == d.id);
    assert(p.tags[0] == "session_summary"@);
    lemma_sources_key();
}

/// A summary that continues another names the sources of both.
pub proof fn merged_summary_names_both_sources(
    target: ItemView,
    s: SummaryView,
    source_ids: Seq<Seq<char>>,
    now: i64,
    x: Seq<char>,
)
    ensures
        list_at(merged_summary(target, s, source_ids, now).patch, "promoted_from"@).contains(x) <==> list_at(
            target.metadata,
            "promoted_from"@,
        ).contains(x) || source_ids.contains(x),
{
    lemma_sources_key();
    let there = list_at(target.metadata, "promoted_from"@);
    distinct_words_hold_all(there);
    union_holds_both(distinct_words(there), source_ids, x);
}

/// No other key of a summary is that of its sources.
proof fn lemma_sources_key()
    ensures
        "promoted_from"@ != "promoted_at"@,
        "promoted_from"@ != "consolidation_stage"@,
        "promoted_from"@ != "merged_from"@,
        "promoted_from"@ != "mood_tags"@,
        "promoted_from"@ != "date_labels"@,
        "promoted_from"@ != "date_label"@,
        "promoted_from"@ != "time_of_days"@,
        "promoted_from"@ != "time_of_day"@,
{
    reveal_strlit("promoted_from");
    reveal_strlit("promoted_at");
    reveal_strlit("consolidation_stage");
    reveal_strlit("merged_from");
    reveal_strlit("mood_tags");
    reveal_strlit("date_labels");
    reveal_strlit("date_label");
    reveal_strlit("time_of_days");
    reveal_strlit("time_of_day");
    assert("promoted_from"@.len() == 13);
    assert("promoted_at"@.len() == 11);
    assert("consolidation_stage"@.len() == 19);
    assert("merged_from"@.len() == 11);
    assert("mood_tags"@.len() == 9);
    assert("date_labels"@.len() == 11);
    assert("date_label"@.len() == 10);
    assert("time_of_days"@.len() == 12);
    assert("time_of_day"@.len() == 11);
}

/// A summary with one that continues it.
pub fn plan_merged_summary(
    target: &MemoryItem,
    s: &SummaryItem,
    source_ids: &Vec<String>,
    now: i64,
) -> (r: Promotion)
    requires
        is_storable_time(now),
    ensures
        r@ == merged_summary(target@, s@, texts(source_ids@), now),
{
    let mut content: String = target.content.clone();
    if !is_content_redundant(target.content.as_str(), s.summary.as_str()) {
        content.append("\n");
        content.append(s.summary.as_str());
    }
    let sources = merge_sources(target, source_ids);
    let moods = union_strings(&target.mood_tags(), &s.mood_tags);
    let there_dates = target.metadata.list("date_labels");
    let there_times = target.metadata.list("time_of_days");
    let dates = union_strings(&there_dates, &s.date_labels);
    let times = union_strings(&there_times, &s.time_of_days);
    let mut patch = target.metadata.clone();
    put_origin(&mut patch, &sources, now, "stage1_merge");
    patch.insert("merged_from", MetaValue::Text(target.id.clone()));
    put_list(&mut patch, "mood_tags", &moods);
    put_list_and_first(&mut patch, "date_labels", &dates, "date_label");
    put_list_and_first(&mut patch, "time_of_days", &times, "time_of_day");
    assert(target@.tags == texts(target.tags@));
    let mut tags = copy_strings(&target.tags);
    if !list_has(&target.tags, "session_summary") {
        tags.push("session_summary".to_owned());
        assert(texts(tags@) =~= target@.tags.push("session_summary"@));
    }
    Promotion {
        content,
        memory_type: MemoryType::SessionSummary,
        importance: if target.importance >= s.importance {
            target.importance
        } else {
            s.importance
        },
        tags,
        patch,
    }
}

/// The first memory with that identifier that is not archived.
pub open spec fn first_live(s: Seq<ItemView>, id: Seq<char>) -> Option<ItemView>
    decreases s.len(),
{
    if s.len() == 0 {
        None
    } else if s[0].id == id && !s[0].consolidated {
        Some(s[0])
    } else {
        first_live(s.skip(1), id)
    }
}

pub(crate) fn find_live(entries: &[MemoryItem], id: &str) -> (r: Option<MemoryItem>)
    ensures
        (match r {
            Some(m) => Some(m@),
            None => None,
        }) == first_live(item_views(entries@), id@),
{
    let ghost all = item_views(entries@);
    let mut i: usize = 0;
    assert(all.skip(0) =~= all);
    while i < entries.len()
        invariant
            i <= entries@.len(),
            all == item_views(entries@),
            first_live(all.skip(i as int), id@) == first_live(all, id@),
        decreases entries@.len() - i,
    {
        assert(all.skip(i as int)[0] == entries@[i as int]@);
        assert(all.skip(i as int).skip(1) =~= all.skip(i + 1));
        if same(entries[i].id.as_str(), id) && !entries[i].consolidated {
            return Some(entries[i].clone());
        }
        i += 1;
    }
    None
}

/// The plan to merge a summary into the one that it continues; `None` where that one is not
/// there, or where personal data cannot be taken out of the text.
pub open spec fn merge_plan(
    m: ManagerView,
    target: Option<Seq<char>>,
    s: SummaryView,
    source_ids: Seq<Seq<char>>,
    now: i64,
) -> Option<PromotionView> {
    match target {
        Some(t) => match first_live(m.entries, t) {
            Some(x) => {
                let p = merged_summary(x, s, source_ids, now);
                if apart(pii_in(p.content)) {
                    Some(p)
                } else {
                    None
                }
            },
            None => None,
        },
        None => None,
    }
}

/// The texts that are looked through for personal data when a summary is merged: the merged
/// one, where there is one to continue.
pub open spec fn merge_seen(
    m: ManagerView,
    target: Option<Seq<char>>,
    s: SummaryView,
    source_ids: Seq<Seq<char>>,
    now: i64,
) -> Seq<Seq<char>> {
    match target {
        Some(t) => match first_live(m.entries, t) {
            Some(x) => seq![merged_summary(x, s, source_ids, now).content],
            None => Seq::empty(),
        },
        None => Seq::empty(),
    }
}

/// Merges a summary into the one that it continues, which from then on stands only for
/// what was; says whether it could.
pub fn merge_into_session_summary(
    memory: &mut MemoryManager,
    trackers: &mut TrackerStore,
    target_id: &str,
    s: &SummaryItem,
    source_ids: &Vec<String>,
    heat: i64,
    now: i64,
) -> (r: bool)
    requires
        is_storable_time(now),
    ensures
        r == (merge_plan(old(memory)@, Some(target_id@), s@, texts(source_ids@), now) is Some),
        !r ==> final(memory)@ == old(memory)@,
        r ==> exists|u: Seq<char>|
            u.len() == 36 && final(memory)@ == marked_manager(
                (#[trigger] promoted(
                    old(memory)@,
                    merge_plan(old(memory)@, Some(target_id@), s@, texts(source_ids@), now)->0,
                    heat,
                    u,
                    now,
                )).0,
                target_id@,
            ),
        remembers_all(
            old(trackers).entries@,
            final(trackers).entries@,
            merge_seen(old(memory)@, Some(target_id@), s@, texts(source_ids@), now),
        ),
{
    let ghost was = memory@;
    let ghost before = trackers.entries@;
    match find_live(memory.entries.as_slice(), target_id) {
        None => false,
        Some(target) => {
            let p = plan_merged_summary(&target, s, source_ids, now);
            let done = promote(memory, trackers, &p, heat, now);
            proof {
                lemma_remembers_one(before, trackers.entries@, p@.content);
            }
            match done {
                None => false,
                Some(_) => {
                    let ghost mid = memory@;
                    let _ = memory.mark_summarized(target_id);
                    proof {
                        let u = choose|u: Seq<char>|
                            u.len() == 36 && (#[trigger] promoted(was, p@, heat, u, now)).0 == mid;
                        let plan = merge_plan(was, Some(target_id@), s@, texts(source_ids@), now);
                        assert(plan == Some(p@));
                        assert(memory@ == marked_manager(promoted(was, plan->0, heat, u, now).0, target_id@));
                    }
                    true
                },
            }
        },
    }
}

/// Keeps a new summary, and gives the identifier of it; `None` where personal data cannot
/// be taken out of it.
pub fn create_new_session_summary(
    memory: &mut MemoryManager,
    trackers: &mut TrackerStore,
    s: &SummaryItem,
    source_ids: &Vec<String>,
    heat: i64,
    now: i64,
) -> (r: Option<String>)
    requires
        is_storable_time(now),
    ensures
        r is None == !apart(pii_in(s@.summary)),
        r is None ==> final(memory)@ == old(memory)@,
        r is Some ==> exists|u: Seq<char>|
            u.len() == 36 && #[trigger] promoted(
                old(memory)@,
                new_summary(s@, texts(source_ids@), now),
                heat,
                u,
                now,
            ) == (final(memory)@, r->0@),
        remembers(old(trackers).entries@, final(trackers).entries@, found(s@.summary, 8), s@.summary),
{
    let p = plan_new_summary(s, source_ids, now);
    promote(memory, trackers, &p, heat, now)
}

/// The work on the summaries of a session.
pub struct Summing {
    pub memory: ManagerView,
    pub created: nat,
    pub merged: nat,
    /// The identifiers of the new summaries.
    pub ids: Seq<Seq<char>>,
    /// Whether a summary could not be kept; nothing follows then.
    pub failed: bool,
    /// The texts that were looked through for personal data.
    pub seen: Seq<Seq<char>>,
}

/// The work after one more summary: it is merged into the one that it continues, where
/// there is one, and else it is a new one.
pub open spec fn summed(
    w: Summing,
    s: SummaryView,
    target: Option<Seq<char>>,
    source_ids: Seq<Seq<char>>,
    heat: i64,
    u: Seq<char>,
    now: i64,
) -> Summing {
    if w.failed {
        w
    } else {
        let tried = w.seen + merge_seen(w.memory, target, s, source_ids, now);
        match merge_plan(w.memory, target, s, source_ids, now) {
            Some(p) => Summing {
                memory: marked_manager(promoted(w.memory, p, heat, u, now).0, target->0),
                merged: w.merged + 1,
                seen: tried,
                ..w
            },
            None => if apart(pii_in(s.summary)) {
                let r = promoted(w.memory, new_summary(s, source_ids, now), heat, u, now);
                Summing {
                    memory: r.0,
                    created: w.created + 1,
                    ids: w.ids.push(r.1),
                    seen: tried + seq![s.summary],
                    ..w
                }
            } else {
                Summing { failed: true, seen: tried + seq![s.summary], ..w }
            },
        }
    }
}

/// The work after as many summaries as there are random texts in `us`.
pub open spec fn summing(
    m: ManagerView,
    list: Seq<SummaryView>,
    targets: Seq<Option<Seq<char>>>,
    source_ids: Seq<Seq<char>>,
    heat: i64,
    us: Seq<Seq<char>>,
    now: i64,
) -> Summing
    decreases us.len(),
{
    if us.len() == 0 {
        Summing {
            memory: m,
            created: 0,
            merged: 0,
            ids: Seq::empty(),
            failed: false,
            seen: Seq::empty(),
        }
    } else {
        summed(
            summing(m, list, targets, source_ids, heat, us.drop_last(), now),
            list[us.len() - 1],
            targets[us.len() - 1],
            source_ids,
            heat,
            us.last(),
            now,
        )
    }
}

/// What came of the summaries.
pub struct Stage1Outcome {
    pub created: usize,
    pub merged: usize,
    pub new_ids: Vec<String>,
    pub failed: bool,
}

/// The outcome of the work.
pub open spec fn outcome_is(o: Stage1Outcome, w: Summing) -> bool {
    o.created == w.created && o.merged == w.merged && texts(o.new_ids@) == w.ids && o.failed == w.failed
}

/// What the summaries of a list are.
pub open spec fn summary_views(v: Seq<SummaryItem>) -> Seq<SummaryView> {
    v.map_values(|s: SummaryItem| s@)
}

/// Texts that may be missing, over views.
pub open spec fn opt_texts(v: Seq<Option<String>>) -> Seq<Option<Seq<char>>> {
    v.map_values(|o: Option<String>| opt_text(o))
}

/// Keeps the summaries that a model gave, each merged into the one that it continues or as
/// a new one.
pub fn keep_summaries(
    memory: &mut MemoryManager,
    trackers: &mut TrackerStore,
    list: &Vec<SummaryItem>,
    targets: &Vec<Option<String>>,
    source_ids: &Vec<String>,
    heat: i64,
    now: i64,
) -> (r: Stage1Outcome)
    requires
        is_storable_time(now),
        targets@.len() == list@.len(),
    ensures
        exists|us: Seq<Seq<char>>|
            us.len() == list@.len() && outcome_is(
                r,
                #[trigger] summing(
                    old(memory)@,
                    summary_views(list@),
                    opt_texts(targets@),
                    texts(source_ids@),
                    heat,
                    us,
                    now,
                ),
            ) && final(memory)@ == summing(
                old(memory)@,
                summary_views(list@),
                opt_texts(targets@),
                texts(source_ids@),
                heat,
                us,
                now,
            ).memory && remembers_all(
                old(trackers).entries@,
                final(trackers).entries@,
                summing(
                    old(memory)@,
                    summary_views(list@),
                    opt_texts(targets@),
                    texts(source_ids@),
                    heat,
                    us,
                    now,
                ).seen,
            ),
{
    let ghost first = trackers.entries@;
    let ghost was = memory@;
    let ghost sv = summary_views(list@);
    let ghost tv = opt_texts(targets@);
    let ghost ids = texts(source_ids@);
    let ghost mut us: Seq<Seq<char>> = Seq::empty();
    let mut out = Stage1Outcome { created: 0, merged: 0, new_ids: Vec::new(), failed: false };
    assert(texts(out.new_ids@) =~= Seq::<Seq<char>>::empty());
    let mut i: usize = 0;
    while i < list.len()
        invariant
            i <= list@.len(),
            is_storable_time(now),
            targets@.len() == list@.len(),
            sv == summary_views(list@),
            tv == opt_texts(targets@),
            ids == texts(source_ids@),
            us.len() == i,
            out.created <= i,
            out.merged <= i,
            outcome_is(out, summing(was, sv, tv, ids, heat, us, now)),
            memory@ == summing(was, sv, tv, ids, heat, us, now).memory,
            remembers_all(first, trackers.entries@, summing(was, sv, tv, ids, heat, us, now).seen),
        decreases list@.len() - i,
    {
        let ghost w = summing(was, sv, tv, ids, heat, us, now);
        let ghost before = memory@;
        let ghost held = trackers.entries@;
        let ghost merging = merge_seen(before, tv[i as int], sv[i as int], ids, now);
        let s = &list[i];
        assert(sv[i as int] == s@);
        assert(tv[i as int] == opt_text(targets@[i as int]));
        let ghost mut used: Seq<char> = Seq::empty();
        if !out.failed {
            let mut done: bool = false;
            if let Some(t) = &targets[i] {
                done = merge_into_session_summary(
                    memory,
                    trackers,
                    t.as_str(),
                    s,
                    source_ids,
                    heat,
                    now,
                );
                proof {
                    lemma_remembers_more(first, held, trackers.entries@, w.seen, merging);
                    if done {
                        let plan = merge_plan(before, Some(t@), s@, ids, now)->0;
                        used = choose|u: Seq<char>|
                            u.len() == 36 && memory@ == marked_manager(
                                (#[trigger] promoted(before, plan, heat, u, now)).0,
                                t@,
                            );
                    }
                }
            }
            if done {
                out.merged = out.merged + 1;
            } else {
                let ghost mid = trackers.entries@;
                proof {
                    if targets@[i as int] is None {
                        assert(w.seen + merging =~= w.seen);
                    }
                }
                let new = create_new_session_summary(memory, trackers, s, source_ids, heat, now);
                proof {
                    lemma_remembers_one(mid, trackers.entries@, s@.summary);
                    lemma_remembers_more(
                        first,
                        mid,
                        trackers.entries@,
                        w.seen + merging,
                        seq![s@.summary],
                    );
                }
                match new {
                    Some(id) => {
                        let ghost prev = texts(out.new_ids@);
                        let ghost iv = id@;
                        out.new_ids.push(id);
                        out.created = out.created + 1;
                        proof {
                            assert(texts(out.new_ids@) =~= prev.push(iv));
                            used = choose|u: Seq<char>|
                                u.len() == 36 && #[trigger] promoted(
                                    before,
                                    new_summary(s@, ids, now),
                                    heat,
                                    u,
                                    now,
                                ) == (memory@, iv);
                        }
                    },
                    None => {
                        out.failed = true;
                    },
                }
            }
        }
        proof {
            let next = us.push(used);
            assert(next.drop_last() =~= us);
            assert(summing(was, sv, tv, ids, heat, next, now) == summed(
                w,
                s@,
                tv[i as int],
                ids,
                heat,
                used,
                now,
            ));
            us = next;
        }
        i += 1;
    }
    out
}

// ---------------------------------------------------------------------------
// Episodes
// ---------------------------------------------------------------------------

/// The topic of an episode: the first fifty characters of the first summary.
pub open spec fn episode_topic(summary: Seq<char>) -> Seq<char> {
    if summary.len() > 50 {
        first_chars(summary, 50) + "..."@
    } else {
        summary
    }
}

/// The topic of an episode.
pub fn topic_of(summary: &str) -> (r: String)
    ensures
        r@ == episode_topic(summary@),
{
    if count_chars(summary) > 50 {
        let mut out = head_of(summary, 50);
        out.append("...");
        out
    } else {
        summary.to_owned()
    }
}

/// The moods of the memories with their times.
pub open spec fn mood_curve(s: Seq<ItemView>) -> Seq<(i64, Seq<char>)>
    decreases s.len(),
{
    if s.len() == 0 {
        Seq::<(i64, Seq<char>)>::empty()
    } else {
        mood_curve(s.drop_last()) + list_at(s.last().metadata, "mood_tags"@).map_values(
            |t: Seq<char>| (s.last().timestamp, t),
        )
    }
}

/// The moods of a list, over views.
pub open spec fn curve_views(v: Seq<(i64, String)>) -> Seq<(i64, Seq<char>)> {
    v.map_values(|p: (i64, String)| (p.0, p.1@))
}

/// The moods of the memories with their times.
pub fn emotion_curve(items: &[MemoryItem]) -> (out: Vec<(i64, String)>)
    ensures
        curve_views(out@) == mood_curve(item_views(items@)),
{
    let ghost all = item_views(items@);
    let mut out: Vec<(i64, String)> = Vec::new();
    let mut i: usize = 0;
    assert(curve_views(out@) =~= mood_curve(all.take(0)));
    while i < items.len()
        invariant
            i <= items@.len(),
            all == item_views(items@),
            curve_views(out@) == mood_curve(all.take(i as int)),
        decreases items@.len() - i,
    {
        let ghost start = curve_views(out@);
        let ghost m = items@[i as int]@;
        proof {
            assert(all.take(i + 1).drop_last() =~= all.take(i as int));
            assert(all.take(i + 1).last() == m);
        }
        let moods = items[i].mood_tags();
        let time: i64 = items[i].timestamp;
        let ghost want = texts(moods@).map_values(|t: Seq<char>| (m.timestamp, t));
        let mut k: usize = 0;
        assert(curve_views(out@) =~= start + want.take(0));
        while k < moods.len()
            invariant
                k <= moods@.len(),
                time == m.timestamp,
                want == texts(moods@).map_values(|t: Seq<char>| (m.timestamp, t)),
                curve_views(out@) == start + want.take(k as int),
            decreases moods@.len() - k,
        {
            let ghost prev = curve_views(out@);
            out.push((time, moods[k].clone()));
            assert(texts(moods@)[k as int] == moods@[k as int]@);
            assert(curve_views(out@) =~= prev.push((time, moods@[k as int]@)));
            assert(want.take(k + 1) =~= want.take(k as int).push(want[k as int]));
            k += 1;
            assert(curve_views(out@) =~= start + want.take(k as int));
        }
        assert(want.take(k as int) =~= want);
        i += 1;
    }
    assert(all.take(i as int) =~= all);
    out
}

/// The texts of the summaries, one under the other.
pub open spec fn episode_text(s: Seq<SummaryView>) -> Seq<char> {
    join(s.map_values(|x: SummaryView| x.summary), "\n"@)
}

/// What an episode is sealed with.
pub struct EpisodePlan {
    pub memory_ids: Vec<String>,
    pub timestamps: Vec<i64>,
    pub importances: Vec<i64>,
    pub topic: Option<String>,
    pub summary: String,
    pub curve: Vec<(i64, String)>,
}

/// What an episode of those memories and summaries is sealed with.
pub open spec fn episode_is(
    e: EpisodePlan,
    short: Seq<ItemView>,
    list: Seq<SummaryView>,
    new_ids: Seq<Seq<char>>,
) -> bool {
    &&& texts(e.memory_ids@) == ids_of(short) + new_ids
    &&& e.timestamps@ == short.map_values(|m: ItemView| m.timestamp)
    &&& e.importances@ == short.map_values(|m: ItemView| m.importance)
    &&& opt_text(e.topic) == (if list.len() > 0 {
        Some(episode_topic(list[0].summary))
    } else {
        None
    })
    &&& e.summary@ == episode_text(list)
    &&& curve_views(e.curve@) == mood_curve(short)
}

/// What an episode is sealed with: the memories that were summed up and their new
/// summaries; `None` where there is no new summary.
pub fn plan_episode(short: &[MemoryItem], list: &Vec<SummaryItem>, new_ids: &Vec<String>) -> (r: Option<
    EpisodePlan,
>)
    ensures
        r is Some == (new_ids@.len() > 0),
        r is Some ==> episode_is(
            r->0,
            item_views(short@),
            summary_views(list@),
            texts(new_ids@),
        ),
{
    if new_ids.len() == 0 {
        return None;
    }
    let ghost sv = item_views(short@);
    let ghost lv = summary_views(list@);
    let mut memory_ids: Vec<String> = Vec::new();
    let mut timestamps: Vec<i64> = Vec::new();
    let mut importances: Vec<i64> = Vec::new();
    let mut i: usize = 0;
    while i < short.len()
        invariant
            i <= short@.len(),
            sv == item_views(short@),
            memory_ids@.len() == i,
            timestamps@.len() == i,
            importances@.len() == i,
            forall|k: int| 0 <= k < i ==> (#[trigger] memory_ids@[k])@ == sv[k].id,
            forall|k: int| 0 <= k < i ==> #[trigger] timestamps@[k] == sv[k].timestamp,
            forall|k: int| 0 <= k < i ==> #[trigger] importances@[k] == sv[k].importance,
        decreases short@.len() - i,
    {
        assert(sv[i as int] == short@[i as int]@);
        memory_ids.push(short[i].id.clone());
        timestamps.push(short[i].timestamp);
        importances.push(short[i].importance);
        i += 1;
    }
    assert(texts(memory_ids@) =~= ids_of(sv));
    assert(timestamps@ =~= sv.map_values(|m: ItemView| m.timestamp));
    assert(importances@ =~= sv.map_values(|m: ItemView| m.importance));
    let mut more = copy_strings(new_ids);
    let ghost a = memory_ids@;
    let ghost b = more@;
    memory_ids.append(&mut more);
    assert(texts(memory_ids@) =~= texts(a) + texts(b));
    let mut lines: Vec<String> = Vec::new();
    let mut k: usize = 0;
    while k < list.len()
        invariant
            k <= list@.len(),
            lines@.len() == k,
            forall|j: int| 0 <= j < k ==> (#[trigger] lines@[j])@ == list@[j]@.summary,
        decreases list@.len() - k,
    {
        lines.push(list[k].summary.clone());
        k += 1;
    }
    assert(texts(lines@) =~= lv.map_values(|x: SummaryView| x.summary));
    let topic = if list.len() > 0 {
        assert(lv[0] == list@[0]@);
        Some(topic_of(list[0].summary.as_str()))
    } else {
        None
    };
    Some(
        EpisodePlan {
            memory_ids,
            timestamps,
            importances,
            topic,
            summary: join_strings(&lines, "\n"),
            curve: emotion_curve(short),
        },
    )
}

} // verus!
