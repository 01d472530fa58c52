//! The stages of consolidation: when each is due, what it works on, and what it leaves.

use crate::consolidation::{buffered_memories, fingerprint, get_recent_session_summaries, is_buffered,
    is_of_kind, of_kind, recent_summaries, source_fingerprint};
use crate::conflict::similar_views;
use crate::manager::{with_episode, ManagerView, MemoryManager};
use crate::notes::ids_of;
use crate::pipeline::{all_sources, first_live, keep_summaries, larger, marked_all, marked_manager,
    new_summary, opt_texts, origin, outcome_is, promote, promoted, summary_names_its_sources, summary_views,
    summing, FactItem, InsightItem, Promotion, PromotionView, Stage1Outcome, SummaryItem, SummaryView,
    SEMANTIC_REINFORCEMENT_OVERLAP, STAGE1_COOLDOWN_MILLIS, STAGE2_FALLBACK_MILLIS, STAGE2_HEAT_THRESHOLD,
    STAGE3_IMPORTANCE_SUM, STAGE3_NEW_LTM_THRESHOLD};
use crate::pipeline::{find_live, mark_all, merge_sources, put_origin};
use crate::prompts::{short_lines, stage1_prompt, summary_prompt, write_short_lines};
use crate::recording::safe_text;
use crate::redact::{apart, found, lemma_remembers_more, lemma_remembers_one, pii_in, remembers, remembers_all,
    TrackerStore};
use crate::select::{copy_flagged, kept};
use crate::store::is_live;
use crate::text::{copy_strings, list_has, one_of, opt_text, same, strs, texts, trim, trimmed};
use crate::time_anchor::{local_today, seconds_of, whole_seconds};
use crate::tokens::{distinct_of, distinct_words, shared};
use crate::types::{count_at, is_storable_time, item_views, list_at, text_at, ItemView, MemoryItem, MemoryType,
    MetaValue, MetaView, Metadata};
use crate::writing::nothing_left;
use vstd::array::*;
use vstd::prelude::*;
use vstd::string::*;

verus! {

// ---------------------------------------------------------------------------
// Trying again
// ---------------------------------------------------------------------------

/// A failed try, and when the next one is due.
#[derive(Debug)]
pub struct Backoff {
    pub key: String,
    pub failures: u32,
    pub retry_at: i64,
}

/// What failed tries are.
pub open spec fn backoff_views(v: Seq<Backoff>) -> Seq<(Seq<char>, u32, i64)> {
    v.map_values(|b: Backoff| (b.key@, b.failures, b.retry_at))
}

/// The position of the first failed try with that key, or the end.
pub open spec fn backoff_place(s: Seq<(Seq<char>, u32, i64)>, key: Seq<char>) -> int
    decreases s.len(),
{
    if s.len() == 0 || s[0].0 == key {
        0
    } else {
        1 + backoff_place(s.skip(1), key)
    }
}

/// Why a batch is not worked on.
#[derive(Debug, Clone, Copy, PartialEq, Eq, Structural)]
pub enum Gate {
    Open,
    AlreadyDone,
    Backoff,
}

/// Whether a batch may be worked on at `now`: it was not done, and no failed try forbids it.
pub open spec fn gate(
    done: Seq<Seq<char>>,
    failed: Seq<(Seq<char>, u32, i64)>,
    key: Seq<char>,
    now: i64,
) -> Gate {
    let i = backoff_place(failed, key);
    if done.contains(key) {
        Gate::AlreadyDone
    } else if i < failed.len() && now < failed[i].2 {
        Gate::Backoff
    } else {
        Gate::Open
    }
}

/// How many batches that were done are remembered.
pub const MAX_DONE: usize = 200;

/// How many are left when there are too many.
pub const KEPT_DONE: usize = 100;

/// The batches that were done, with one more; where there are too many, the latest.
pub open spec fn with_done(done: Seq<Seq<char>>, key: Seq<char>) -> Seq<Seq<char>> {
    let d = if done.contains(key) {
        done
    } else {
        done.push(key)
    };
    if d.len() > MAX_DONE {
        d.skip(d.len() - KEPT_DONE)
    } else {
        d
    }
}

/// The failed tries without that one.
pub open spec fn without_failure(s: Seq<(Seq<char>, u32, i64)>, key: Seq<char>) -> Seq<
    (Seq<char>, u32, i64),
> {
    let i = backoff_place(s, key);
    if i < s.len() {
        s.remove(i)
    } else {
        s
    }
}

/// How long is waited after that many failures, in milliseconds: two minutes, four, then
/// eight.
pub open spec fn delay(failures: u32) -> int {
    if failures <= 1 {
        120_000
    } else if failures == 2 {
        240_000
    } else {
        480_000
    }
}

/// The failed tries with one more at `now`.
pub open spec fn with_failure(s: Seq<(Seq<char>, u32, i64)>, key: Seq<char>, now: i64) -> Seq<
    (Seq<char>, u32, i64),
> {
    let i = backoff_place(s, key);
    if i < s.len() {
        let n: u32 = if s[i].1 == u32::MAX {
            u32::MAX
        } else {
            (s[i].1 + 1) as u32
        };
        s.update(i, (key, n, (now + delay(n)) as i64))
    } else {
        s.push((key, 1, (now + delay(1)) as i64))
    }
}

pub(crate) proof fn lemma_backoff_place(s: Seq<(Seq<char>, u32, i64)>, key: Seq<char>)
    ensures
        0 <= backoff_place(s, key) <= s.len(),
        forall|j: int| 0 <= j < backoff_place(s, key) ==> (#[trigger] s[j]).0 != key,
        backoff_place(s, key) < s.len() ==> s[backoff_place(s, key)].0 == key,
    decreases s.len(),
{
    if s.len() > 0 && s[0].0 != key {
        lemma_backoff_place(s.skip(1), key);
        let i = backoff_place(s, key);
        assert forall|j: int| 0 <= j < i implies (#[trigger] s[j]).0 != key by {
            if j > 0 {
                assert(s.skip(1)[j - 1] == s[j]);
            }
        }
        if i < s.len() {
            assert(s.skip(1)[i - 1] == s[i]);
        }
    }
}

/// A batch that was just done is not worked on again, and not too many are remembered.
pub proof fn done_stays_done(
    done: Seq<Seq<char>>,
    failed: Seq<(Seq<char>, u32, i64)>,
    key: Seq<char>,
    now: i64,
)
    requires
        done.len() <= MAX_DONE,
    ensures
        gate(with_done(done, key), without_failure(failed, key), key, now) == Gate::AlreadyDone,
        with_done(done, key).len() <= MAX_DONE,
{
    let d = with_done(done, key);
    if !done.contains(key) {
        assert(d[d.len() - 1] == key);
    }
}

/// A batch that failed is not worked on before its time, and may be then.
pub proof fn failure_waits(
    done: Seq<Seq<char>>,
    failed: Seq<(Seq<char>, u32, i64)>,
    key: Seq<char>,
    now: i64,
    later: i64,
)
    requires
        !done.contains(key),
        is_storable_time(now),
    ensures
        later < now + 120_000 ==> gate(done, with_failure(failed, key, now), key, later)
            == Gate::Backoff,
        later >= now + 480_000 ==> gate(done, with_failure(failed, key, now), key, later) == Gate::Open,
{
    let r = with_failure(failed, key, now);
    lemma_backoff_place(failed, key);
    lemma_backoff_place(r, key);
    let i = backoff_place(failed, key);
    let k = backoff_place(r, key);
    assert(r[i].0 == key);
    if k < i {
        assert(r[k] == failed[k]);
    } else if i < k {
        assert(r[i].0 != key);
    }
}

// ---------------------------------------------------------------------------
// The pipeline
// ---------------------------------------------------------------------------

/// When each stage is due.
pub struct ConsolidationPipeline {
    /// How many short-term memories call for summaries.
    pub short_term_threshold: usize,
    /// How long nothing happens before summaries are called for, in milliseconds.
    pub idle_timeout: i64,
    pub new_ltm_count: usize,
    /// In hundredths.
    pub new_ltm_importance_sum: u64,
    /// In seconds; zero where there was none.
    pub last_reflection_at: u64,
    /// In seconds; zero where there was none.
    pub last_stage1_at: u64,
    /// The part of the character that never changes.
    pub locked_core: String,
    pub reflection_backoff: Vec<Backoff>,
    pub reflection_done: Vec<String>,
}

/// What a pipeline is.
pub struct PipelineView {
    pub short_term_threshold: usize,
    pub idle_timeout: i64,
    pub new_ltm_count: usize,
    pub new_ltm_importance_sum: u64,
    pub last_reflection_at: u64,
    pub last_stage1_at: u64,
    pub locked_core: Seq<char>,
    pub failed: Seq<(Seq<char>, u32, i64)>,
    pub done: Seq<Seq<char>>,
}

impl View for ConsolidationPipeline {
    type V = PipelineView;

    open spec fn view(&self) -> PipelineView {
        PipelineView {
            short_term_threshold: self.short_term_threshold,
            idle_timeout: self.idle_timeout,
            new_ltm_count: self.new_ltm_count,
            new_ltm_importance_sum: self.new_ltm_importance_sum,
            last_reflection_at: self.last_reflection_at,
            last_stage1_at: self.last_stage1_at,
            locked_core: self.locked_core@,
            failed: backoff_views(self.reflection_backoff@),
            done: texts(self.reflection_done@),
        }
    }
}

/// An importance in whole hundredths; none where it is negative.
pub open spec fn hundredths(importance: i64) -> u64 {
    if importance < 0 {
        0
    } else {
        ((importance + 5_000) / 10_000) as u64
    }
}

/// A sum that starts anew beyond the largest number.
pub open spec fn wrapped(n: int) -> u64 {
    if n > u64::MAX {
        (n - u64::MAX - 1) as u64
    } else {
        n as u64
    }
}

/// The pipeline after a new lasting memory.
pub open spec fn notified(p: PipelineView, importance: i64) -> PipelineView {
    PipelineView {
        new_ltm_count: if p.new_ltm_count == usize::MAX {
            0
        } else {
            (p.new_ltm_count + 1) as usize
        },
        new_ltm_importance_sum: wrapped(p.new_ltm_importance_sum + hundredths(importance)),
        ..p
    }
}

/// Whole seconds since the epoch; none before it.
pub open spec fn epoch_seconds(now: i64) -> u64 {
    if now < 0 {
        0
    } else {
        whole_seconds(now) as u64
    }
}

fn seconds_since_epoch(now: i64) -> (r: u64)
    ensures
        r == epoch_seconds(now),
{
    if now < 0 {
        0
    } else {
        seconds_of(now) as u64
    }
}

/// Why summaries are called for.
#[derive(Debug, Clone, Copy, PartialEq, Eq, Structural)]
pub enum Stage1Trigger {
    Count,
    Idle,
}

/// The time of the latest memory.
pub open spec fn latest_time(s: Seq<ItemView>) -> i64
    decreases s.len(),
{
    if s.len() == 0 {
        i64::MIN
    } else {
        let t = latest_time(s.drop_last());
        if s.last().timestamp > t {
            s.last().timestamp
        } else {
            t
        }
    }
}

/// Whether summaries of the short-term memories are called for at `now`: there are enough of
/// them, or the latest is long enough ago. Not too soon after the last time.
pub open spec fn stage1_trigger(p: PipelineView, short: Seq<ItemView>, now: i64) -> Option<Stage1Trigger> {
    let idle = now - latest_time(short);
    if p.last_stage1_at > 0 && now - p.last_stage1_at * 1000 < STAGE1_COOLDOWN_MILLIS {
        None
    } else if short.len() == 0 {
        None
    } else if short.len() >= p.short_term_threshold {
        Some(Stage1Trigger::Count)
    } else if idle >= p.idle_timeout && idle >= 0 {
        Some(Stage1Trigger::Idle)
    } else {
        None
    }
}

/// What is summed up.
pub struct Stage1Batch {
    pub short_term: Vec<MemoryItem>,
    pub recent: Vec<MemoryItem>,
    pub source_ids: Vec<String>,
    pub prompt: String,
    pub trigger: Stage1Trigger,
}

/// What is worked on at a later stage.
pub struct Batch {
    pub sources: Vec<MemoryItem>,
    pub source_ids: Vec<String>,
    pub key: String,
    /// The memories line by line.
    pub text: String,
}

/// The batch of those memories.
pub open spec fn batch_is(b: Batch, sources: Seq<ItemView>) -> bool {
    &&& item_views(b.sources@) == sources
    &&& texts(b.source_ids@) == ids_of(sources)
    &&& b.key@ == fingerprint(ids_of(sources))
    &&& b.text@ == short_lines(sources)
}

/// Whether facts are to be drawn from a summary at `now`: it is warm, or nobody looked at
/// it for a day.
pub open spec fn is_hot(m: ItemView, heat: i64, now: i64) -> bool {
    of_kind(m, "session_summary"@) && (heat >= STAGE2_HEAT_THRESHOLD || (m.visit_count == 0 && now
        - m.timestamp >= STAGE2_FALLBACK_MILLIS))
}

/// The flags of the summaries from which facts are to be drawn.
pub open spec fn hot_flags(s: Seq<ItemView>, heats: Seq<i64>, now: i64) -> Seq<bool> {
    Seq::new(s.len(), |i: int| is_hot(s[i], heats[i], now))
}

/// The kinds of memories that last.
pub open spec fn lasting_kinds() -> Seq<Seq<char>> {
    seq!["long_term"@, "user"@, "preference"@, "important_event"@, "feedback"@, "knowledge"@]
}

/// Whether a memory lasts: by a tag or by its metadata.
pub open spec fn lasts(m: ItemView) -> bool {
    (exists|k: int| 0 <= k < m.tags.len() && lasting_kinds().contains(#[trigger] m.tags[k])) || (
    match text_at(m.metadata, "memory_type"@) {
        Some(t) => lasting_kinds().contains(t),
        None => false,
    })
}

/// The flags of the lasting memories since the last insights.
pub open spec fn new_ltm_flags(s: Seq<ItemView>, since: u64) -> Seq<bool> {
    Seq::new(s.len(), |i: int| !(since > 0 && s[i].timestamp < since * 1000) && lasts(s[i]))
}

/// Whether insights are called for.
pub open spec fn stage3_due(p: PipelineView) -> bool {
    p.new_ltm_count >= STAGE3_NEW_LTM_THRESHOLD || p.new_ltm_importance_sum >= STAGE3_IMPORTANCE_SUM
}

/// The pipeline with nothing new.
pub open spec fn counters_reset(p: PipelineView) -> PipelineView {
    PipelineView { new_ltm_count: 0, new_ltm_importance_sum: 0, ..p }
}

fn does_last(m: &MemoryItem) -> (r: bool)
    ensures
        r == lasts(m@),
{
    let names = ["long_term", "user", "preference", "important_event", "feedback", "knowledge"];
    let list = array_as_slice(&names);
    assert(strs(list@) =~= lasting_kinds());
    assert(m@.tags == texts(m.tags@));
    let mut i: usize = 0;
    while i < m.tags.len()
        invariant
            i <= m.tags@.len(),
            strs(list@) == lasting_kinds(),
            m@.tags == texts(m.tags@),
            forall|k: int| 0 <= k < i ==> !lasting_kinds().contains(#[trigger] m@.tags[k]),
        decreases m.tags@.len() - i,
    {
        assert(m@.tags[i as int] == m.tags@[i as int]@);
        if one_of(m.tags[i].as_str(), list) {
            return true;
        }
        i += 1;
    }
    match m.metadata.text("memory_type") {
        Some(t) => one_of(t.as_str(), list),
        None => false,
    }
}

fn ids_of_items(items: &Vec<MemoryItem>) -> (out: Vec<String>)
    ensures
        texts(out@) == ids_of(item_views(items@)),
{
    let mut out: Vec<String> = Vec::new();
    let mut i: usize = 0;
    while i < items.len()
        invariant
            i <= items@.len(),
            out@.len() == i,
            forall|k: int| 0 <= k < i ==> (#[trigger] out@[k])@ == items@[k]@.id,
        decreases items@.len() - i,
    {
        out.push(items[i].id.clone());
        i += 1;
    }
    assert(texts(out@) =~= ids_of(item_views(items@)));
    out
}

fn make_batch(sources: Vec<MemoryItem>) -> (b: Batch)
    ensures
        batch_is(b, item_views(sources@)),
{
    let source_ids = ids_of_items(&sources);
    let key = source_fingerprint(&source_ids);
    let text = write_short_lines(sources.as_slice());
    Batch { sources, source_ids, key, text }
}

// ---------------------------------------------------------------------------
// Facts
// ---------------------------------------------------------------------------

/// What a fact is kept as.
pub open spec fn fact_kind(t: Seq<char>) -> MemoryType {
    if t == "user"@ {
        MemoryType::User
    } else if t == "preference"@ {
        MemoryType::Preference
    } else if t == "relationship"@ {
        MemoryType::ImportantEvent
    } else if t == "feedback"@ {
        MemoryType::Feedback
    } else {
        MemoryType::LongTerm
    }
}

/// What a fact is kept as.
pub fn fact_memory_type(t: &str) -> (r: MemoryType)
    ensures
        r == fact_kind(t@),
{
    if same(t, "user") {
        MemoryType::User
    } else if same(t, "preference") {
        MemoryType::Preference
    } else if same(t, "relationship") {
        MemoryType::ImportantEvent
    } else if same(t, "feedback") {
        MemoryType::Feedback
    } else {
        MemoryType::LongTerm
    }
}

/// The memory of a fact.
pub open spec fn fact_promotion(f: FactItem, source_ids: Seq<Seq<char>>, now: i64) -> PromotionView {
    PromotionView {
        content: f.fact@,
        memory_type: fact_kind(f.fact_type@),
        importance: f.importance,
        tags: seq![f.fact_type@, "topic:"@ + f.topic@, "assistant"@],
        patch: origin(Map::empty(), source_ids, now, "stage2"@).insert(
            "topic"@,
            MetaView::Text(f.topic@),
        ),
    }
}

/// The memory of a fact.
pub fn plan_fact(f: &FactItem, source_ids: &Vec<String>, now: i64) -> (r: Promotion)
    requires
        is_storable_time(now),
    ensures
        r@ == fact_promotion(*f, texts(source_ids@), now),
{
    let mut patch = Metadata::new();
    put_origin(&mut patch, source_ids, now, "stage2");
    patch.insert("topic", MetaValue::Text(f.topic.clone()));
    let mut topic: String = "topic:".to_owned();
    topic.append(f.topic.as_str());
    let mut tags: Vec<String> = Vec::new();
    tags.push(f.fact_type.clone());
    tags.push(topic);
    tags.push("assistant".to_owned());
    assert(texts(tags@) =~= seq![f.fact_type@, "topic:"@ + f.topic@, "assistant"@]);
    Promotion {
        content: f.fact.clone(),
        memory_type: fact_memory_type(f.fact_type.as_str()),
        importance: f.importance,
        tags,
        patch,
    }
}

/// The identifiers of the similar memories that a new fact contradicts.
pub open spec fn contradicted(similar: Seq<(Seq<char>, Seq<char>, i64)>, flags: Seq<bool>) -> Seq<Seq<char>> {
    kept(similar, flags).map_values(|t: (Seq<char>, Seq<char>, i64)| t.0)
}

/// The memories against which a new fact speaks, of those that are similar to it.
pub fn reassess_evidence_for_new_fact(similar: &Vec<(String, String, i64)>, contradicts: &Vec<bool>) -> (out: Vec<
    String,
>)
    requires
        contradicts@.len() == similar@.len(),
    ensures
        texts(out@) == contradicted(similar_views(similar@), contradicts@),
{
    let ghost all = similar_views(similar@);
    let mut out: Vec<String> = Vec::new();
    let mut i: usize = 0;
    assert(texts(out@) =~= contradicted(all.take(0), contradicts@));
    while i < similar.len()
        invariant
            i <= similar@.len(),
            contradicts@.len() == similar@.len(),
            all == similar_views(similar@),
            texts(out@) == contradicted(all.take(i as int), contradicts@),
        decreases similar@.len() - i,
    {
        proof {
            assert(all.take(i + 1).drop_last() =~= all.take(i as int));
            assert(all.take(i + 1).last().0 == similar@[i as int].0@);
        }
        if contradicts[i] {
            let ghost prev = texts(out@);
            out.push(similar[i].0.clone());
            assert(texts(out@) =~= prev.push(similar@[i as int].0@));
        }
        i += 1;
        assert(texts(out@) =~= contradicted(all.take(i as int), contradicts@));
    }
    assert(all.take(i as int) =~= all);
    out
}

// ---------------------------------------------------------------------------
// Insights
// ---------------------------------------------------------------------------

/// What an insight is.
pub struct InsightView {
    pub insight: Seq<char>,
    pub importance: i64,
    pub source_ids: Seq<Seq<char>>,
}

impl View for InsightItem {
    type V = InsightView;

    open spec fn view(&self) -> InsightView {
        InsightView {
            insight: self.insight@,
            importance: self.importance,
            source_ids: texts(self.source_ids@),
        }
    }
}

/// What the insights of a list are.
pub open spec fn insight_views(v: Seq<InsightItem>) -> Seq<InsightView> {
    v.map_values(|i: InsightItem| i@)
}

/// How many sources a new insight shares with an earlier one.
pub open spec fn shared_sources(new: Seq<Seq<char>>, m: ItemView) -> nat {
    let x = distinct_words(new);
    shared(x, list_at(m.metadata, "promoted_from"@), x.len())
}

/// The position of the earlier insight with the most sources in common among the first `n`,
/// and how many: two at least, the first of equals.
pub open spec fn most_sources(new: Seq<Seq<char>>, s: Seq<ItemView>, n: nat) -> (Option<int>, nat)
    decreases n,
{
    if n == 0 {
        (None, 0)
    } else {
        let p = most_sources(new, s, (n - 1) as nat);
        let k = shared_sources(new, s[n - 1]);
        if k >= SEMANTIC_REINFORCEMENT_OVERLAP && k > p.1 {
            (Some(n - 1), k)
        } else {
            p
        }
    }
}

/// The identifier of the earlier insight that a new one says again.
pub open spec fn reinforce_target(new: Seq<Seq<char>>, s: Seq<ItemView>) -> Option<Seq<char>> {
    match most_sources(new, s, s.len()).0 {
        Some(i) => Some(s[i].id),
        None => None,
    }
}

fn count_shared(new: &Vec<String>, m: &MemoryItem) -> (n: usize)
    ensures
        n == shared_sources(texts(new@), m@),
{
    let x = distinct_of(new);
    let there = m.metadata.list("promoted_from");
    let ghost xs = texts(x@);
    let ghost ys = texts(there@);
    let mut n: usize = 0;
    let mut i: usize = 0;
    while i < x.len()
        invariant
            i <= x@.len(),
            n <= i,
            xs == texts(x@),
            ys == texts(there@),
            n == shared(xs, ys, i as nat),
        decreases x@.len() - i,
    {
        assert(xs[i as int] == x@[i as int]@);
        if list_has(&there, x[i].as_str()) {
            n += 1;
        }
        i += 1;
    }
    assert(xs.len() == x@.len());
    n
}

/// The identifier of the earlier insight that a new one says again.
pub fn find_reinforce_target(new_sources: &Vec<String>, existing: &[MemoryItem]) -> (r: Option<String>)
    ensures
        opt_text(r) == reinforce_target(texts(new_sources@), item_views(existing@)),
{
    let ghost all = item_views(existing@);
    let ghost new = texts(new_sources@);
    let mut best: Option<usize> = None;
    let mut most: usize = 0;
    let mut i: usize = 0;
    while i < existing.len()
        invariant
            i <= existing@.len(),
            all == item_views(existing@),
            new == texts(new_sources@),
            (match best {
                Some(k) => Some(k as int),
                None => None,
            }, most as nat) == most_sources(new, all, i as nat),
            best is Some ==> best->0 < i,
        decreases existing@.len() - i,
    {
        assert(all[i as int] == existing@[i as int]@);
        let n: usize = count_shared(new_sources, &existing[i]);
        if n >= SEMANTIC_REINFORCEMENT_OVERLAP && n > most {
            most = n;
            best = Some(i);
        }
        i += 1;
    }
    match best {
        Some(k) => {
            assert(all[k as int] == existing@[k as int]@);
            Some(existing[k].id.clone())
        },
        None => None,
    }
}

/// A new insight.
pub open spec fn new_insight(i: InsightView, now: i64) -> PromotionView {
    PromotionView {
        content: i.insight,
        memory_type: MemoryType::Insight,
        importance: i.importance,
        tags: seq!["insight"@],
        patch: origin(Map::empty(), i.source_ids, now, "stage3"@),
    }
}

/// How often an insight was said again, after one more time.
pub open spec fn said_again(m: ItemView) -> i64 {
    let n = match count_at(m.metadata, "reinforcement_count"@) {
        Some(k) => k as int,
        None => 0,
    };
    if n + 1 > i64::MAX {
        i64::MAX
    } else {
        (n + 1) as i64
    }
}

/// An insight that is said again: both texts, the larger importance, the sources of both.
pub open spec fn reinforced_insight(target: ItemView, i: InsightView, now: i64) -> PromotionView {
    PromotionView {
        content: target.content + "\n"@ + i.insight,
        memory_type: MemoryType::Insight,
        importance: larger(target.importance, i.importance),
        tags: seq!["insight"@],
        patch: origin(
            target.metadata,
            all_sources(target, i.source_ids),
            now,
            "stage3_reinforce"@,
        ).insert("reinforced_from"@, MetaView::Text(target.id)).insert(
            "reinforcement_count"@,
            MetaView::Int(said_again(target)),
        ),
    }
}

fn insight_tags() -> (r: Vec<String>)
    ensures
        texts(r@) == seq!["insight"@],
{
    let mut tags: Vec<String> = Vec::new();
    tags.push("insight".to_owned());
    assert(texts(tags@) =~= seq!["insight"@]);
    tags
}

/// A new insight.
pub fn plan_new_insight(i: &InsightItem, now: i64) -> (r: Promotion)
    requires
        is_storable_time(now),
    ensures
        r@ == new_insight(i@, now),
{
    let mut patch = Metadata::new();
    put_origin(&mut patch, &i.source_ids, now, "stage3");
    Promotion {
        content: i.insight.clone(),
        memory_type: MemoryType::Insight,
        importance: i.importance,
        tags: insight_tags(),
        patch,
    }
}

/// An insight that is said again.
pub fn plan_reinforced_insight(target: &MemoryItem, i: &InsightItem, now: i64) -> (r: Promotion)
    requires
        is_storable_time(now),
    ensures
        r@ == reinforced_insight(target@, i@, now),
{
    let mut content: String = target.content.clone();
    content.append("\n");
    content.append(i.insight.as_str());
    let sources = merge_sources(target, &i.source_ids);
    let count: u64 = match target.metadata.count("reinforcement_count") {
        Some(k) => k,
        None => 0,
    };
    let most: u64 = i64::MAX as u64;
    let again: i64 = if count >= most {
        i64::MAX
    } else {
        (count + 1) as i64
    };
    let mut patch = target.metadata.clone();
    put_origin(&mut patch, &sources, now, "stage3_reinforce");
    patch.insert("reinforced_from", MetaValue::Text(target.id.clone()));
    patch.insert("reinforcement_count", MetaValue::Int(again));
    Promotion {
        content,
        memory_type: MemoryType::Insight,
        importance: if target.importance >= i.importance {
            target.importance
        } else {
            i.importance
        },
        tags: insight_tags(),
        patch,
    }
}

/// The plan to say an earlier insight again; `None` where it is not there, or where personal
/// data cannot be taken out of the text.
pub open spec fn reinforce_plan(
    m: ManagerView,
    target: Option<Seq<char>>,
    i: InsightView,
    now: i64,
) -> Option<PromotionView> {
    match target {
        Some(t) => match first_live(m.entries, t) {
            Some(x) => {
                let p = reinforced_insight(x, i, now);
                if apart(pii_in(p.content)) {
                    Some(p)
                } else {
                    None
                }
            },
            None => None,
        },
        None => None,
    }
}

/// The texts that are looked through for personal data when an earlier insight is said
/// again: what comes of it, where it is there.
pub open spec fn reinforce_seen(m: ManagerView, target: Option<Seq<char>>, i: InsightView, now: i64) -> Seq<
    Seq<char>,
> {
    match target {
        Some(t) => match first_live(m.entries, t) {
            Some(x) => seq![reinforced_insight(x, i, now).content],
            None => Seq::empty(),
        },
        None => Seq::empty(),
    }
}

/// Says an earlier insight again; the earlier one then only stands for what was. Says
/// whether it could.
pub fn reinforce_insight(
    memory: &mut MemoryManager,
    trackers: &mut TrackerStore,
    target_id: &str,
    i: &InsightItem,
    heat: i64,
    now: i64,
) -> (r: bool)
    requires
        is_storable_time(now),
    ensures
        r == (reinforce_plan(old(memory)@, Some(target_id@), i@, now) is Some),
        !r ==> final(memory)@ == old(memory)@,
        r ==> exists|u: Seq<char>|
            u.len() == 36 && final(memory)@ == marked_manager(
                (#[trigger] promoted(
                    old(memory)@,
                    reinforce_plan(old(memory)@, Some(target_id@), i@, now)->0,
                    heat,
                    u,
                    now,
                )).0,
                target_id@,
            ),
        remembers_all(
            old(trackers).entries@,
            final(trackers).entries@,
            reinforce_seen(old(memory)@, Some(target_id@), i@, now),
        ),
{
    let ghost was = memory@;
    let ghost before = trackers.entries@;
    match find_live(memory.entries.as_slice(), target_id) {
        None => false,
        Some(target) => {
            let p = plan_reinforced_insight(&target, i, now);
            let done = promote(memory, trackers, &p, heat, now);
            proof {
                lemma_remembers_one(before, trackers.entries@, p@.content);
            }
            match done {
                None => false,
                Some(_) => {
                    let ghost mid = memory@;
                    let _ = memory.mark_summarized(target_id);
                    proof {
                        let u = choose|u: Seq<char>|
                            u.len() == 36 && (#[trigger] promoted(was, p@, heat, u, now)).0 == mid;
                        let plan = reinforce_plan(was, Some(target_id@), i@, now);
                        assert(plan == Some(p@));
                        assert(memory@ == marked_manager(promoted(was, plan->0, heat, u, now).0, target_id@));
                    }
                    true
                },
            }
        },
    }
}

/// Keeps a new insight; says whether personal data could be taken out of it.
pub fn create_new_insight(
    memory: &mut MemoryManager,
    trackers: &mut TrackerStore,
    i: &InsightItem,
    heat: i64,
    now: i64,
) -> (r: bool)
    requires
        is_storable_time(now),
    ensures
        r == apart(pii_in(i@.insight)),
        !r ==> final(memory)@ == old(memory)@,
        r ==> exists|u: Seq<char>|
            u.len() == 36 && (#[trigger] promoted(old(memory)@, new_insight(i@, now), heat, u, now)).0
                == final(memory)@,
        remembers(old(trackers).entries@, final(trackers).entries@, found(i@.insight, 8), i@.insight),
{
    let p = plan_new_insight(i, now);
    promote(memory, trackers, &p, heat, now).is_some()
}

/// The work on insights.
pub struct Musing {
    pub memory: ManagerView,
    pub created: nat,
    pub reinforced: nat,
    /// Whether an insight could not be kept; nothing follows then.
    pub failed: bool,
    /// The texts that were looked through for personal data.
    pub seen: Seq<Seq<char>>,
}

/// The work after one more insight: an earlier one is said again, or it is a new one.
pub open spec fn mused(
    w: Musing,
    i: InsightView,
    existing: Seq<ItemView>,
    heat: i64,
    u: Seq<char>,
    now: i64,
) -> Musing {
    let target = reinforce_target(i.source_ids, existing);
    if w.failed {
        w
    } else {
        let tried = w.seen + reinforce_seen(w.memory, target, i, now);
        match reinforce_plan(w.memory, target, i, now) {
            Some(p) => Musing {
                memory: marked_manager(promoted(w.memory, p, heat, u, now).0, target->0),
                reinforced: w.reinforced + 1,
                seen: tried,
                ..w
            },
            None => if apart(pii_in(i.insight)) {
                Musing {
                    memory: promoted(w.memory, new_insight(i, now), heat, u, now).0,
                    created: w.created + 1,
                    seen: tried + seq![i.insight],
                    ..w
                }
            } else {
                Musing { failed: true, seen: tried + seq![i.insight], ..w }
            },
        }
    }
}

/// The work after as many insights as there are random texts in `us`.
pub open spec fn musing(
    m: ManagerView,
    list: Seq<InsightView>,
    existing: Seq<ItemView>,
    heat: i64,
    us: Seq<Seq<char>>,
    now: i64,
) -> Musing
    decreases us.len(),
{
    if us.len() == 0 {
        Musing { memory: m, created: 0, reinforced: 0, failed: false, seen: Seq::empty() }
    } else {
        mused(
            musing(m, list, existing, heat, us.drop_last(), now),
            list[us.len() - 1],
            existing,
            heat,
            us.last(),
            now,
        )
    }
}

/// What came of the insights.
pub struct Stage3Outcome {
    pub created: usize,
    pub reinforced: usize,
    pub failed: bool,
}

/// The outcome of the work on insights.
pub open spec fn musing_is(o: Stage3Outcome, w: Musing) -> bool {
    o.created == w.created && o.reinforced == w.reinforced && o.failed == w.failed
}

/// Keeps the insights that a model gave; `existing` are the earlier ones.
pub fn keep_insights(
    memory: &mut MemoryManager,
    trackers: &mut TrackerStore,
    list: &Vec<InsightItem>,
    existing: &[MemoryItem],
    heat: i64,
    now: i64,
) -> (r: Stage3Outcome)
    requires
        is_storable_time(now),
    ensures
        exists|us: Seq<Seq<char>>|
            us.len() == list@.len() && musing_is(
                r,
                #[trigger] musing(
                    old(memory)@,
                    insight_views(list@),
                    item_views(existing@),
                    heat,
                    us,
                    now,
                ),
            ) && final(memory)@ == musing(
                old(memory)@,
                insight_views(list@),
                item_views(existing@),
                heat,
                us,
                now,
            ).memory && remembers_all(
                old(trackers).entries@,
                final(trackers).entries@,
                musing(old(memory)@, insight_views(list@), item_views(existing@), heat, us, now).seen,
            ),
{
    let ghost first = trackers.entries@;
    let ghost was = memory@;
    let ghost lv = insight_views(list@);
    let ghost ev = item_views(existing@);
    let ghost mut us: Seq<Seq<char>> = Seq::empty();
    let mut out = Stage3Outcome { created: 0, reinforced: 0, failed: false };
    let mut k: usize = 0;
    while k < list.len()
        invariant
            k <= list@.len(),
            is_storable_time(now),
            lv == insight_views(list@),
            ev == item_views(existing@),
            us.len() == k,
            out.created <= k,
            out.reinforced <= k,
            musing_is(out, musing(was, lv, ev, heat, us, now)),
            memory@ == musing(was, lv, ev, heat, us, now).memory,
            remembers_all(first, trackers.entries@, musing(was, lv, ev, heat, us, now).seen),
        decreases list@.len() - k,
    {
        let ghost w = musing(was, lv, ev, heat, us, now);
        let ghost before = memory@;
        let ghost held = trackers.entries@;
        let i = &list[k];
        assert(lv[k as int] == i@);
        let ghost mut used: Seq<char> = Seq::empty();
        if !out.failed {
            let target = find_reinforce_target(&i.source_ids, existing);
            let ghost again = reinforce_seen(before, opt_text(target), i@, now);
            let mut done: bool = false;
            if let Some(t) = &target {
                done = reinforce_insight(memory, trackers, t.as_str(), i, heat, now);
                proof {
                    lemma_remembers_more(first, held, trackers.entries@, w.seen, again);
                    if done {
                        let plan = reinforce_plan(before, Some(t@), i@, now)->0;
                        used = choose|u: Seq<char>|
                            u.len() == 36 && memory@ == marked_manager(
                                (#[trigger] promoted(before, plan, heat, u, now)).0,
                                t@,
                            );
                    }
                }
            }
            if done {
                out.reinforced = out.reinforced + 1;
            } else {
                let ghost mid = trackers.entries@;
                proof {
                    if target is None {
                        assert(w.seen + again =~= w.seen);
                    }
                }
                let kept_new = create_new_insight(memory, trackers, i, heat, now);
                proof {
                    lemma_remembers_one(mid, trackers.entries@, i@.insight);
                    lemma_remembers_more(
                        first,
                        mid,
                        trackers.entries@,
                        w.seen + again,
                        seq![i@.insight],
                    );
                }
                if kept_new {
                    out.created = out.created + 1;
                    proof {
                        used = choose|u: Seq<char>|
                            u.len() == 36 && (#[trigger] promoted(
                                before,
                                new_insight(i@, now),
                                heat,
                                u,
                                now,
                            )).0 == memory@;
                    }
                } else {
                    out.failed = true;
                }
            }
        }
        proof {
            let next = us.push(used);
            assert(next.drop_last() =~= us);
            assert(musing(was, lv, ev, heat, next, now) == mused(w, i@, ev, heat, used, now));
            us = next;
        }
        k += 1;
    }
    out
}

// ---------------------------------------------------------------------------
// The stages
// ---------------------------------------------------------------------------

impl ConsolidationPipeline {
    /// A pipeline that has done nothing.
    pub fn new(short_term_threshold: usize, idle_timeout: i64) -> (r: ConsolidationPipeline)
        ensures
            r@ == (PipelineView {
                short_term_threshold,
                idle_timeout,
                new_ltm_count: 0,
                new_ltm_importance_sum: 0,
                last_reflection_at: 0,
                last_stage1_at: 0,
                locked_core: Seq::empty(),
                failed: Seq::empty(),
                done: Seq::empty(),
            }),
    {
        let r = ConsolidationPipeline {
            short_term_threshold,
            idle_timeout,
            new_ltm_count: 0,
            new_ltm_importance_sum: 0,
            last_reflection_at: 0,
            last_stage1_at: 0,
            locked_core: String::new(),
            reflection_backoff: Vec::new(),
            reflection_done: Vec::new(),
        };
        assert(r@.failed =~= Seq::<(Seq<char>, u32, i64)>::empty());
        assert(r@.done =~= Seq::<Seq<char>>::empty());
        r
    }

    /// Sets the part of the character that never changes.
    pub fn set_locked_core(&mut self, text: String)
        ensures
            final(self)@ == (PipelineView { locked_core: text@, ..old(self)@ }),
    {
        self.locked_core = text;
    }

    /// Notes a new lasting memory.
    pub fn notify_new_ltm(&mut self, importance: i64)
        ensures
            final(self)@ == notified(old(self)@, importance),
    {
        let more: u64 = if importance < 0 {
            0
        } else {
            ((importance as u64) + 5_000) / 10_000
        };
        self.new_ltm_count = self.new_ltm_count.wrapping_add(1);
        self.new_ltm_importance_sum = self.new_ltm_importance_sum.wrapping_add(more);
    }

    fn place(&self, key: &str) -> (r: usize)
        ensures
            r == backoff_place(self@.failed, key@),
            r <= self.reflection_backoff@.len(),
    {
        let ghost all = self@.failed;
        let mut i: usize = 0;
        while i < self.reflection_backoff.len() && !same(
            self.reflection_backoff[i].key.as_str(),
            key,
        )
            invariant
                i <= self.reflection_backoff@.len(),
                all == self@.failed,
                forall|j: int| 0 <= j < i ==> (#[trigger] all[j]).0 != key@,
            decreases self.reflection_backoff@.len() - i,
        {
            assert(all[i as int].0 == self.reflection_backoff@[i as int].key@);
            i += 1;
        }
        proof {
            lemma_backoff_place(all, key@);
            let w = backoff_place(all, key@);
            if i < all.len() {
                assert(all[i as int].0 == self.reflection_backoff@[i as int].key@);
            }
            if w < i {
                assert(all[w].0 != key@);
            } else if i < w {
                assert(all[i as int].0 != key@);
            }
        }
        i
    }

    /// Whether a batch may be worked on.
    pub fn check_reflection_gate(&self, key: &str, now: i64) -> (r: Gate)
        ensures
            r == gate(self@.done, self@.failed, key@, now),
    {
        if list_has(&self.reflection_done, key) {
            return Gate::AlreadyDone;
        }
        let i: usize = self.place(key);
        if i < self.reflection_backoff.len() {
            assert(self@.failed[i as int].2 == self.reflection_backoff@[i as int].retry_at);
            if now < self.reflection_backoff[i].retry_at {
                return Gate::Backoff;
            }
        }
        Gate::Open
    }

    /// Notes that a batch was done.
    pub fn record_reflection_success(&mut self, key: &str)
        ensures
            final(self)@ == (PipelineView {
                done: with_done(old(self)@.done, key@),
                failed: without_failure(old(self)@.failed, key@),
                ..old(self)@
            }),
    {
        let ghost was = self@;
        if !list_has(&self.reflection_done, key) {
            self.reflection_done.push(key.to_owned());
            assert(texts(self.reflection_done@) =~= was.done.push(key@));
        }
        let i: usize = self.place(key);
        if i < self.reflection_backoff.len() {
            self.reflection_backoff.remove(i);
            assert(backoff_views(self.reflection_backoff@) =~= was.failed.remove(i as int));
        }
        let ghost full = texts(self.reflection_done@);
        let n: usize = self.reflection_done.len();
        if n > MAX_DONE {
            let mut left: Vec<String> = Vec::new();
            let mut k: usize = n - KEPT_DONE;
            while k < n
                invariant
                    n - KEPT_DONE <= k <= n,
                    n > MAX_DONE,
                    n == self.reflection_done@.len(),
                    full == texts(self.reflection_done@),
                    left@.len() == k - (n - KEPT_DONE),
                    forall|j: int| 0 <= j < left@.len() ==> (#[trigger] left@[j])@ == full[n - KEPT_DONE + j],
                decreases n - k,
            {
                left.push(self.reflection_done[k].clone());
                k += 1;
            }
            assert(texts(left@) =~= full.skip(n - KEPT_DONE));
            self.reflection_done = left;
        }
    }

    /// Notes that a batch failed at `now`.
    pub fn record_reflection_failure(&mut self, key: &str, now: i64)
        requires
            is_storable_time(now),
        ensures
            final(self)@ == (PipelineView {
                failed: with_failure(old(self)@.failed, key@, now),
                ..old(self)@
            }),
    {
        let ghost was = self@;
        let i: usize = self.place(key);
        if i < self.reflection_backoff.len() {
            assert(was.failed[i as int].1 == self.reflection_backoff@[i as int].failures);
            let before: u32 = self.reflection_backoff[i].failures;
            let n: u32 = if before == u32::MAX {
                u32::MAX
            } else {
                before + 1
            };
            let wait: i64 = if n <= 1 {
                120_000
            } else if n == 2 {
                240_000
            } else {
                480_000
            };
            self.reflection_backoff.set(
                i,
                Backoff { key: key.to_owned(), failures: n, retry_at: now + wait },
            );
            assert(backoff_views(self.reflection_backoff@) =~= was.failed.update(
                i as int,
                (key@, n, (now + wait) as i64),
            ));
        } else {
            self.reflection_backoff.push(
                Backoff { key: key.to_owned(), failures: 1, retry_at: now + 120_000 },
            );
            assert(backoff_views(self.reflection_backoff@) =~= was.failed.push(
                (key@, 1, (now + 120_000) as i64),
            ));
        }
    }

    // -----------------------------------------------------------------------
    // Summaries
    // -----------------------------------------------------------------------

    fn trigger(&self, short: &Vec<MemoryItem>, now: i64) -> (r: Option<Stage1Trigger>)
        ensures
            r == stage1_trigger(self@, item_views(short@), now),
    {
        let ghost all = item_views(short@);
        let since: i128 = now as i128 - self.last_stage1_at as i128 * 1000;
        if self.last_stage1_at > 0 && since < STAGE1_COOLDOWN_MILLIS as i128 {
            return None;
        }
        assert(all.len() == short@.len());
        if short.len() == 0 {
            return None;
        }
        if short.len() >= self.short_term_threshold {
            return Some(Stage1Trigger::Count);
        }
        let mut last: i64 = i64::MIN;
        let mut i: usize = 0;
        assert(all.take(0) =~= Seq::<ItemView>::empty());
        while i < short.len()
            invariant
                i <= short@.len(),
                all == item_views(short@),
                last == latest_time(all.take(i as int)),
            decreases short@.len() - i,
        {
            assert(all.take(i + 1).drop_last() =~= all.take(i as int));
            assert(all.take(i + 1).last() == short@[i as int]@);
            if short[i].timestamp > last {
                last = short[i].timestamp;
            }
            i += 1;
        }
        assert(all.take(i as int) =~= all);
        let idle: i128 = now as i128 - last as i128;
        if idle >= self.idle_timeout as i128 && idle >= 0 {
            Some(Stage1Trigger::Idle)
        } else {
            None
        }
    }

    /// What is to be summed up at `now`, with the question to the model; `None` where
    /// nothing is due.
    pub fn stage1_begin(&self, memory: &MemoryManager, now: i64) -> (r: Option<Stage1Batch>)
        ensures
            ({
                let live = memory@.entries.filter(is_live());
                let short = live.filter(is_buffered());
                match r {
                    None => stage1_trigger(self@, short, now) is None,
                    Some(b) => {
                        &&& stage1_trigger(self@, short, now) == Some(b.trigger)
                        &&& item_views(b.short_term@) == short
                        &&& item_views(b.recent@) == recent_summaries(live)
                        &&& texts(b.source_ids@) == ids_of(short)
                        &&& b.prompt@ == summary_prompt(
                            self@.locked_core,
                            recent_summaries(live),
                            short,
                        )
                    },
                }
            }),
    {
        let all = memory.get_all_memories();
        let short_term = buffered_memories(all.as_slice());
        match self.trigger(&short_term, now) {
            None => None,
            Some(trigger) => {
                let recent = get_recent_session_summaries(all.as_slice());
                let source_ids = ids_of_items(&short_term);
                let prompt = stage1_prompt(
                    self.locked_core.as_str(),
                    recent.as_slice(),
                    short_term.as_slice(),
                );
                Some(Stage1Batch { short_term, recent, source_ids, prompt, trigger })
            },
        }
    }

    /// Keeps the summaries that a model gave of a batch; `targets` are the summaries that
    /// they continue. Nothing is done where it gave none.
    pub fn stage1_summarize(
        &self,
        memory: &mut MemoryManager,
        trackers: &mut TrackerStore,
        batch: &Stage1Batch,
        list: &Vec<SummaryItem>,
        targets: &Vec<Option<String>>,
        heat: i64,
        now: i64,
    ) -> (r: Option<Stage1Outcome>)
        requires
            is_storable_time(now),
            targets@.len() == list@.len(),
        ensures
            r is None == (list@.len() == 0),
            r is None ==> final(memory)@ == old(memory)@ && *final(trackers) == *old(trackers),
            r is Some ==> exists|us: Seq<Seq<char>>|
                us.len() == list@.len() && outcome_is(
                    r->0,
                    #[trigger] summing(
                        old(memory)@,
                        summary_views(list@),
                        opt_texts(targets@),
                        texts(batch.source_ids@),
                        heat,
                        us,
                        now,
                    ),
                ) && final(memory)@ == summing(
                    old(memory)@,
                    summary_views(list@),
                    opt_texts(targets@),
                    texts(batch.source_ids@),
                    heat,
                    us,
                    now,
                ).memory && remembers_all(
                    old(trackers).entries@,
                    final(trackers).entries@,
                    summing(
                        old(memory)@,
                        summary_views(list@),
                        opt_texts(targets@),
                        texts(batch.source_ids@),
                        heat,
                        us,
                        now,
                    ).seen,
                ),
    {
        if list.len() == 0 {
            return None;
        }
        Some(keep_summaries(memory, trackers, list, targets, &batch.source_ids, heat, now))
    }

    /// Ends the work on a batch: its memories and the new summaries become part of the
    /// episode, where one was sealed; summaries stand for its memories from now on.
    pub fn stage1_finish(
        &mut self,
        memory: &mut MemoryManager,
        batch: &Stage1Batch,
        new_ids: &Vec<String>,
        episode_id: Option<String>,
        now: i64,
    )
        ensures
            final(self)@ == (PipelineView { last_stage1_at: epoch_seconds(now), ..old(self)@ }),
            final(memory)@ == marked_all(
                match episode_id {
                    Some(e) => episode_filled(
                        episode_filled(old(memory)@, texts(batch.source_ids@), e@),
                        texts(new_ids@),
                        e@,
                    ),
                    None => old(memory)@,
                },
                texts(batch.source_ids@),
                batch.source_ids@.len(),
            ),
    {
        if let Some(e) = &episode_id {
            let _ = memory.backfill_episode_id(&batch.source_ids, e.as_str());
            let _ = memory.backfill_episode_id(new_ids, e.as_str());
            proof {
                assert(texts(batch.source_ids@).len() == batch.source_ids@.len());
                assert(texts(new_ids@).len() == new_ids@.len());
            }
        }
        mark_all(memory, &batch.source_ids);
        self.last_stage1_at = seconds_since_epoch(now);
    }

    // -----------------------------------------------------------------------
    // Facts
    // -----------------------------------------------------------------------

    /// The summaries from which facts are to be drawn at `now`; `heats` are the heats of the
    /// memories that are not archived. `None` where there are none, or where they were
    /// worked on.
    pub fn stage2_begin(&self, memory: &MemoryManager, heats: &Vec<i64>, now: i64) -> (r: Option<Batch>)
        requires
            heats@.len() == memory@.entries.filter(is_live()).len(),
        ensures
            ({
                let live = memory@.entries.filter(is_live());
                let hot = kept(live, hot_flags(live, heats@, now));
                match r {
                    Some(b) => hot.len() > 0 && batch_is(b, hot) && gate(
                        self@.done,
                        self@.failed,
                        fingerprint(ids_of(hot)),
                        now,
                    ) == Gate::Open,
                    None => hot.len() == 0 || gate(
                        self@.done,
                        self@.failed,
                        fingerprint(ids_of(hot)),
                        now,
                    ) != Gate::Open,
                }
            }),
    {
        let all = memory.get_all_memories();
        let ghost live = item_views(all@);
        assert(live.len() == all@.len());
        let mut flags: Vec<bool> = Vec::new();
        let mut i: usize = 0;
        while i < all.len()
            invariant
                i <= all@.len(),
                live == item_views(all@),
                heats@.len() == all@.len(),
                flags@.len() == i,
                forall|k: int| 0 <= k < i ==> #[trigger] flags@[k] == hot_flags(live, heats@, now)[k],
            decreases all@.len() - i,
        {
            let m = &all[i];
            assert(live[i as int] == m@);
            let age: i128 = now as i128 - m.timestamp as i128;
            flags.push(
                is_of_kind(m, "session_summary") && (heats[i] >= STAGE2_HEAT_THRESHOLD || (
                m.visit_count == 0 && age >= STAGE2_FALLBACK_MILLIS as i128)),
            );
            i += 1;
        }
        assert(flags@ =~= hot_flags(live, heats@, now));
        let hot = copy_flagged(all.as_slice(), &flags);
        assert(item_views(hot@).len() == hot@.len());
        if hot.len() == 0 {
            return None;
        }
        let b = make_batch(hot);
        match self.check_reflection_gate(b.key.as_str(), now) {
            Gate::Open => Some(b),
            _ => None,
        }
    }

    /// Keeps a fact, and counts it; `None` where personal data cannot be taken out of it.
    pub fn stage2_keep_fact(
        &mut self,
        memory: &mut MemoryManager,
        trackers: &mut TrackerStore,
        f: &FactItem,
        source_ids: &Vec<String>,
        heat: i64,
        now: i64,
    ) -> (r: Option<String>)
        requires
            is_storable_time(now),
        ensures
            r is None == !apart(pii_in(f.fact@)),
            r is None ==> final(memory)@ == old(memory)@ && final(self)@ == old(self)@,
            r is Some ==> final(self)@ == notified(old(self)@, f.importance) && exists|u: Seq<char>|
                u.len() == 36 && #[trigger] promoted(
                    old(memory)@,
                    fact_promotion(*f, texts(source_ids@), now),
                    heat,
                    u,
                    now,
                ) == (final(memory)@, r->0@),
            remembers(old(trackers).entries@, final(trackers).entries@, found(f.fact@, 8), f.fact@),
    {
        let p = plan_fact(f, source_ids, now);
        match promote(memory, trackers, &p, heat, now) {
            None => None,
            Some(id) => {
                self.notify_new_ltm(f.importance);
                Some(id)
            },
        }
    }

    /// Ends the work on a batch: where the model gave nothing at all it failed; else
    /// summaries stand for its memories, and it is done. Says whether it is.
    pub fn stage2_reflect(
        &mut self,
        memory: &mut MemoryManager,
        batch: &Batch,
        facts: usize,
        behaviors: usize,
        signals: usize,
        recent_state: bool,
        now: i64,
    ) -> (r: bool)
        requires
            is_storable_time(now),
        ensures
            r == (facts > 0 || behaviors > 0 || signals > 0 || recent_state),
            r ==> final(memory)@ == marked_all(
                old(memory)@,
                texts(batch.source_ids@),
                batch.source_ids@.len(),
            ) && final(self)@ == (PipelineView {
                done: with_done(old(self)@.done, batch.key@),
                failed: without_failure(old(self)@.failed, batch.key@),
                ..old(self)@
            }),
            !r ==> final(memory)@ == old(memory)@ && final(self)@ == (PipelineView {
                failed: with_failure(old(self)@.failed, batch.key@, now),
                ..old(self)@
            }),
    {
        if facts == 0 && behaviors == 0 && signals == 0 && !recent_state {
            self.record_reflection_failure(batch.key.as_str(), now);
            return false;
        }
        mark_all(memory, &batch.source_ids);
        self.record_reflection_success(batch.key.as_str());
        true
    }

    // -----------------------------------------------------------------------
    // Insights
    // -----------------------------------------------------------------------

    /// The lasting memories since the last insights, where insights are due and there are
    /// three of them at least; with fewer, the counting starts anew. `None` where nothing is
    /// to be done.
    pub fn stage3_begin(&mut self, memory: &MemoryManager, now: i64) -> (r: Option<Batch>)
        ensures
            ({
                let live = memory@.entries.filter(is_live());
                let new = kept(live, new_ltm_flags(live, old(self)@.last_reflection_at));
                let open = gate(
                    old(self)@.done,
                    old(self)@.failed,
                    fingerprint(ids_of(new)),
                    now,
                ) == Gate::Open;
                &&& r is Some == (stage3_due(old(self)@) && new.len() >= 3 && open)
                &&& r is Some ==> batch_is(r->0, new)
                &&& final(self)@ == (if stage3_due(old(self)@) && new.len() < 3 {
                    counters_reset(old(self)@)
                } else {
                    old(self)@
                })
            }),
            r matches Some(b) ==> forall|i: int|
                0 <= i < b.sources@.len() ==> !(#[trigger] b.sources@[i])@.consolidated && (old(
                    self,
                )@.last_reflection_at == 0 || b.sources@[i]@.timestamp >= old(self)@.last_reflection_at * 1000),
            r matches Some(b) ==> forall|i: int|
                0 <= i < memory@.entries.len() && !(#[trigger] memory@.entries[i]).consolidated
                    && memory@.entries[i].tags.contains("long_term"@) && (old(self)@.last_reflection_at == 0
                    || memory@.entries[i].timestamp >= old(self)@.last_reflection_at * 1000) ==> item_views(
                    b.sources@,
                ).contains(memory@.entries[i]),
    {
        if self.new_ltm_count < STAGE3_NEW_LTM_THRESHOLD && self.new_ltm_importance_sum
            < STAGE3_IMPORTANCE_SUM {
            return None;
        }
        let all = memory.get_all_memories();
        let ghost live = item_views(all@);
        let since: u64 = self.last_reflection_at;
        let mut flags: Vec<bool> = Vec::new();
        let mut i: usize = 0;
        while i < all.len()
            invariant
                i <= all@.len(),
                live == item_views(all@),
                flags@.len() == i,
                forall|k: int| 0 <= k < i ==> #[trigger] flags@[k] == new_ltm_flags(live, since)[k],
            decreases all@.len() - i,
        {
            let m = &all[i];
            assert(live[i as int] == m@);
            let early = since > 0 && (m.timestamp as i128) < since as i128 * 1000;
            flags.push(!early && does_last(m));
            i += 1;
        }
        assert(flags@ =~= new_ltm_flags(live, since));
        let new = copy_flagged(all.as_slice(), &flags);
        let ghost picked = item_views(new@);
        proof {
            assert forall|i: int| 0 <= i < picked.len() implies !(#[trigger] picked[i]).consolidated && (since
                == 0 || picked[i].timestamp >= since * 1000) by {
                crate::pipeline_laws::insights_come_of_what_is_new(memory@.entries, since, picked[i]);
            }
            assert forall|i: int|
                0 <= i < memory@.entries.len() && !(#[trigger] memory@.entries[i]).consolidated
                    && memory@.entries[i].tags.contains("long_term"@) && (since == 0
                    || memory@.entries[i].timestamp >= since * 1000) implies picked.contains(
            memory@.entries[i]) by {
                crate::pipeline_laws::insights_come_of_what_is_new(
                    memory@.entries,
                    since,
                    memory@.entries[i],
                );
            }
        }
        assert(item_views(new@).len() == new@.len());
        if new.len() < 3 {
            self.new_ltm_count = 0;
            self.new_ltm_importance_sum = 0;
            return None;
        }
        let b = make_batch(new);
        proof {
            assert forall|i: int| 0 <= i < b.sources@.len() implies !(
            #[trigger] b.sources@[i])@.consolidated && (since == 0 || b.sources@[i]@.timestamp >= since
                * 1000) by {
                assert(picked[i] == b.sources@[i]@);
            }
        }
        match self.check_reflection_gate(b.key.as_str(), now) {
            Gate::Open => Some(b),
            _ => None,
        }
    }

    /// Keeps the insights that a model gave of a batch; `existing` are the earlier ones. Where
    /// it gave none the batch failed; where one could not be kept the batch is neither done
    /// nor failed; else it is done, and counting starts anew.
    pub fn stage3_insight(
        &mut self,
        memory: &mut MemoryManager,
        trackers: &mut TrackerStore,
        batch: &Batch,
        list: &Vec<InsightItem>,
        existing: &[MemoryItem],
        heat: i64,
        now: i64,
    ) -> (r: Option<Stage3Outcome>)
        requires
            is_storable_time(now),
        ensures
            r is None == (list@.len() == 0),
            r is None ==> final(memory)@ == old(memory)@ && *final(trackers) == *old(trackers) && final(self)@
                == (PipelineView {
                failed: with_failure(old(self)@.failed, batch.key@, now),
                ..old(self)@
            }),
            r is Some ==> exists|us: Seq<Seq<char>>|
                us.len() == list@.len() && musing_is(
                    r->0,
                    #[trigger] musing(
                        old(memory)@,
                        insight_views(list@),
                        item_views(existing@),
                        heat,
                        us,
                        now,
                    ),
                ) && final(memory)@ == musing(
                    old(memory)@,
                    insight_views(list@),
                    item_views(existing@),
                    heat,
                    us,
                    now,
                ).memory && remembers_all(
                    old(trackers).entries@,
                    final(trackers).entries@,
                    musing(
                        old(memory)@,
                        insight_views(list@),
                        item_views(existing@),
                        heat,
                        us,
                        now,
                    ).seen,
                ),
            r is Some && r->0.failed ==> final(self)@ == old(self)@,
            r is Some && !r->0.failed ==> final(self)@ == (PipelineView {
                last_reflection_at: epoch_seconds(now),
                done: with_done(old(self)@.done, batch.key@),
                failed: without_failure(old(self)@.failed, batch.key@),
                ..counters_reset(old(self)@)
            }),
    {
        if list.len() == 0 {
            self.record_reflection_failure(batch.key.as_str(), now);
            return None;
        }
        let out = keep_insights(memory, trackers, list, existing, heat, now);
        if !out.failed {
            self.new_ltm_count = 0;
            self.new_ltm_importance_sum = 0;
            self.last_reflection_at = seconds_since_epoch(now);
            self.record_reflection_success(batch.key.as_str());
        }
        Some(out)
    }
}

/// The manager after memories became part of an episode.
pub open spec fn episode_filled(m: ManagerView, ids: Seq<Seq<char>>, episode: Seq<char>) -> ManagerView {
    let r = with_episode(m.entries, ids, episode, ids.len());
    ManagerView { entries: r.0, dirty: m.dirty || r.1 > 0, ..m }
}

// ---------------------------------------------------------------------------
// Concepts
// ---------------------------------------------------------------------------

/// Something that the user cares about, in the words of a model.
#[derive(Debug)]
pub struct ConceptItem {
    pub key: String,
    pub value: String,
    pub meaning: String,
    pub related_topics: Vec<String>,
    pub evidence_ids: Vec<String>,
    /// In millionths.
    pub strength: i64,
}

/// The flags of the concepts that have a name.
pub open spec fn named_flags(s: Seq<ConceptItem>) -> Seq<bool> {
    Seq::new(s.len(), |i: int| trim(s[i].key@).len() > 0)
}

/// The concept with its name without white space around it.
pub open spec fn trimmed_concept(c: ConceptItem, r: ConceptItem) -> bool {
    &&& r.key@ == trim(c.key@)
    &&& r.value@ == c.value@
    &&& r.meaning@ == c.meaning@
    &&& texts(r.related_topics@) == texts(c.related_topics@)
    &&& texts(r.evidence_ids@) == texts(c.evidence_ids@)
    &&& r.strength == c.strength
}

/// The concepts that are to be kept: those that have a name.
pub fn stage3_concept(list: &Vec<ConceptItem>) -> (out: Vec<ConceptItem>)
    ensures
        out@.len() == kept(list@, named_flags(list@)).len(),
        forall|k: int|
            0 <= k < out@.len() ==> trimmed_concept(
                kept(list@, named_flags(list@))[k],
                #[trigger] out@[k],
            ),
{
    let ghost flags = named_flags(list@);
    let mut out: Vec<ConceptItem> = Vec::new();
    let mut i: usize = 0;
    assert(kept(list@.take(0), flags) =~= Seq::<ConceptItem>::empty());
    while i < list.len()
        invariant
            i <= list@.len(),
            flags == named_flags(list@),
            out@.len() == kept(list@.take(i as int), flags).len(),
            forall|k: int|
                0 <= k < out@.len() ==> trimmed_concept(
                    kept(list@.take(i as int), flags)[k],
                    #[trigger] out@[k],
                ),
        decreases list@.len() - i,
    {
        let ghost before = kept(list@.take(i as int), flags);
        proof {
            assert(list@.take(i + 1).drop_last() =~= list@.take(i as int));
            assert(list@.take(i + 1).last() == list@[i as int]);
        }
        let c = &list[i];
        let key = trimmed(c.key.as_str());
        if key.as_str().unicode_len() > 0 {
            let ghost prev = out@;
            out.push(
                ConceptItem {
                    key,
                    value: c.value.clone(),
                    meaning: c.meaning.clone(),
                    related_topics: copy_strings(&c.related_topics),
                    evidence_ids: copy_strings(&c.evidence_ids),
                    strength: c.strength,
                },
            );
            proof {
                let after = kept(list@.take(i + 1), flags);
                assert(after == before.push(*c));
                assert forall|k: int| 0 <= k < out@.len() implies trimmed_concept(
                    after[k],
                    #[trigger] out@[k],
                ) by {
                    if k < prev.len() {
                        assert(out@[k] == prev[k]);
                        assert(after[k] == before[k]);
                    }
                }
            }
        }
        i += 1;
    }
    assert(list@.take(i as int) =~= list@);
    out
}

// ---------------------------------------------------------------------------
// Interrupted work
// ---------------------------------------------------------------------------

/// The key under which interrupted work may be taken up again: the character and the day.
pub open spec fn progress_key(char_id: Seq<char>, day: Seq<char>) -> Seq<char> {
    char_id + "|"@ + day
}

/// The key of interrupted work on a day.
pub fn progress_key_on(char_id: &str, day: &str) -> (r: String)
    ensures
        r@ == progress_key(char_id@, day@),
{
    let mut out: String = char_id.to_owned();
    out.append("|");
    out.append(day);
    out
}

/// The key of interrupted work today.
pub fn progress_context_key(char_id: &str) -> (r: String)
    ensures
        exists|day: Seq<char>| r@ == #[trigger] progress_key(char_id@, day),
{
    let day = local_today();
    progress_key_on(char_id, day.as_str())
}

/// The sources of the summaries among the memories.
pub open spec fn summed_sources(s: Seq<ItemView>, id: Seq<char>) -> bool {
    exists|i: int|
        0 <= i < s.len() && of_kind(#[trigger] s[i], "session_summary"@) && list_at(
            s[i].metadata,
            "promoted_from"@,
        ).contains(id)
}

/// A summary that was kept before the work was interrupted stands for its sources: each of
/// them counts as summed up, though it was not marked.
pub proof fn kept_summary_stands_for_its_sources(
    m: ManagerView,
    s: SummaryView,
    source_ids: Seq<Seq<char>>,
    heat: i64,
    u: Seq<char>,
    now: i64,
    x: Seq<char>,
)
    requires
        !nothing_left(safe_text(s.summary)),
        source_ids.contains(x),
    ensures
        summed_sources(promoted(m, new_summary(s, source_ids, now), heat, u, now).0.entries, x),
{
    summary_names_its_sources(m, s, source_ids, heat, u, now);
    let after = promoted(m, new_summary(s, source_ids, now), heat, u, now).0.entries;
    assert(of_kind(after[after.len() - 1], "session_summary"@));
}

/// The identifiers that are sources of a summary.
pub open spec fn already_summed(s: Seq<ItemView>, ids: Seq<Seq<char>>) -> Seq<Seq<char>>
    decreases ids.len(),
{
    if ids.len() == 0 {
        Seq::<Seq<char>>::empty()
    } else {
        let rest = already_summed(s, ids.drop_last());
        if summed_sources(s, ids.last()) {
            rest.push(ids.last())
        } else {
            rest
        }
    }
}

fn is_summed(all: &Vec<MemoryItem>, id: &str) -> (r: bool)
    ensures
        r == summed_sources(item_views(all@), id@),
{
    let ghost s = item_views(all@);
    let mut i: usize = 0;
    while i < all.len()
        invariant
            i <= all@.len(),
            s == item_views(all@),
            forall|k: int|
                0 <= k < i ==> !(of_kind(#[trigger] s[k], "session_summary"@) && list_at(
                    s[k].metadata,
                    "promoted_from"@,
                ).contains(id@)),
        decreases all@.len() - i,
    {
        assert(s[i as int] == all@[i as int]@);
        if is_of_kind(&all[i], "session_summary") {
            let from = all[i].metadata.list("promoted_from");
            if list_has(&from, id) {
                return true;
            }
        }
        i += 1;
    }
    false
}

/// Takes up interrupted work: the memories whose summary was kept are marked; the others
/// are left to be summed up. Nothing is done where the key is not the current one. Says how
/// many were marked.
pub fn complete_interrupted_stage1(
    memory: &mut MemoryManager,
    kept_key: &str,
    current_key: &str,
    pending_ids: &Vec<String>,
) -> (n: usize)
    ensures
        ({
            let ids = already_summed(old(memory)@.entries.filter(is_live()), texts(pending_ids@));
            if kept_key@ == current_key@ {
                n == ids.len() && final(memory)@ == marked_all(old(memory)@, ids, ids.len())
            } else {
                n == 0 && final(memory)@ == old(memory)@
            }
        }),
{
    if !same(kept_key, current_key) {
        return 0;
    }
    let all = memory.get_all_memories();
    let ghost s = item_views(all@);
    let ghost want = texts(pending_ids@);
    let mut ids: Vec<String> = Vec::new();
    let mut i: usize = 0;
    assert(texts(ids@) =~= already_summed(s, want.take(0)));
    while i < pending_ids.len()
        invariant
            i <= pending_ids@.len(),
            s == item_views(all@),
            want == texts(pending_ids@),
            texts(ids@) == already_summed(s, want.take(i as int)),
        decreases pending_ids@.len() - i,
    {
        proof {
            assert(want.take(i + 1).drop_last() =~= want.take(i as int));
            assert(want.take(i + 1).last() == pending_ids@[i as int]@);
        }
        if is_summed(&all, pending_ids[i].as_str()) {
            let ghost prev = texts(ids@);
            ids.push(pending_ids[i].clone());
            assert(texts(ids@) =~= prev.push(pending_ids@[i as int]@));
        }
        i += 1;
    }
    assert(want.take(i as int) =~= want);
    assert(texts(ids@).len() == ids@.len());
    mark_all(memory, &ids);
    ids.len()
}

} // verus!
