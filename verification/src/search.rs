//! From what a search found to what it gives: observers step back, episodes stay
//! together, conditions are applied, and results are kept for a moment.

use crate::manager::{any_known, visits, ManagerView, MemoryManager};
use crate::notes::ids_of;
use crate::precision_filter::{apply_precision_filter, at_least_one, exclude_visible_context, no_conditions,
    passing, stage_wins, PrecisionFilterCriteria, RELAXATION_MIN_RESULTS_DEFAULT};
use crate::rank::{rank_items, ranked};
use crate::retriever::{expand_context, meets, with_neighbours, MemoryRetrievalFilter};
use crate::select::filter_items;
use crate::store::{dedup_by_content, distinct_contents, is_observer_perspective, is_summarized, observed,
    searchable};
use crate::strategy::{auto_search, create_strategy, first_items, strategy_search, AutoStrategy, Outside};
use crate::text::{decimal, decimal_of, lower, lowercase, same, texts, trim, trimmed};
use crate::time_anchor::{apply_time_anchor, is_anchored};
use crate::types::{copy_items, item_views, micros_at, ItemView, MemoryItem, MetaValue, MetaView,
    RetrievalStrategy};
use vstd::prelude::*;
use vstd::string::*;

verus! {

// ---------------------------------------------------------------------------
// Observers
// ---------------------------------------------------------------------------

/// Whether a search gave the memory a score.
pub open spec fn has_score(m: ItemView) -> bool {
    m.metadata.contains_key("fused_score"@) || m.metadata.contains_key("combined_score"@)
}

/// The score that a search gave the memory, in millionths; none where it is no number.
pub open spec fn given_score(m: ItemView) -> i128 {
    let s = if m.metadata.contains_key("fused_score"@) {
        micros_at(m.metadata, "fused_score"@)
    } else {
        micros_at(m.metadata, "combined_score"@)
    };
    match s {
        Some(x) => x,
        None => 0,
    }
}

/// Whether one of the memories has a score.
pub open spec fn any_score(s: Seq<ItemView>) -> bool {
    exists|i: int| 0 <= i < s.len() && has_score(#[trigger] s[i])
}

/// The scores, those of observers halved; in halves of a millionth.
pub open spec fn observer_keys(s: Seq<ItemView>) -> Seq<i128> {
    s.map_values(
        |m: ItemView|
            (given_score(m) * (if observed(m.metadata) {
                1
            } else {
                2int
            })) as i128,
    )
}

/// The memories with those of observers further back: by their halved scores where there
/// are scores, and behind all others where there are none.
pub open spec fn penalized(s: Seq<ItemView>) -> Seq<ItemView> {
    if any_score(s) {
        ranked(s, observer_keys(s), s.len() as int)
    } else {
        s.filter(|m: ItemView| !observed(m.metadata)) + s.filter(|m: ItemView| observed(m.metadata))
    }
}

fn score_of(m: &MemoryItem) -> (r: i128)
    ensures
        r == given_score(m@),
        -10_000_000_000_000_000_000_000_000 <= r <= 10_000_000_000_000_000_000_000_000,
{
    let s = if m.metadata.get("fused_score").is_some() {
        m.metadata.micros("fused_score")
    } else {
        m.metadata.micros("combined_score")
    };
    match s {
        Some(x) => x,
        None => 0,
    }
}

fn find_score(items: &[MemoryItem]) -> (r: bool)
    ensures
        r == any_score(item_views(items@)),
{
    let ghost all = item_views(items@);
    let mut i: usize = 0;
    while i < items.len()
        invariant
            i <= items@.len(),
            all == item_views(items@),
            forall|k: int| 0 <= k < i ==> !has_score(#[trigger] all[k]),
        decreases items@.len() - i,
    {
        assert(all[i as int] == items@[i as int]@);
        if items[i].metadata.get("fused_score").is_some() || items[i].metadata.get(
            "combined_score",
        ).is_some() {
            return true;
        }
        i += 1;
    }
    false
}

/// Lets memories of observers step back: they count half, or come last where there are no
/// scores.
pub fn apply_observer_penalty(items: &[MemoryItem]) -> (out: Vec<MemoryItem>)
    ensures
        item_views(out@) == penalized(item_views(items@)),
{
    let ghost all = item_views(items@);
    if find_score(items) {
        let mut keys: Vec<i128> = Vec::new();
        let mut i: usize = 0;
        while i < items.len()
            invariant
                i <= items@.len(),
                all == item_views(items@),
                keys@.len() == i,
                forall|k: int| 0 <= k < i ==> #[trigger] keys@[k] == observer_keys(all)[k],
            decreases items@.len() - i,
        {
            assert(all[i as int] == items@[i as int]@);
            let raw: i128 = score_of(&items[i]);
            keys.push(
                if is_observer_perspective(&items[i].metadata) {
                    raw
                } else {
                    raw * 2
                },
            );
            i += 1;
        }
        assert(keys@ =~= observer_keys(all));
        rank_items(items, &keys, items.len())
    } else {
        let direct = |m: &MemoryItem| -> (r: bool)
            ensures
                r == !observed(m@.metadata),
            { !is_observer_perspective(&m.metadata) };
        let watched = |m: &MemoryItem| -> (r: bool)
            ensures
                r == observed(m@.metadata),
            { is_observer_perspective(&m.metadata) };
        let mut out = filter_items(
            items,
            direct,
            Ghost(|m: ItemView| !observed(m.metadata)),
        );
        let mut rest = filter_items(items, watched, Ghost(|m: ItemView| observed(m.metadata)));
        let ghost a = out@;
        let ghost b = rest@;
        out.append(&mut rest);
        assert(item_views(out@) =~= item_views(a) + item_views(b));
        out
    }
}

/// Among memories without scores, none of an observer stands before one that is not.
pub proof fn observers_come_last(s: Seq<ItemView>, i: int, j: int)
    requires
        !any_score(s),
        0 <= i < j < penalized(s).len(),
    ensures
        observed(penalized(s)[i].metadata) ==> observed(penalized(s)[j].metadata),
{
    let a = s.filter(|m: ItemView| !observed(m.metadata));
    let b = s.filter(|m: ItemView| observed(m.metadata));
    if i < a.len() {
        crate::select::filter_from(s, |m: ItemView| !observed(m.metadata), i);
    }
    if j >= a.len() {
        crate::select::filter_from(s, |m: ItemView| observed(m.metadata), j - a.len());
    }
}

// ---------------------------------------------------------------------------
// Episodes
// ---------------------------------------------------------------------------

/// How many results say which episodes count.
pub const EPISODE_BOOST_TOP_K: usize = 3;

/// Whether the episode is that of one of the first results.
pub open spec fn leading_episode(s: Seq<ItemView>, episode: Option<Seq<char>>) -> bool {
    episode is Some && exists|i: int|
        0 <= i < s.len() && i < EPISODE_BOOST_TOP_K && (#[trigger] s[i]).episode_id == episode
}

/// Whether one of the first results is part of an episode.
pub open spec fn any_leading(s: Seq<ItemView>) -> bool {
    exists|i: int| 0 <= i < s.len() && i < EPISODE_BOOST_TOP_K && (#[trigger] s[i]).episode_id is Some
}

/// The scores, those of the other memories of the leading episodes a fifth higher; in fifths
/// of a millionth.
pub open spec fn episode_keys(s: Seq<ItemView>) -> Seq<i128> {
    Seq::new(
        s.len(),
        |i: int|
            (given_score(s[i]) * (if i >= EPISODE_BOOST_TOP_K && leading_episode(s, s[i].episode_id) {
                6
            } else {
                5int
            })) as i128,
    )
}

/// The results with the other memories of the leading episodes further up, where there are
/// scores.
pub open spec fn boosted(s: Seq<ItemView>) -> Seq<ItemView> {
    if s.len() <= 1 || !any_leading(s) || !any_score(s) {
        s
    } else {
        ranked(s, episode_keys(s), s.len() as int)
    }
}

fn is_leading(items: &[MemoryItem], m: &MemoryItem) -> (r: bool)
    ensures
        r == leading_episode(item_views(items@), m@.episode_id),
{
    let ghost all = item_views(items@);
    match &m.episode_id {
        None => false,
        Some(e) => {
            let mut i: usize = 0;
            while i < items.len() && i < EPISODE_BOOST_TOP_K
                invariant
                    i <= items@.len(),
                    i <= EPISODE_BOOST_TOP_K,
                    all == item_views(items@),
                    m@.episode_id == Some(e@),
                    forall|k: int| 0 <= k < i ==> (#[trigger] all[k]).episode_id != Some(e@),
                decreases items@.len() - i,
            {
                assert(all[i as int] == items@[i as int]@);
                if let Some(x) = &items[i].episode_id {
                    if same(x.as_str(), e.as_str()) {
                        assert(all[i as int].episode_id == m@.episode_id);
                        return true;
                    }
                }
                i += 1;
            }
            false
        },
    }
}

fn find_leading(items: &[MemoryItem]) -> (r: bool)
    ensures
        r == any_leading(item_views(items@)),
{
    let ghost all = item_views(items@);
    let mut i: usize = 0;
    while i < items.len() && i < EPISODE_BOOST_TOP_K
        invariant
            i <= items@.len(),
            i <= EPISODE_BOOST_TOP_K,
            all == item_views(items@),
            forall|k: int| 0 <= k < i ==> (#[trigger] all[k]).episode_id is None,
        decreases items@.len() - i,
    {
        assert(all[i as int] == items@[i as int]@);
        if items[i].episode_id.is_some() {
            return true;
        }
        i += 1;
    }
    false
}

/// Lets the other memories of the leading episodes come further up.
pub fn apply_episode_boost(items: &[MemoryItem]) -> (out: Vec<MemoryItem>)
    ensures
        item_views(out@) == boosted(item_views(items@)),
{
    let ghost all = item_views(items@);
    if items.len() <= 1 || !find_leading(items) || !find_score(items) {
        return copy_items(items);
    }
    let mut keys: Vec<i128> = Vec::new();
    let mut i: usize = 0;
    while i < items.len()
        invariant
            i <= items@.len(),
            all == item_views(items@),
            keys@.len() == i,
            forall|k: int| 0 <= k < i ==> #[trigger] keys@[k] == episode_keys(all)[k],
        decreases items@.len() - i,
    {
        assert(all[i as int] == items@[i as int]@);
        let raw: i128 = score_of(&items[i]);
        keys.push(
            if i >= EPISODE_BOOST_TOP_K && is_leading(items, &items[i]) {
                raw * 6
            } else {
                raw * 5
            },
        );
        i += 1;
    }
    assert(keys@ =~= episode_keys(all));
    rank_items(items, &keys, items.len())
}

// ---------------------------------------------------------------------------
// Results that are kept for a moment
// ---------------------------------------------------------------------------

/// How long results are good.
pub const SEARCH_CACHE_MILLIS: i64 = 5_000;

/// How many results are kept.
pub const SEARCH_CACHE_MAX: usize = 16;

/// The results of a search.
pub struct CacheEntry {
    pub key: String,
    pub time: i64,
    pub results: Vec<MemoryItem>,
}

/// The results of a search, over views.
pub struct CacheView {
    pub key: Seq<char>,
    pub time: i64,
    pub results: Seq<ItemView>,
}

impl View for CacheEntry {
    type V = CacheView;

    open spec fn view(&self) -> CacheView {
        CacheView { key: self.key@, time: self.time, results: item_views(self.results@) }
    }
}

/// What the entries of a list are.
pub open spec fn cache_views(v: Seq<CacheEntry>) -> Seq<CacheView> {
    v.map_values(|e: CacheEntry| e@)
}

/// The results of the last searches, one entry for each key.
pub struct SearchCache {
    pub entries: Vec<CacheEntry>,
}

/// The position of the first entry with that key, or the end.
pub open spec fn cache_place(s: Seq<CacheView>, key: Seq<char>) -> int
    decreases s.len(),
{
    if s.len() == 0 || s[0].key == key {
        0
    } else {
        1 + cache_place(s.skip(1), key)
    }
}

/// The results under that key that are still good at `now`.
pub open spec fn cached(s: Seq<CacheView>, key: Seq<char>, now: i64) -> Option<Seq<ItemView>> {
    let i = cache_place(s, key);
    if i < s.len() && now - s[i].time < SEARCH_CACHE_MILLIS {
        Some(s[i].results)
    } else {
        None
    }
}

/// The position of the first of the oldest entries among the first `n`.
pub open spec fn oldest(s: Seq<CacheView>, n: nat) -> int
    decreases n,
{
    if n <= 1 {
        0
    } else {
        let i = oldest(s, (n - 1) as nat);
        if s[n - 1].time < s[i].time {
            n - 1
        } else {
            i
        }
    }
}

/// The entries with new results; where there are too many, the oldest goes first.
pub open spec fn with_results(s: Seq<CacheView>, e: CacheView) -> Seq<CacheView> {
    let t = if s.len() >= SEARCH_CACHE_MAX {
        s.remove(oldest(s, s.len()))
    } else {
        s
    };
    let i = cache_place(t, e.key);
    if i < t.len() {
        t.update(i, e)
    } else {
        t.push(e)
    }
}

proof fn lemma_cache_place(s: Seq<CacheView>, key: Seq<char>)
    ensures
        0 <= cache_place(s, key) <= s.len(),
        forall|j: int| 0 <= j < cache_place(s, key) ==> (#[trigger] s[j]).key != key,
        cache_place(s, key) < s.len() ==> s[cache_place(s, key)].key == key,
    decreases s.len(),
{
    if s.len() > 0 && s[0].key != key {
        lemma_cache_place(s.skip(1), key);
        let i = cache_place(s, key);
        assert forall|j: int| 0 <= j < i implies (#[trigger] s[j]).key != key by {
            if j > 0 {
                assert(s.skip(1)[j - 1] == s[j]);
            }
        }
        if i < s.len() {
            assert(s.skip(1)[i - 1] == s[i]);
        }
    }
}

proof fn lemma_oldest(s: Seq<CacheView>, n: nat)
    requires
        0 < n <= s.len(),
    ensures
        0 <= oldest(s, n) < n,
        forall|j: int| 0 <= j < n ==> s[oldest(s, n)].time <= (#[trigger] s[j]).time,
    decreases n,
{
    if n > 1 {
        lemma_oldest(s, (n - 1) as nat);
    }
}

/// Results that were kept are found under their key while they are good, and there are
/// never more than are kept.
pub proof fn kept_results_are_found(s: Seq<CacheView>, e: CacheView, now: i64)
    requires
        s.len() <= SEARCH_CACHE_MAX,
        now - e.time < SEARCH_CACHE_MILLIS,
    ensures
        cached(with_results(s, e), e.key, now) == Some(e.results),
        with_results(s, e).len() <= SEARCH_CACHE_MAX,
{
    if s.len() >= SEARCH_CACHE_MAX {
        lemma_oldest(s, s.len());
    }
    let t = if s.len() >= SEARCH_CACHE_MAX {
        s.remove(oldest(s, s.len()))
    } else {
        s
    };
    lemma_cache_place(t, e.key);
    let r = with_results(s, e);
    lemma_cache_place(r, e.key);
    let i = cache_place(t, e.key);
    let k = cache_place(r, e.key);
    assert(r[i] == e);
    if k < i {
        assert(r[k] == t[k]);
    } else if i < k {
        assert(r[i].key != e.key);
    }
}

impl SearchCache {
    pub fn new() -> (r: SearchCache)
        ensures
            cache_views(r.entries@) == Seq::<CacheView>::empty(),
    {
        let r = SearchCache { entries: Vec::new() };
        assert(cache_views(r.entries@) =~= Seq::<CacheView>::empty());
        r
    }

    fn place(&self, key: &str) -> (r: usize)
        ensures
            r == cache_place(cache_views(self.entries@), key@),
            r <= self.entries@.len(),
    {
        let ghost all = cache_views(self.entries@);
        let mut i: usize = 0;
        while i < self.entries.len() && !same(self.entries[i].key.as_str(), key)
            invariant
                i <= self.entries@.len(),
                all == cache_views(self.entries@),
                forall|j: int| 0 <= j < i ==> (#[trigger] all[j]).key != key@,
            decreases self.entries@.len() - i,
        {
            assert(all[i as int] == self.entries@[i as int]@);
            i += 1;
        }
        proof {
            lemma_cache_place(all, key@);
            let w = cache_place(all, key@);
            if i < all.len() {
                assert(all[i as int] == self.entries@[i as int]@);
            }
            if w < i {
                assert(all[w].key != key@);
            } else if i < w {
                assert(all[i as int].key != key@);
            }
        }
        i
    }

    /// The results under that key that are still good at `now`.
    pub fn get(&self, key: &str, now: i64) -> (r: Option<Vec<MemoryItem>>)
        ensures
            (match r {
                Some(v) => Some(item_views(v@)),
                None => None,
            }) == cached(cache_views(self.entries@), key@, now),
    {
        let i: usize = self.place(key);
        if i < self.entries.len() {
            assert(cache_views(self.entries@)[i as int] == self.entries@[i as int]@);
            if (now as i128 - self.entries[i].time as i128) < SEARCH_CACHE_MILLIS as i128 {
                return Some(copy_items(self.entries[i].results.as_slice()));
            }
        }
        None
    }

    /// Keeps results under a key.
    pub fn put(&mut self, key: &str, results: &Vec<MemoryItem>, now: i64)
        ensures
            cache_views(final(self).entries@) == with_results(
                cache_views(old(self).entries@),
                CacheView { key: key@, time: now, results: item_views(results@) },
            ),
    {
        let ghost was = cache_views(self.entries@);
        if self.entries.len() >= SEARCH_CACHE_MAX {
            let mut at: usize = 0;
            let mut i: usize = 1;
            while i < self.entries.len()
                invariant
                    1 <= i <= self.entries@.len(),
                    at < i,
                    was == cache_views(self.entries@),
                    at == oldest(was, i as nat),
                decreases self.entries@.len() - i,
            {
                assert(was[i as int] == self.entries@[i as int]@);
                assert(was[at as int] == self.entries@[at as int]@);
                if self.entries[i].time < self.entries[at].time {
                    at = i;
                }
                i += 1;
            }
            self.entries.remove(at);
            assert(cache_views(self.entries@) =~= was.remove(at as int));
        }
        let ghost t = cache_views(self.entries@);
        let i: usize = self.place(key);
        let e = CacheEntry {
            key: key.to_owned(),
            time: now,
            results: copy_items(results.as_slice()),
        };
        let ghost ev = e@;
        if i < self.entries.len() {
            self.entries.set(i, e);
            assert(cache_views(self.entries@) =~= t.update(i as int, ev));
        } else {
            self.entries.push(e);
            assert(cache_views(self.entries@) =~= t.push(ev));
        }
    }
}

/// The name of a strategy in a key.
pub open spec fn strategy_label(s: RetrievalStrategy) -> Seq<char> {
    match s {
        RetrievalStrategy::Auto => "Auto"@,
        RetrievalStrategy::Keyword => "Keyword"@,
        RetrievalStrategy::Vector => "Vector"@,
        RetrievalStrategy::Hybrid => "Hybrid"@,
        RetrievalStrategy::Graph => "Graph"@,
    }
}

/// The key of a search: what is looked for whatever its case, how, how much, and in which
/// index.
pub open spec fn search_key(
    query: Seq<char>,
    strategy: RetrievalStrategy,
    limit: usize,
    model: Seq<char>,
    dimension: usize,
) -> Seq<char> {
    lowercase(trim(query)) + "|"@ + strategy_label(strategy) + "|"@ + decimal(limit as nat) + "|"@ + model
        + "|"@ + decimal(dimension as nat)
}

/// The key of a search.
pub fn cache_key(
    query: &str,
    strategy: RetrievalStrategy,
    limit: usize,
    model: &str,
    dimension: usize,
) -> (r: String)
    ensures
        r@ == search_key(query@, strategy, limit, model@, dimension),
{
    let t = trimmed(query);
    let mut out: String = lower(t.as_str());
    out.append("|");
    let label: &'static str = match strategy {
        RetrievalStrategy::Auto => "Auto",
        RetrievalStrategy::Keyword => "Keyword",
        RetrievalStrategy::Vector => "Vector",
        RetrievalStrategy::Hybrid => "Hybrid",
        RetrievalStrategy::Graph => "Graph",
    };
    out.append(label);
    out.append("|");
    out.append(decimal_of(limit as u64).as_str());
    out.append("|");
    out.append(model);
    out.append("|");
    out.append(decimal_of(dimension as u64).as_str());
    out
}

// ---------------------------------------------------------------------------
// A search with conditions
// ---------------------------------------------------------------------------

/// How much is looked for, so that something is left after the conditions.
pub open spec fn wide_limit(limit: int) -> int {
    if limit * 3 < 10 {
        10
    } else {
        limit * 3
    }
}

/// How much is looked for.
pub fn candidate_limit(limit: usize) -> (r: usize)
    requires
        limit * 3 <= usize::MAX,
    ensures
        r == wide_limit(limit as int),
{
    if limit * 3 < 10 {
        10
    } else {
        limit * 3
    }
}

/// What the conditions leave of the results at one of their stages: all of them where there
/// are no conditions.
pub open spec fn is_filtered(
    s: Seq<ItemView>,
    criteria: PrecisionFilterCriteria,
    r: Seq<ItemView>,
) -> bool {
    if no_conditions(criteria) {
        r == s
    } else {
        exists|stage: int| #[trigger]
            stage_wins(s, criteria, at_least_one(RELAXATION_MIN_RESULTS_DEFAULT), stage) && r == passing(
                s,
                stage,
                criteria,
            )
    }
}

/// The results without those that the reader has before them.
pub open spec fn unseen(s: Seq<ItemView>, visible: Seq<Seq<char>>) -> Seq<ItemView> {
    s.filter(|m: ItemView| !visible.contains(m.id))
}

/// The candidates of a search: what was found, ordered, filtered, without what is visible,
/// with its neighbours.
pub open spec fn is_selection(
    found: Seq<ItemView>,
    all: Seq<ItemView>,
    criteria: PrecisionFilterCriteria,
    visible: Seq<Seq<char>>,
    max_expansion: int,
    r: Seq<ItemView>,
) -> bool {
    exists|f: Seq<ItemView>| #[trigger]
        is_filtered(boosted(penalized(found)), criteria, f) && r == with_neighbours(
            unseen(f, visible),
            all,
            max_expansion,
        )
}

/// The candidates of a search.
pub fn select_candidates(
    found: &[MemoryItem],
    all: &[MemoryItem],
    criteria: &PrecisionFilterCriteria,
    visible_ids: &Vec<String>,
    max_expansion: usize,
) -> (out: Vec<MemoryItem>)
    ensures
        is_selection(
            item_views(found@),
            item_views(all@),
            *criteria,
            texts(visible_ids@),
            max_expansion as int,
            item_views(out@),
        ),
{
    let a = apply_observer_penalty(found);
    let b = apply_episode_boost(a.as_slice());
    let f = apply_precision_filter(b.as_slice(), criteria, RELAXATION_MIN_RESULTS_DEFAULT);
    let ghost fv = item_views(f@);
    assert(is_filtered(boosted(penalized(item_views(found@))), *criteria, fv));
    let u = exclude_visible_context(f, visible_ids);
    assert(item_views(u@) =~= unseen(fv, texts(visible_ids@)));
    assert(item_views(u@).len() == u@.len());
    expand_context(u, all, max_expansion)
}

/// The memories with the dates to which they refer, where that is asked for.
pub open spec fn is_dated(s: Seq<ItemView>, dated: bool, r: Seq<ItemView>) -> bool {
    if dated {
        r.len() == s.len() && forall|i: int|
            0 <= i < r.len() ==> is_anchored(s[i].content, (#[trigger] r[i]).content) && r[i] == (
            ItemView { content: r[i].content, ..s[i] })
    } else {
        r == s
    }
}

/// The candidates of a search, with the dates to which they refer where that is asked for.
pub fn prepare_candidates(
    found: &[MemoryItem],
    all: &[MemoryItem],
    criteria: &PrecisionFilterCriteria,
    visible_ids: &Vec<String>,
    max_expansion: usize,
    dated: bool,
) -> (out: Vec<MemoryItem>)
    ensures
        exists|s: Seq<ItemView>| #[trigger]
            is_selection(
                item_views(found@),
                item_views(all@),
                *criteria,
                texts(visible_ids@),
                max_expansion as int,
                s,
            ) && is_dated(s, dated, item_views(out@)),
{
    let s = select_candidates(found, all, criteria, visible_ids, max_expansion);
    let ghost sv = item_views(s@);
    if dated {
        let ghost raw = s@;
        let out = apply_time_anchor(s);
        proof {
            let r = item_views(out@);
            assert forall|i: int| 0 <= i < r.len() implies is_anchored(
                sv[i].content,
                (#[trigger] r[i]).content,
            ) && r[i] == (ItemView { content: r[i].content, ..sv[i] }) by {
                assert(r[i] == out@[i]@);
                assert(sv[i] == raw[i]@);
            }
            assert(is_dated(sv, dated, r));
        }
        out
    } else {
        assert(is_dated(sv, dated, sv));
        s
    }
}

/// The memories at the positions, those beyond the end left out.
pub open spec fn at_positions(s: Seq<ItemView>, positions: Seq<usize>) -> Seq<ItemView>
    decreases positions.len(),
{
    if positions.len() == 0 {
        Seq::<ItemView>::empty()
    } else {
        let rest = at_positions(s, positions.drop_last());
        if positions.last() < s.len() {
            rest.push(s[positions.last() as int])
        } else {
            rest
        }
    }
}

/// The candidates that a verifier let through; all of them where it was not asked.
pub fn keep_verified(items: Vec<MemoryItem>, verified: Option<Vec<usize>>) -> (out: Vec<MemoryItem>)
    ensures
        item_views(out@) == (match verified {
            Some(v) => at_positions(item_views(items@), v@),
            None => item_views(items@),
        }),
{
    match verified {
        None => items,
        Some(v) => {
            let ghost all = item_views(items@);
            let mut out: Vec<MemoryItem> = Vec::new();
            let mut i: usize = 0;
            assert(item_views(out@) =~= at_positions(all, v@.take(0)));
            while i < v.len()
                invariant
                    i <= v@.len(),
                    all == item_views(items@),
                    item_views(out@) == at_positions(all, v@.take(i as int)),
                decreases v@.len() - i,
            {
                proof {
                    assert(v@.take(i + 1).drop_last() =~= v@.take(i as int));
                    assert(v@.take(i + 1).last() == v@[i as int]);
                }
                let k: usize = v[i];
                if k < items.len() {
                    let ghost prev = item_views(out@);
                    out.push(items[k].clone());
                    assert(item_views(out@) =~= prev.push(all[k as int]));
                }
                i += 1;
            }
            assert(v@.take(i as int) =~= v@);
            out
        },
    }
}

/// How many candidates a reranker sees: at least one.
pub open spec fn head_size(n: int, top_k: int) -> int {
    let k = if top_k < 1 {
        1
    } else {
        top_k
    };
    if n < k {
        n
    } else {
        k
    }
}

/// The memory with the score that a reranker gave it.
pub open spec fn rescored(m: ItemView, score: i64, name: Seq<char>) -> ItemView {
    ItemView {
        metadata: m.metadata.insert("rerank_score"@, MetaView::Micros(score)).insert(
            "reranker"@,
            MetaView::Text(name),
        ),
        ..m
    }
}

/// The candidates that a reranker saw, with their scores; as many as there are scores.
pub open spec fn rescored_head(s: Seq<ItemView>, top_k: int, scores: Seq<i64>, name: Seq<char>) -> Seq<
    ItemView,
> {
    let h = head_size(s.len() as int, top_k);
    Seq::new(
        if h < scores.len() {
            h as nat
        } else {
            scores.len()
        },
        |i: int| rescored(s[i], scores[i], name),
    )
}

/// The scores of the first `n`.
pub open spec fn score_keys(scores: Seq<i64>, n: int) -> Seq<i128> {
    Seq::new(n as nat, |i: int| scores[i] as i128)
}

/// The candidates after a reranker: those that it saw by its scores, then the others.
pub open spec fn reranked(s: Seq<ItemView>, top_k: int, scores: Seq<i64>, name: Seq<char>) -> Seq<
    ItemView,
> {
    let h = rescored_head(s, top_k, scores, name);
    ranked(h, score_keys(scores, h.len() as int), h.len() as int) + s.skip(
        head_size(s.len() as int, top_k),
    )
}

/// How many candidates a reranker sees.
pub fn rerank_head(n: usize, top_k: usize) -> (r: usize)
    ensures
        r == head_size(n as int, top_k as int),
{
    let k: usize = if top_k < 1 {
        1
    } else {
        top_k
    };
    if n < k {
        n
    } else {
        k
    }
}

/// The candidates after a reranker gave its scores.
pub fn apply_rerank(items: &Vec<MemoryItem>, top_k: usize, scores: &Vec<i64>, name: &str) -> (out: Vec<
    MemoryItem,
>)
    ensures
        item_views(out@) == reranked(item_views(items@), top_k as int, scores@, name@),
{
    let ghost all = item_views(items@);
    let head: usize = rerank_head(items.len(), top_k);
    let n: usize = if head < scores.len() {
        head
    } else {
        scores.len()
    };
    let mut seen: Vec<MemoryItem> = Vec::new();
    let mut keys: Vec<i128> = Vec::new();
    let mut i: usize = 0;
    while i < n
        invariant
            i <= n,
            n <= items@.len(),
            n <= scores@.len(),
            all == item_views(items@),
            seen@.len() == i,
            keys@.len() == i,
            forall|k: int| 0 <= k < i ==> (#[trigger] seen@[k])@ == rescored(all[k], scores@[k], name@),
            forall|k: int| 0 <= k < i ==> #[trigger] keys@[k] == scores@[k] as i128,
        decreases n - i,
    {
        let mut m = items[i].clone();
        assert(all[i as int] == m@);
        m.metadata.insert("rerank_score", MetaValue::Micros(scores[i]));
        m.metadata.insert("reranker", MetaValue::Text(name.to_owned()));
        seen.push(m);
        keys.push(scores[i] as i128);
        i += 1;
    }
    assert(item_views(seen@) =~= rescored_head(all, top_k as int, scores@, name@));
    assert(keys@ =~= score_keys(scores@, n as int));
    let mut out = rank_items(seen.as_slice(), &keys, n);
    let ghost ranked_head = item_views(out@);
    let mut k: usize = head;
    assert(item_views(out@) =~= ranked_head + all.subrange(head as int, k as int));
    while k < items.len()
        invariant
            head <= k <= items@.len(),
            all == item_views(items@),
            item_views(out@) == ranked_head + all.subrange(head as int, k as int),
        decreases items@.len() - k,
    {
        let ghost prev = item_views(out@);
        out.push(items[k].clone());
        assert(item_views(out@) =~= prev.push(all[k as int]));
        assert(all.subrange(head as int, k + 1) =~= all.subrange(head as int, k as int).push(
            all[k as int],
        ));
        k += 1;
        assert(item_views(out@) =~= ranked_head + all.subrange(head as int, k as int));
    }
    assert(all.subrange(head as int, k as int) =~= all.skip(head as int));
    out
}

/// Is not archived, or a summary stands for it.
pub open spec fn is_searchable() -> spec_fn(ItemView) -> bool {
    |m: ItemView| searchable(m)
}

/// Is searchable and meets the filter.
pub open spec fn searchable_under(filter: MemoryRetrievalFilter) -> spec_fn(ItemView) -> bool {
    |m: ItemView| searchable(m) && meets(filter, m)
}

/// The first `limit` results.
pub open spec fn first_results(s: Seq<ItemView>, limit: int) -> Seq<ItemView> {
    if s.len() <= limit {
        s
    } else {
        s.take(limit)
    }
}

impl MemoryManager {
    /// The memories that a search looks at.
    pub fn search_entries(&self) -> (out: Vec<MemoryItem>)
        ensures
            item_views(out@) == self@.entries.filter(is_searchable()),
    {
        let test = |m: &MemoryItem| -> (r: bool)
            ensures
                r == searchable(m@),
            { !m.consolidated || is_summarized(m) };
        filter_items(self.entries.as_slice(), test, Ghost(is_searchable()))
    }

    /// The memories that a search under a filter looks at.
    pub fn filtered_entries(&self, filter: &MemoryRetrievalFilter) -> (out: Vec<MemoryItem>)
        ensures
            item_views(out@) == self@.entries.filter(searchable_under(*filter)),
    {
        let test = |m: &MemoryItem| -> (r: bool)
            ensures
                r == searchable_under(*filter)(m@),
            { (!m.consolidated || is_summarized(m)) && filter.matches(m) };
        filter_items(self.entries.as_slice(), test, Ghost(searchable_under(*filter)))
    }

    /// What a search gives: what is kept under its key as long as that is good; else what
    /// its strategy finds, observers further back, each content once, which is then kept.
    /// Without memories nothing is given or kept. The model and the dimension of the vectors
    /// are part of the key.
    pub fn search_memories(
        &self,
        cache: &mut SearchCache,
        query: &str,
        strategy: RetrievalStrategy,
        limit: usize,
        model: &str,
        dimension: usize,
        outside: &Outside,
        now: i64,
    ) -> (out: Vec<MemoryItem>)
        requires
            outside.wf(self@.entries.filter(is_searchable())),
        ensures
            ({
                let was = cache_views(old(cache).entries@);
                let key = search_key(query@, strategy, limit, model@, dimension);
                let live = self@.entries.filter(is_searchable());
                let fresh = distinct_contents(
                    penalized(strategy_search(strategy, live, query@, *outside, limit as int)),
                );
                match cached(was, key, now) {
                    Some(r) => item_views(out@) == r && cache_views(final(cache).entries@) == was,
                    None => if self@.entries.len() == 0 {
                        item_views(out@) == Seq::<ItemView>::empty() && cache_views(
                            final(cache).entries@,
                        ) == was
                    } else {
                        item_views(out@) == fresh && cache_views(final(cache).entries@)
                            == with_results(was, CacheView { key, time: now, results: fresh })
                    },
                }
            }),
    {
        let key = cache_key(query, strategy, limit, model, dimension);
        if let Some(r) = cache.get(key.as_str(), now) {
            return r;
        }
        if self.entries.len() == 0 {
            let none: Vec<MemoryItem> = Vec::new();
            assert(item_views(none@) =~= Seq::<ItemView>::empty());
            return none;
        }
        let live = self.search_entries();
        let found = create_strategy(&strategy).search(live.as_slice(), query, outside, limit);
        let p = apply_observer_penalty(found.as_slice());
        let out = dedup_by_content(p.as_slice());
        cache.put(key.as_str(), &out, now);
        out
    }

    /// What a search under a filter gives.
    pub fn search_memories_filtered(
        &self,
        query: &str,
        strategy: RetrievalStrategy,
        limit: usize,
        filter: &MemoryRetrievalFilter,
        outside: &Outside,
    ) -> (out: Vec<MemoryItem>)
        requires
            outside.wf(self@.entries.filter(searchable_under(*filter))),
        ensures
            item_views(out@) == ({
                let live = self@.entries.filter(searchable_under(*filter));
                if live.len() == 0 {
                    Seq::<ItemView>::empty()
                } else {
                    distinct_contents(
                        penalized(strategy_search(strategy, live, query@, *outside, limit as int)),
                    )
                }
            }),
    {
        let live = self.filtered_entries(filter);
        assert(item_views(live@).len() == live@.len());
        if live.len() == 0 {
            let none: Vec<MemoryItem> = Vec::new();
            assert(item_views(none@) =~= Seq::<ItemView>::empty());
            return none;
        }
        let found = create_strategy(&strategy).search(live.as_slice(), query, outside, limit);
        let p = apply_observer_penalty(found.as_slice());
        dedup_by_content(p.as_slice())
    }

    /// The candidates of a search with conditions among the memories that are not archived;
    /// none where there are no memories. A verifier, a reranker and
    /// [`MemoryManager::finish_search`] follow.
    pub fn search_memories_with_options(
        &self,
        query: &str,
        criteria: &PrecisionFilterCriteria,
        visible_ids: &Vec<String>,
        max_expansion: usize,
        dated: bool,
        outside: &Outside,
        limit: usize,
    ) -> (out: Vec<MemoryItem>)
        requires
            limit * 3 <= usize::MAX,
            outside.wf(self@.entries.filter(is_searchable())),
        ensures
            self@.entries.len() == 0 ==> item_views(out@) == Seq::<ItemView>::empty(),
            self@.entries.len() > 0 ==> exists|s: Seq<ItemView>| #[trigger]
                is_selection(
                    auto_search(
                        self@.entries.filter(is_searchable()),
                        query@,
                        outside.found,
                        outside.ages,
                        wide_limit(limit as int),
                    ),
                    self@.entries.filter(is_searchable()),
                    *criteria,
                    texts(visible_ids@),
                    max_expansion as int,
                    s,
                ) && is_dated(s, dated, item_views(out@)),
    {
        if self.entries.len() == 0 {
            let none: Vec<MemoryItem> = Vec::new();
            assert(item_views(none@) =~= Seq::<ItemView>::empty());
            return none;
        }
        let live = self.search_entries();
        let found = AutoStrategy.search(
            live.as_slice(),
            query,
            &outside.found,
            &outside.ages,
            candidate_limit(limit),
        );
        prepare_candidates(
            found.as_slice(),
            live.as_slice(),
            criteria,
            visible_ids,
            max_expansion,
            dated,
        )
    }

    /// What a search with conditions gives in the end: the first results, each of which is
    /// visited. `heats` are the heats that the memories of `ranked_items` then have.
    pub fn finish_search(
        &mut self,
        ranked_items: &[MemoryItem],
        limit: usize,
        heats: &Vec<i64>,
        now: i64,
    ) -> (out: Vec<MemoryItem>)
        requires
            heats@.len() == (if ranked_items@.len() <= limit {
                ranked_items@.len() as int
            } else {
                limit as int
            }),
        ensures
            item_views(out@) == first_results(item_views(ranked_items@), limit as int),
            final(self)@.entries == visits(
                old(self)@.entries,
                ids_of(item_views(out@)),
                heats@,
                now,
                out@.len(),
            ),
            final(self)@ == (ManagerView {
                entries: final(self)@.entries,
                dirty: old(self)@.dirty || any_known(
                    old(self)@.entries,
                    ids_of(item_views(out@)),
                    out@.len(),
                ),
                ..old(self)@
            }),
    {
        let out = first_items(ranked_items, limit);
        let mut ids: Vec<String> = Vec::new();
        let mut i: usize = 0;
        while i < out.len()
            invariant
                i <= out@.len(),
                ids@.len() == i,
                forall|k: int| 0 <= k < i ==> (#[trigger] ids@[k])@ == out@[k]@.id,
            decreases out@.len() - i,
        {
            ids.push(out[i].id.clone());
            i += 1;
        }
        assert(texts(ids@) =~= ids_of(item_views(out@)));
        assert(item_views(out@).len() == out@.len());
        self.bump_visits(&ids, heats, now);
        out
    }
}

} // verus!
