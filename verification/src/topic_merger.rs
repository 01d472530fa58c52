//! Merging memories of one topic: which may be merged, which belong together, and
//! what the merged memory is.

use crate::select::{copy_flagged, kept_is_filter};
use crate::text::{blank, copy_strings, decimal, is_blank, join, join_strings, push_decimal, same, texts};
use crate::types::{is_storable_time, item_views, seconds_value, seconds_view, ItemView, MemoryItem, MemoryType,
    MetaValue, MetaView, Metadata};
use vstd::array::*;
use vstd::prelude::*;
use vstd::string::*;

verus! {

/// Largest number of memories that become one.
pub const MAX_CLUSTER_SIZE: usize = 5;

/// What merging adds to the importance.
pub const MERGE_IMPORTANCE_BONUS: i64 = 100_000;

/// Largest importance of a merged memory.
pub const IMPORTANCE_CEILING: i64 = 950_000;

/// Smallest importance of a memory that is merged.
pub const MIN_IMPORTANCE_FOR_MERGE: i64 = 400_000;

/// Largest number of merges at a time.
pub const MAX_PAIRS_PER_RUN: usize = 8;

/// What was merged.
#[derive(Debug, Clone, Copy, PartialEq, Eq, Structural)]
pub struct MergeReport {
    pub clusters_merged: usize,
    pub memories_removed: usize,
    pub memories_created: usize,
}

impl Default for MergeReport {
    fn default() -> (r: MergeReport)
        ensures
            r == (MergeReport { clusters_merged: 0, memories_removed: 0, memories_created: 0 }),
    {
        MergeReport { clusters_merged: 0, memories_removed: 0, memories_created: 0 }
    }
}

/// One run of merges.
pub struct TopicMerger {
    report: MergeReport,
}

impl TopicMerger {
    /// What the run has merged.
    pub closed spec fn done(&self) -> MergeReport {
        self.report
    }

    /// A run that has merged nothing yet.
    pub fn new() -> (r: TopicMerger)
        ensures
            r.done() == (MergeReport {
                clusters_merged: 0,
                memories_removed: 0,
                memories_created: 0,
            }),
    {
        TopicMerger { report: MergeReport::default() }
    }

    /// Whether a cluster of that size is merged: it has two memories at least, and the
    /// run has room.
    pub fn takes(&self, size: usize) -> (r: bool)
        ensures
            r == (self.done().clusters_merged < MAX_PAIRS_PER_RUN && size >= 2),
    {
        self.report.clusters_merged < MAX_PAIRS_PER_RUN && size >= 2
    }

    /// Notes that a cluster of that size was merged.
    pub fn note_merged(&mut self, size: usize)
        requires
            old(self).done().clusters_merged < MAX_PAIRS_PER_RUN,
            old(self).done().memories_removed + size <= usize::MAX,
            old(self).done().memories_created < usize::MAX,
        ensures
            final(self).done() == (MergeReport {
                clusters_merged: (old(self).done().clusters_merged + 1) as usize,
                memories_removed: (old(self).done().memories_removed + size) as usize,
                memories_created: (old(self).done().memories_created + 1) as usize,
            }),
    {
        self.report.clusters_merged = self.report.clusters_merged + 1;
        self.report.memories_removed = self.report.memories_removed + size;
        self.report.memories_created = self.report.memories_created + 1;
    }

    pub fn report(&self) -> (r: MergeReport)
        ensures
            r == self.done(),
    {
        self.report
    }
}

// ---------------------------------------------------------------------------
// Candidates
// ---------------------------------------------------------------------------

/// Types of memories that are merged.
pub open spec fn mergeable_type(t: MemoryType) -> bool {
    match t {
        MemoryType::LongTerm => true,
        MemoryType::SessionSummary => true,
        MemoryType::Insight => true,
        MemoryType::User => true,
        MemoryType::Preference => true,
        MemoryType::Knowledge => true,
        MemoryType::ImportantEvent => true,
        _ => false,
    }
}

/// Names of the types of memories that are merged.
pub open spec fn mergeable_name(s: Seq<char>) -> bool {
    exists|t: MemoryType| mergeable_type(t) && #[trigger] t.name() == s
}

/// Whether a memory may be merged.
pub open spec fn is_mergeable(m: ItemView) -> bool {
    m.importance >= MIN_IMPORTANCE_FOR_MERGE && !m.protected && m.embedding is Some && !is_blank(
        m.content,
    ) && mergeable_name(m.memory_type)
}

/// Whether a memory may be merged.
pub fn may_merge(m: &MemoryItem) -> (r: bool)
    ensures
        r == is_mergeable(m@),
{
    let named = match MemoryType::from_str(m.memory_type.as_str()) {
        Some(t) => {
            proof {
                if mergeable_name(m@.memory_type) {
                    let u = choose|u: MemoryType| mergeable_type(u) && #[trigger] u.name()
                        == m@.memory_type;
                    crate::types::memory_type_names_distinct(t, u);
                }
            }
            match t {
                MemoryType::LongTerm => true,
                MemoryType::SessionSummary => true,
                MemoryType::Insight => true,
                MemoryType::User => true,
                MemoryType::Preference => true,
                MemoryType::Knowledge => true,
                MemoryType::ImportantEvent => true,
                _ => false,
            }
        },
        None => false,
    };
    m.importance >= MIN_IMPORTANCE_FOR_MERGE && !m.protected && m.embedding.is_some() && !blank(
        m.content.as_str(),
    ) && named
}

/// The memories that may be merged.
pub fn collect_candidates(all: &[MemoryItem]) -> (out: Vec<MemoryItem>)
    ensures
        item_views(out@) == item_views(all@).filter(|m: ItemView| is_mergeable(m)),
{
    let ghost views = item_views(all@);
    let mut flags: Vec<bool> = Vec::new();
    let mut i: usize = 0;
    while i < all.len()
        invariant
            i <= all@.len(),
            views == item_views(all@),
            flags@.len() == i,
            forall|k: int| 0 <= k < i ==> #[trigger] flags@[k] == is_mergeable(views[k]),
        decreases all@.len() - i,
    {
        assert(views[i as int] == all@[i as int]@);
        flags.push(may_merge(&all[i]));
        i += 1;
    }
    proof {
        kept_is_filter(views, flags@, |m: ItemView| is_mergeable(m));
    }
    copy_flagged(all, &flags)
}

// ---------------------------------------------------------------------------
// Clusters
// ---------------------------------------------------------------------------

/// Whether the memory has an embedding to compare.
pub open spec fn comparable(m: ItemView) -> bool {
    match m.embedding {
        Some(e) => e.len() > 0,
        None => false,
    }
}

/// The flags and the cluster of `i` after the first `n` memories were looked at:
/// a free memory of the same type that is similar joins while there is room.
pub open spec fn absorbed(
    items: Seq<ItemView>,
    similar: Seq<Seq<bool>>,
    i: int,
    start: (Seq<bool>, Seq<int>),
    n: nat,
) -> (Seq<bool>, Seq<int>)
    decreases n,
{
    if n == 0 {
        start
    } else {
        let p = absorbed(items, similar, i, start, (n - 1) as nat);
        let k = n - 1;
        if k != i && !p.0[k] && p.1.len() < MAX_CLUSTER_SIZE && items[k].memory_type
            == items[i].memory_type && comparable(items[k]) && similar[i][k] {
            (p.0.update(k, true), p.1.push(k))
        } else {
            p
        }
    }
}

/// The clusters of the first `n` memories, and the flags of the memories that are
/// taken.
pub open spec fn clusters_upto(items: Seq<ItemView>, similar: Seq<Seq<bool>>, n: nat) -> (
    Seq<Seq<int>>,
    Seq<bool>,
)
    decreases n,
{
    if n == 0 {
        (Seq::<Seq<int>>::empty(), Seq::new(items.len(), |k: int| false))
    } else {
        let p = clusters_upto(items, similar, (n - 1) as nat);
        let i = n - 1;
        if p.1[i] || !comparable(items[i]) {
            p
        } else {
            let g = absorbed(items, similar, i, (p.1.update(i, true), seq![i]), items.len());
            (
                if g.1.len() >= 2 {
                    p.0.push(g.1)
                } else {
                    p.0
                },
                g.0,
            )
        }
    }
}

/// The positions of a list of clusters.
pub open spec fn cluster_views(v: Seq<Vec<usize>>) -> Seq<Seq<int>> {
    v.map_values(|c: Vec<usize>| crate::rank::positions(c@))
}

proof fn lemma_absorbed(
    items: Seq<ItemView>,
    similar: Seq<Seq<bool>>,
    i: int,
    start: (Seq<bool>, Seq<int>),
    n: nat,
)
    requires
        n <= items.len(),
        0 <= i < items.len(),
        start.0.len() == items.len(),
        start.1 == seq![i],
        start.0[i],
    ensures
        ({
            let g = absorbed(items, similar, i, start, n);
            &&& g.0.len() == items.len()
            &&& 1 <= g.1.len() <= MAX_CLUSTER_SIZE
            &&& g.1[0] == i
            &&& forall|k: int| 0 <= k < items.len() && start.0[k] ==> #[trigger] g.0[k]
            &&& forall|a: int| 0 <= a < g.1.len() ==> 0 <= #[trigger] g.1[a] < items.len() && g.0[g.1[a]]
            &&& forall|a: int|
                1 <= a < g.1.len() ==> !start.0[#[trigger] g.1[a]] && similar[i][g.1[a]]
                    && items[g.1[a]].memory_type == items[i].memory_type
            &&& forall|a: int, b: int|
                0 <= a < b < g.1.len() ==> #[trigger] g.1[a] != #[trigger] g.1[b]
        }),
    decreases n,
{
    if n > 0 {
        lemma_absorbed(items, similar, i, start, (n - 1) as nat);
        let p = absorbed(items, similar, i, start, (n - 1) as nat);
        let g = absorbed(items, similar, i, start, n);
        let k = n - 1;
        if g.1 != p.1 {
            assert(g.1 == p.1.push(k));
            assert forall|a: int| 0 <= a < g.1.len() implies 0 <= #[trigger] g.1[a] < items.len()
                && g.0[g.1[a]] by {
                if a < p.1.len() {
                    assert(g.1[a] == p.1[a]);
                }
            }
            assert forall|a: int| 1 <= a < g.1.len() implies !start.0[#[trigger] g.1[a]]
                && similar[i][g.1[a]] && items[g.1[a]].memory_type == items[i].memory_type by {
                if a < p.1.len() {
                    assert(g.1[a] == p.1[a]);
                }
            }
            assert forall|a: int, b: int| 0 <= a < b < g.1.len() implies #[trigger] g.1[a]
                != #[trigger] g.1[b] by {
                assert(g.1[a] == p.1[a]);
                if b < p.1.len() {
                    assert(g.1[b] == p.1[b]);
                } else {
                    assert(p.0[p.1[a]]);
                }
            }
        }
    }
}

/// A cluster holds two to five memories, all of one type and similar to its first;
/// no memory belongs to two clusters or twice to one.
pub proof fn clusters_are_sound(items: Seq<ItemView>, similar: Seq<Seq<bool>>, n: nat)
    requires
        n <= items.len(),
    ensures
        ({
            let g = clusters_upto(items, similar, n);
            &&& g.1.len() == items.len()
            &&& forall|c: int|
                0 <= c < g.0.len() ==> 2 <= (#[trigger] g.0[c]).len() <= MAX_CLUSTER_SIZE
            &&& forall|c: int, a: int|
                0 <= c < g.0.len() && 0 <= a < g.0[c].len() ==> 0 <= #[trigger] g.0[c][a]
                    < items.len() && g.1[g.0[c][a]] && items[g.0[c][a]].memory_type
                    == items[g.0[c][0]].memory_type && (a > 0 ==> similar[g.0[c][0]][g.0[c][a]])
            &&& forall|c: int, a: int, d: int, b: int|
                0 <= c < g.0.len() && 0 <= d < g.0.len() && 0 <= a < g.0[c].len() && 0 <= b
                    < g.0[d].len() && (c != d || a != b) ==> #[trigger] g.0[c][a]
                    != #[trigger] g.0[d][b]
        }),
    decreases n,
{
    if n > 0 {
        clusters_are_sound(items, similar, (n - 1) as nat);
        let p = clusters_upto(items, similar, (n - 1) as nat);
        let g = clusters_upto(items, similar, n);
        let i = n - 1;
        if !(p.1[i] || !comparable(items[i])) {
            let start = (p.1.update(i, true), seq![i]);
            lemma_absorbed(items, similar, i, start, items.len());
            let h = absorbed(items, similar, i, start, items.len());
            assert forall|k: int| 0 <= k < items.len() && p.1[k] implies #[trigger] g.1[k] by {
                assert(start.0[k]);
            }
            assert forall|c: int, a: int|
                0 <= c < g.0.len() && 0 <= a < g.0[c].len() implies 0 <= #[trigger] g.0[c][a]
                < items.len() && g.1[g.0[c][a]] && items[g.0[c][a]].memory_type
                == items[g.0[c][0]].memory_type && (a > 0 ==> similar[g.0[c][0]][g.0[c][a]]) by {
                if c < p.0.len() {
                    assert(g.0[c] == p.0[c]);
                    assert(p.1[p.0[c][a]]);
                } else {
                    assert(g.0[c] == h.1);
                    assert(h.0[h.1[a]]);
                }
            }
            assert forall|c: int, a: int, d: int, b: int|
                0 <= c < g.0.len() && 0 <= d < g.0.len() && 0 <= a < g.0[c].len() && 0 <= b
                    < g.0[d].len() && (c != d || a != b) implies #[trigger] g.0[c][a]
                != #[trigger] g.0[d][b] by {
                if c < p.0.len() && d < p.0.len() {
                    assert(g.0[c] == p.0[c] && g.0[d] == p.0[d]);
                    assert(p.0[c][a] != p.0[d][b]);
                } else if c < p.0.len() {
                    assert(g.0[c] == p.0[c] && g.0[d] == h.1);
                    assert(p.1[p.0[c][a]]);
                    if b > 0 {
                        assert(!start.0[h.1[b]]);
                    }
                } else if d < p.0.len() {
                    assert(g.0[d] == p.0[d] && g.0[c] == h.1);
                    assert(p.1[p.0[d][b]]);
                    if a > 0 {
                        assert(!start.0[h.1[a]]);
                    }
                } else {
                    assert(g.0[c] == h.1 && g.0[d] == h.1);
                    if a < b {
                        assert(h.1[a] != h.1[b]);
                    } else {
                        assert(h.1[b] != h.1[a]);
                    }
                }
            }
        }
    }
}

fn can_compare(m: &MemoryItem) -> (r: bool)
    ensures
        r == comparable(m@),
{
    match &m.embedding {
        Some(e) => e.len() > 0,
        None => false,
    }
}

/// The memories that belong together, by position. `similar[i][j]` says whether the
/// embeddings of the two memories are close enough.
pub fn cluster_by_similarity(items: &[MemoryItem], similar: &Vec<Vec<bool>>) -> (out: Vec<Vec<usize>>)
    requires
        similar@.len() == items@.len(),
        forall|i: int| 0 <= i < items@.len() ==> (#[trigger] similar@[i])@.len() == items@.len(),
    ensures
        cluster_views(out@) == clusters_upto(
            item_views(items@),
            similar@.map_values(|r: Vec<bool>| r@),
            items@.len(),
        ).0,
{
    let ghost views = item_views(items@);
    let ghost sim = similar@.map_values(|r: Vec<bool>| r@);
    let n: usize = items.len();
    let mut out: Vec<Vec<usize>> = Vec::new();
    let mut taken: Vec<bool> = Vec::new();
    let mut k: usize = 0;
    while k < n
        invariant
            k <= n,
            taken@.len() == k,
            forall|j: int| 0 <= j < k ==> #[trigger] taken@[j] == false,
        decreases n - k,
    {
        taken.push(false);
        k += 1;
    }
    assert(taken@ =~= clusters_upto(views, sim, 0).1);
    assert(cluster_views(out@) =~= clusters_upto(views, sim, 0).0);
    let mut i: usize = 0;
    while i < n
        invariant
            i <= n,
            n == items@.len(),
            views == item_views(items@),
            sim == similar@.map_values(|r: Vec<bool>| r@),
            similar@.len() == items@.len(),
            forall|a: int| 0 <= a < items@.len() ==> (#[trigger] similar@[a])@.len() == items@.len(),
            taken@.len() == n,
            taken@ == clusters_upto(views, sim, i as nat).1,
            cluster_views(out@) == clusters_upto(views, sim, i as nat).0,
        decreases n - i,
    {
        assert(views[i as int] == items@[i as int]@);
        if !taken[i] && can_compare(&items[i]) {
            let ghost start = (taken@.update(i as int, true), seq![i as int]);
            let mut cluster: Vec<usize> = Vec::new();
            cluster.push(i);
            taken.set(i, true);
            assert(crate::rank::positions(cluster@) =~= seq![i as int]);
            let mut j: usize = 0;
            while j < n
                invariant
                    j <= n,
                    i < n,
                    n == items@.len(),
                    views == item_views(items@),
                    sim == similar@.map_values(|r: Vec<bool>| r@),
                    similar@.len() == items@.len(),
                    forall|a: int|
                        0 <= a < items@.len() ==> (#[trigger] similar@[a])@.len() == items@.len(),
                    taken@.len() == n,
                    taken@ == absorbed(views, sim, i as int, start, j as nat).0,
                    crate::rank::positions(cluster@) == absorbed(
                        views,
                        sim,
                        i as int,
                        start,
                        j as nat,
                    ).1,
                decreases n - j,
            {
                assert(views[j as int] == items@[j as int]@);
                assert(views[i as int] == items@[i as int]@);
                assert(sim[i as int] == similar@[i as int]@);
                assert(crate::rank::positions(cluster@).len() == cluster@.len());
                if j != i && !taken[j] && cluster.len() < MAX_CLUSTER_SIZE && same(
                    items[j].memory_type.as_str(),
                    items[i].memory_type.as_str(),
                ) && can_compare(&items[j]) && similar[i][j] {
                    let ghost prev = crate::rank::positions(cluster@);
                    cluster.push(j);
                    taken.set(j, true);
                    assert(crate::rank::positions(cluster@) =~= prev.push(j as int));
                }
                j += 1;
            }
            assert(crate::rank::positions(cluster@).len() == cluster@.len());
            if cluster.len() >= 2 {
                let ghost prev = cluster_views(out@);
                let ghost c = crate::rank::positions(cluster@);
                out.push(cluster);
                assert(cluster_views(out@) =~= prev.push(c));
            }
        }
        i += 1;
    }
    out
}

// ---------------------------------------------------------------------------
// The merged memory
// ---------------------------------------------------------------------------

/// The position of the most important memory, the last of equals.
pub open spec fn primary_of(cluster: Seq<ItemView>) -> int
    decreases cluster.len(),
{
    if cluster.len() <= 1 {
        0
    } else {
        let p = primary_of(cluster.drop_last());
        if cluster.last().importance >= cluster[p].importance {
            cluster.len() - 1
        } else {
            p
        }
    }
}

/// The earliest time.
pub open spec fn earliest(cluster: Seq<ItemView>) -> i64
    decreases cluster.len(),
{
    if cluster.len() <= 1 {
        if cluster.len() == 1 {
            cluster[0].timestamp
        } else {
            0
        }
    } else {
        let t = earliest(cluster.drop_last());
        if cluster.last().timestamp < t {
            cluster.last().timestamp
        } else {
            t
        }
    }
}

/// The importance of the merged memory.
pub open spec fn merged_importance(primary: i64) -> i64 {
    if primary + MERGE_IMPORTANCE_BONUS < IMPORTANCE_CEILING {
        (primary + MERGE_IMPORTANCE_BONUS) as i64
    } else {
        IMPORTANCE_CEILING
    }
}

/// The identifiers of the memories.
pub open spec fn ids_of(cluster: Seq<ItemView>) -> Seq<Seq<char>> {
    cluster.map_values(|m: ItemView| m.id)
}

/// The memory that takes the place of a cluster.
#[derive(Debug)]
pub struct MergePlan {
    pub content: String,
    pub memory_type: MemoryType,
    pub importance: i64,
    pub tags: Vec<String>,
    pub metadata: Metadata,
    /// The memories that it takes the place of.
    pub original_ids: Vec<String>,
    pub timestamp: i64,
}

/// The plan for a cluster: the content comes from the model, type, tags and
/// metadata from the most important memory.
pub open spec fn is_plan_for(plan: MergePlan, cluster: Seq<ItemView>, content: Seq<char>, now: i64) -> bool {
    let primary = cluster[primary_of(cluster)];
    &&& plan.content@ == content
    &&& (plan.memory_type.name() == primary.memory_type || (plan.memory_type == MemoryType::LongTerm
        && forall|t: MemoryType| #[trigger] t.name() != primary.memory_type))
    &&& plan.importance == merged_importance(primary.importance)
    &&& texts(plan.tags@) == primary.tags
    &&& plan.metadata@ == primary.metadata.insert(
        "merged_from"@,
        MetaView::List(ids_of(cluster)),
    ).insert("merged_at"@, seconds_view(now)).insert(
        "cluster_size"@,
        MetaView::Int(cluster.len() as i64),
    )
    &&& texts(plan.original_ids@) == ids_of(cluster)
    &&& plan.timestamp == earliest(cluster)
}

fn copy_ids(cluster: &[MemoryItem]) -> (out: Vec<String>)
    ensures
        texts(out@) == ids_of(item_views(cluster@)),
{
    let ghost want = ids_of(item_views(cluster@));
    let mut out: Vec<String> = Vec::new();
    let mut i: usize = 0;
    assert(texts(out@) =~= want.take(0));
    while i < cluster.len()
        invariant
            i <= cluster@.len(),
            want == ids_of(item_views(cluster@)),
            texts(out@) == want.take(i as int),
        decreases cluster@.len() - i,
    {
        let ghost prev = texts(out@);
        out.push(cluster[i].id.clone());
        assert(item_views(cluster@)[i as int] == cluster@[i as int]@);
        assert(texts(out@) =~= prev.push(want[i as int]));
        i += 1;
        assert(want.take(i as int) =~= want.take(i - 1).push(want[i - 1]));
    }
    assert(want.take(i as int) =~= want);
    out
}

fn find_primary(cluster: &[MemoryItem]) -> (r: usize)
    requires
        cluster@.len() > 0,
    ensures
        r == primary_of(item_views(cluster@)),
        r < cluster@.len(),
{
    let ghost all = item_views(cluster@);
    let mut best: usize = 0;
    let mut i: usize = 1;
    assert(primary_of(all.take(1)) == 0);
    while i < cluster.len()
        invariant
            1 <= i <= cluster@.len(),
            all == item_views(cluster@),
            best < i,
            best == primary_of(all.take(i as int)),
        decreases cluster@.len() - i,
    {
        proof {
            assert(all.take(i + 1).drop_last() =~= all.take(i as int));
            assert(all.take(i + 1).last() == cluster@[i as int]@);
            assert(all.take(i as int)[best as int] == cluster@[best as int]@);
            assert(all.take(i + 1)[best as int] == cluster@[best as int]@);
        }
        if cluster[i].importance >= cluster[best].importance {
            best = i;
        }
        i += 1;
    }
    assert(all.take(i as int) =~= all);
    best
}

fn find_earliest(cluster: &[MemoryItem]) -> (r: i64)
    requires
        cluster@.len() > 0,
    ensures
        r == earliest(item_views(cluster@)),
{
    let ghost all = item_views(cluster@);
    let mut t: i64 = cluster[0].timestamp;
    let mut i: usize = 1;
    assert(all.take(1)[0] == cluster@[0]@);
    while i < cluster.len()
        invariant
            1 <= i <= cluster@.len(),
            all == item_views(cluster@),
            t == earliest(all.take(i as int)),
        decreases cluster@.len() - i,
    {
        proof {
            assert(all.take(i + 1).drop_last() =~= all.take(i as int));
            assert(all.take(i + 1).last() == cluster@[i as int]@);
        }
        if cluster[i].timestamp < t {
            t = cluster[i].timestamp;
        }
        i += 1;
    }
    assert(all.take(i as int) =~= all);
    t
}

/// The memory that takes the place of a cluster, given the content that the model
/// wrote; none where the cluster is too small or the content blank.
pub fn plan_merge(cluster: &[MemoryItem], merged_content: &str, now: i64) -> (r: Option<MergePlan>)
    requires
        is_storable_time(now),
        cluster@.len() <= i64::MAX,
    ensures
        match r {
            Some(plan) => cluster@.len() >= 2 && !is_blank(merged_content@) && is_plan_for(
                plan,
                item_views(cluster@),
                merged_content@,
                now,
            ),
            None => cluster@.len() < 2 || is_blank(merged_content@),
        },
{
    if cluster.len() < 2 || blank(merged_content) {
        return None;
    }
    let at: usize = find_primary(cluster);
    let primary = &cluster[at];
    assert(item_views(cluster@)[at as int] == primary@);
    let original_ids = copy_ids(cluster);
    let mut metadata = primary.metadata.clone();
    metadata.insert("merged_from", MetaValue::List(copy_strings(&original_ids)));
    metadata.insert("merged_at", seconds_value(now));
    metadata.insert("cluster_size", MetaValue::Int(cluster.len() as i64));
    let memory_type = match MemoryType::from_str(primary.memory_type.as_str()) {
        Some(t) => t,
        None => MemoryType::LongTerm,
    };
    let raised: i128 = primary.importance as i128 + MERGE_IMPORTANCE_BONUS as i128;
    let importance: i64 = if raised < IMPORTANCE_CEILING as i128 {
        raised as i64
    } else {
        IMPORTANCE_CEILING
    };
    Some(
        MergePlan {
            content: merged_content.to_owned(),
            memory_type,
            importance,
            tags: copy_strings(&primary.tags),
            metadata,
            original_ids,
            timestamp: find_earliest(cluster),
        },
    )
}

/// The lines of a cluster for the model, numbered from one.
pub open spec fn numbered_lines(cluster: Seq<ItemView>) -> Seq<Seq<char>> {
    Seq::new(
        cluster.len(),
        |i: int| "["@ + decimal((i + 1) as nat) + "] "@ + cluster[i].content,
    )
}

/// The question to the model.
pub fn merge_prompt(cluster: &[MemoryItem]) -> (out: String)
    ensures
        out@ == "待合并记忆：\n"@ + join(numbered_lines(item_views(cluster@)), "\n"@),
{
    let ghost want = numbered_lines(item_views(cluster@));
    let mut parts: Vec<String> = Vec::new();
    let mut i: usize = 0;
    assert(texts(parts@) =~= want.take(0));
    while i < cluster.len()
        invariant
            i <= cluster@.len(),
            want == numbered_lines(item_views(cluster@)),
            texts(parts@) == want.take(i as int),
        decreases cluster@.len() - i,
    {
        let mut p: String = "[".to_owned();
        push_decimal(&mut p, i as u64 + 1);
        p.append("] ");
        p.append(cluster[i].content.as_str());
        assert(item_views(cluster@)[i as int] == cluster@[i as int]@);
        assert(p@ == want[i as int]);
        let ghost prev = texts(parts@);
        parts.push(p);
        assert(texts(parts@) =~= prev.push(want[i as int]));
        i += 1;
        assert(want.take(i as int) =~= want.take(i - 1).push(want[i - 1]));
    }
    assert(want.take(i as int) =~= want);
    let joined = join_strings(&parts, "\n");
    let mut out: String = "待合并记忆：\n".to_owned();
    out.append(joined.as_str());
    out
}

} // verus!
