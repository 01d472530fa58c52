//! The memories of one character and what is done to them. Reading and writing files, the
//! vector index and the models stand outside: what they found comes in as an argument, and
//! what they are to do goes out as a result.

use crate::conflict::{candidate_views, conflict_step, conflict_views, find_similar_persistent_memories,
    most_similar, next_step, queue_conflict, queued, retried, retry, settle, settled, similar_views,
    verdict_of, ArbitrationOutcome, Candidate, ConflictStep, ConflictView, PendingConflict, Verdict,
    MAX_PENDING, MAX_PER_TICK};
use crate::recycle_bin::{first_for, fresh, pushed, recycled, RecycleBin, RecycleEntry, RecycleView};
use crate::select::filter_items;
use crate::store::{any_hook_open, archived, by_ids, count_of, count_real, counts_text, describe_counts,
    edited, graph_visible, has_open_hook, has_open_of_type, heaviest, holds_id, hook_item,
    is_graph_visible_memory, is_live, is_live_tagged, latest, live_from, live_with_tag, mark_summarized_item,
    patched, put_item, real_count, select_by_ids, summarized, take_by_id, take_heaviest, take_latest,
    visible_within, visit, visited, with_hook, without_id};
use crate::strategy::{last_with_id, position_by_id};
use crate::text::{copy_option, opt_text, same, texts, trim, trimmed};
use crate::types::{hook_views, item_views, Granularity, ItemView, MemoryItem, MemoryStoreData, MemoryType,
    Metadata, OpenHook};
use vstd::prelude::*;
use vstd::string::*;

verus! {

/// How long a change may wait before it is saved.
pub const SAVE_THROTTLE_MILLIS: i64 = 5_000;

/// How many topics are kept for later.
pub const MAX_TOPIC_HINTS: usize = 20;

/// How long a topic is of interest.
pub const TOPIC_HINT_MILLIS: i64 = 86_400_000;

/// Something that was searched for in a conversation.
#[derive(Debug)]
pub struct TopicHint {
    pub query: String,
    pub timestamp: i64,
}

impl View for TopicHint {
    type V = (Seq<char>, i64);

    open spec fn view(&self) -> (Seq<char>, i64) {
        (self.query@, self.timestamp)
    }
}

/// What the hints of a list are.
pub open spec fn hint_views(v: Seq<TopicHint>) -> Seq<(Seq<char>, i64)> {
    v.map_values(|h: TopicHint| h@)
}

/// The memories of one character.
pub struct MemoryManager {
    pub entries: Vec<MemoryItem>,
    pub recycle_bin: RecycleBin,
    pub topic_hints: Vec<TopicHint>,
    pub pending_conflicts: Vec<PendingConflict>,
    pub char_id: String,
    pub session_id: Option<String>,
    /// How many turns are kept in full.
    pub turn_capacity: usize,
    /// Whether something is not saved yet.
    pub dirty: bool,
    pub last_save_at: Option<i64>,
}

/// What a manager is.
pub struct ManagerView {
    pub entries: Seq<ItemView>,
    pub bin: Seq<RecycleView>,
    /// Whether the bin is to be saved.
    pub bin_changed: bool,
    pub hints: Seq<(Seq<char>, i64)>,
    pub conflicts: Seq<ConflictView>,
    pub char_id: Seq<char>,
    pub session_id: Option<Seq<char>>,
    pub turns: usize,
    pub dirty: bool,
    pub last_save_at: Option<i64>,
}

impl View for MemoryManager {
    type V = ManagerView;

    open spec fn view(&self) -> ManagerView {
        ManagerView {
            entries: item_views(self.entries@),
            bin: self.recycle_bin@,
            bin_changed: self.recycle_bin.changed(),
            hints: hint_views(self.topic_hints@),
            conflicts: conflict_views(self.pending_conflicts@),
            char_id: self.char_id@,
            session_id: opt_text(self.session_id),
            turns: self.turn_capacity,
            dirty: self.dirty,
            last_save_at: self.last_save_at,
        }
    }
}

// ---------------------------------------------------------------------------
// Topics
// ---------------------------------------------------------------------------

/// The position of the first hint for that query, or the end.
pub open spec fn first_hint(h: Seq<(Seq<char>, i64)>, q: Seq<char>) -> int
    decreases h.len(),
{
    if h.len() == 0 || h[0].0 == q {
        0
    } else {
        1 + first_hint(h.skip(1), q)
    }
}

proof fn lemma_first_hint(h: Seq<(Seq<char>, i64)>, q: Seq<char>)
    ensures
        0 <= first_hint(h, q) <= h.len(),
        forall|j: int| 0 <= j < first_hint(h, q) ==> (#[trigger] h[j]).0 != q,
        first_hint(h, q) < h.len() ==> h[first_hint(h, q)].0 == q,
    decreases h.len(),
{
    if h.len() > 0 && h[0].0 != q {
        lemma_first_hint(h.skip(1), q);
        let i = first_hint(h, q);
        assert forall|j: int| 0 <= j < i implies (#[trigger] h[j]).0 != q by {
            if j > 0 {
                assert(h.skip(1)[j - 1] == h[j]);
            }
        }
        if i < h.len() {
            assert(h.skip(1)[i - 1] == h[i]);
        }
    }
}

/// The latest hints.
pub open spec fn last_hints(h: Seq<(Seq<char>, i64)>) -> Seq<(Seq<char>, i64)> {
    if h.len() > MAX_TOPIC_HINTS {
        h.skip(h.len() - MAX_TOPIC_HINTS)
    } else {
        h
    }
}

/// The hints after something was searched for at `now`. A hint for it is made new; else
/// one is added, and the oldest go where there are too many.
pub open spec fn hinted(h: Seq<(Seq<char>, i64)>, query: Seq<char>, now: i64) -> Seq<(Seq<char>, i64)> {
    let q = trim(query);
    let i = first_hint(h, q);
    if q.len() == 0 {
        h
    } else if i < h.len() {
        last_hints(h.update(i, (q, now)))
    } else {
        last_hints(h.push((q, now)))
    }
}

/// The queries of the hints that are still of interest at `now`.
pub open spec fn recent_queries(h: Seq<(Seq<char>, i64)>, now: i64) -> Seq<Seq<char>>
    decreases h.len(),
{
    if h.len() == 0 {
        Seq::<Seq<char>>::empty()
    } else {
        let rest = recent_queries(h.drop_last(), now);
        if h.last().1 >= now - TOPIC_HINT_MILLIS {
            rest.push(h.last().0)
        } else {
            rest
        }
    }
}

/// There are never more hints than are kept, and the query searched for last is among
/// them.
pub proof fn hints_stay_bounded(h: Seq<(Seq<char>, i64)>, query: Seq<char>, now: i64)
    requires
        h.len() <= MAX_TOPIC_HINTS,
    ensures
        hinted(h, query, now).len() <= MAX_TOPIC_HINTS,
        trim(query).len() > 0 ==> exists|i: int|
            0 <= i < hinted(h, query, now).len() && #[trigger] hinted(h, query, now)[i] == (
                trim(query),
                now,
            ),
{
    let q = trim(query);
    let i = first_hint(h, q);
    lemma_first_hint(h, q);
    let r = hinted(h, query, now);
    if q.len() > 0 {
        if i < h.len() {
            assert(r[i] == (q, now));
        } else {
            assert(r[r.len() - 1] == (q, now));
        }
    }
}

// ---------------------------------------------------------------------------
// Conflicts
// ---------------------------------------------------------------------------

/// The work on waiting conflicts: the memories, how many were settled, and those that wait
/// for another try.
pub struct Tally {
    pub entries: Seq<ItemView>,
    pub processed: nat,
    pub waiting: Seq<ConflictView>,
}

/// The conflicts that wait, and one more where there is one.
pub open spec fn with_waiting(w: Seq<ConflictView>, c: Option<ConflictView>) -> Seq<ConflictView> {
    match c {
        Some(x) => w.push(x),
        None => w,
    }
}

/// The work after one more conflict.
pub open spec fn tallied(t: Tally, c: ConflictView, v: Verdict, now: i64) -> Tally {
    match conflict_step(t.entries, c) {
        ConflictStep::Settled => Tally { processed: t.processed + 1, ..t },
        ConflictStep::Wait => Tally { waiting: with_waiting(t.waiting, retried(c)), ..t },
        ConflictStep::Ask => if v is Failed {
            Tally { waiting: with_waiting(t.waiting, retried(c)), ..t }
        } else {
            Tally {
                entries: settled(t.entries, c, v, now),
                processed: t.processed + 1,
                ..t
            }
        },
    }
}

/// The work after the first `n` conflicts of a batch.
pub open spec fn tally(
    s: Seq<ItemView>,
    batch: Seq<ConflictView>,
    verdicts: Seq<Verdict>,
    now: i64,
    n: nat,
) -> Tally
    decreases n,
{
    if n == 0 {
        Tally { entries: s, processed: 0, waiting: Seq::empty() }
    } else {
        tallied(tally(s, batch, verdicts, now, (n - 1) as nat), batch[n - 1], verdicts[n - 1], now)
    }
}

/// The queue with those that wait, as far as there is room.
pub open spec fn requeued(q: Seq<ConflictView>, waiting: Seq<ConflictView>) -> Seq<ConflictView>
    decreases waiting.len(),
{
    if waiting.len() == 0 {
        q
    } else {
        queued(requeued(q, waiting.drop_last()), waiting.last())
    }
}

/// How many conflicts are worked on at once.
pub open spec fn batch_size(n: nat) -> nat {
    if n < MAX_PER_TICK {
        n
    } else {
        MAX_PER_TICK as nat
    }
}

/// The answers of the arbiter, over views.
pub open spec fn verdicts(v: Seq<Option<ArbitrationOutcome>>) -> Seq<Verdict> {
    v.map_values(|a: Option<ArbitrationOutcome>| verdict_of(a))
}

/// The manager after the first conflicts were worked on.
pub open spec fn conflicts_processed(m: ManagerView, answers: Seq<Verdict>, now: i64) -> ManagerView {
    let k = batch_size(m.conflicts.len());
    let t = tally(m.entries, m.conflicts.take(k as int), answers, now, k);
    ManagerView {
        entries: t.entries,
        conflicts: requeued(m.conflicts.skip(k as int), t.waiting),
        dirty: true,
        ..m
    }
}

/// Working on conflicts never makes the queue longer than it may be.
pub proof fn conflicts_stay_bounded(q: Seq<ConflictView>, waiting: Seq<ConflictView>)
    requires
        q.len() <= MAX_PENDING,
    ensures
        requeued(q, waiting).len() <= MAX_PENDING,
    decreases waiting.len(),
{
    if waiting.len() > 0 {
        conflicts_stay_bounded(q, waiting.drop_last());
    }
}

// ---------------------------------------------------------------------------
// Several memories at once
// ---------------------------------------------------------------------------

/// The memories after the first `n` were visited.
pub open spec fn visits(
    s: Seq<ItemView>,
    ids: Seq<Seq<char>>,
    heats: Seq<i64>,
    now: i64,
    n: nat,
) -> Seq<ItemView>
    decreases n,
{
    if n == 0 {
        s
    } else {
        edited(
            visits(s, ids, heats, now, (n - 1) as nat),
            ids[n - 1],
            |m: ItemView| visited(m, heats[n - 1], now),
        )
    }
}

/// Whether one of the first `n` identifiers is known.
pub open spec fn any_known(s: Seq<ItemView>, ids: Seq<Seq<char>>, n: nat) -> bool {
    exists|k: int| 0 <= k < n && holds_id(s, #[trigger] ids[k])
}

/// The memory as part of an episode, unless it is part of one already.
pub open spec fn in_episode(m: ItemView, episode: Seq<char>) -> ItemView {
    if m.episode_id is None {
        ItemView { episode_id: Some(episode), ..m }
    } else {
        m
    }
}

/// The memories after the first `n` were made part of an episode, and how many were.
pub open spec fn with_episode(
    s: Seq<ItemView>,
    ids: Seq<Seq<char>>,
    episode: Seq<char>,
    n: nat,
) -> (Seq<ItemView>, nat)
    decreases n,
{
    if n == 0 {
        (s, 0)
    } else {
        let p = with_episode(s, ids, episode, (n - 1) as nat);
        match last_with_id(p.0, ids[n - 1]) {
            Some(i) => if p.0[i].episode_id is None {
                (p.0.update(i, in_episode(p.0[i], episode)), p.1 + 1)
            } else {
                p
            },
            None => p,
        }
    }
}

/// The manager after a memory was deleted at `now`.
pub open spec fn soft_deleted(m: ManagerView, id: Seq<char>, reason: Seq<char>, now: i64) -> ManagerView {
    match last_with_id(m.entries, id) {
        Some(i) => ManagerView {
            entries: m.entries.remove(i),
            bin: pushed(
                m.bin,
                RecycleView {
                    item: m.entries[i],
                    deleted_at: now,
                    reason,
                    original_index_hint: None,
                },
            ),
            bin_changed: true,
            dirty: true,
            ..m
        },
        None => m,
    }
}

/// The manager after the first `n` memories were deleted.
pub open spec fn all_deleted(m: ManagerView, ids: Seq<Seq<char>>, now: i64, n: nat) -> ManagerView
    decreases n,
{
    if n == 0 {
        m
    } else {
        soft_deleted(all_deleted(m, ids, now, (n - 1) as nat), ids[n - 1], "manual_delete"@, now)
    }
}

/// The manager after a memory was taken back from the bin.
pub open spec fn restored(m: ManagerView, id: Seq<char>) -> ManagerView {
    let i = first_for(m.bin, id);
    if i < m.bin.len() {
        ManagerView {
            entries: m.entries.push(m.bin[i].item),
            bin: m.bin.remove(i),
            bin_changed: true,
            dirty: true,
            ..m
        }
    } else {
        m
    }
}

/// A memory that was deleted comes back as it was, with its time, behind the others; the
/// bin is as it was. The bin has room and holds no other entry for the memory.
pub proof fn deleted_then_restored(m: ManagerView, id: Seq<char>, reason: Seq<char>, now: i64)
    requires
        holds_id(m.entries, id),
        m.bin.len() < crate::recycle_bin::MAX_ENTRIES,
        forall|k: int| 0 <= k < m.bin.len() ==> (#[trigger] m.bin[k]).item.id != id,
    ensures
        restored(soft_deleted(m, id, reason, now), id) == (ManagerView {
            entries: without_id(m.entries, id).push(m.entries[last_with_id(m.entries, id)->0]),
            bin_changed: true,
            dirty: true,
            ..m
        }),
{
    crate::strategy::lemma_last_with_id(m.entries, id);
    let i = last_with_id(m.entries, id)->0;
    let e = RecycleView {
        item: m.entries[i],
        deleted_at: now,
        reason,
        original_index_hint: None,
    };
    crate::recycle_bin::push_then_restore(m.bin, e);
}

impl MemoryManager {
    /// A manager of loaded memories. At least five turns are kept in full.
    pub fn new(
        char_id: &str,
        data: MemoryStoreData,
        recycle_bin: RecycleBin,
        pending_conflicts: Vec<PendingConflict>,
        max_short_term: usize,
    ) -> (r: MemoryManager)
        ensures
            r@ == (ManagerView {
                entries: item_views(data.entries@),
                bin: recycle_bin@,
                bin_changed: recycle_bin.changed(),
                hints: Seq::empty(),
                conflicts: conflict_views(pending_conflicts@),
                char_id: char_id@,
                session_id: None,
                turns: if max_short_term < 5 {
                    5
                } else {
                    max_short_term
                },
                dirty: false,
                last_save_at: None,
            }),
    {
        let r = MemoryManager {
            entries: data.entries,
            recycle_bin,
            topic_hints: Vec::new(),
            pending_conflicts,
            char_id: char_id.to_owned(),
            session_id: None,
            turn_capacity: if max_short_term < 5 {
                5
            } else {
                max_short_term
            },
            dirty: false,
            last_save_at: None,
        };
        assert(r@.hints =~= Seq::<(Seq<char>, i64)>::empty());
        r
    }

    pub fn set_session_id(&mut self, session_id: Option<String>)
        ensures
            final(self)@ == (ManagerView { session_id: opt_text(session_id), ..old(self)@ }),
    {
        self.session_id = session_id;
    }

    pub fn get_session_id(&self) -> (r: Option<String>)
        ensures
            opt_text(r) == self@.session_id,
    {
        copy_option(&self.session_id)
    }

    pub fn char_id(&self) -> (r: &str)
        ensures
            r@ == self@.char_id,
    {
        self.char_id.as_str()
    }

    // -----------------------------------------------------------------------
    // Saving
    // -----------------------------------------------------------------------

    /// Whether a change is to be saved at `now`: none was saved yet, or the last time is
    /// long enough ago.
    pub fn save_due(&self, now: i64) -> (r: bool)
        ensures
            r == (self@.dirty && match self@.last_save_at {
                Some(t) => now - t >= SAVE_THROTTLE_MILLIS,
                None => true,
            }),
    {
        self.dirty && match self.last_save_at {
            Some(t) => now as i128 - t as i128 >= SAVE_THROTTLE_MILLIS as i128,
            None => true,
        }
    }

    /// Whether there is something to be saved.
    pub fn flush(&self) -> (r: bool)
        ensures
            r == self@.dirty,
    {
        self.dirty
    }

    /// Notes that everything was saved at `now`.
    pub fn saved(&mut self, now: i64)
        ensures
            final(self)@ == (ManagerView { dirty: false, last_save_at: Some(now), ..old(self)@ }),
    {
        self.dirty = false;
        self.last_save_at = Some(now);
    }

    // -----------------------------------------------------------------------
    // Topics
    // -----------------------------------------------------------------------

    /// Keeps what was searched for in a conversation.
    pub fn push_topic_hint(&mut self, query: &str, now: i64)
        ensures
            final(self)@ == (ManagerView {
                hints: hinted(old(self)@.hints, query@, now),
                ..old(self)@
            }),
    {
        let q = trimmed(query);
        if q.as_str().unicode_len() == 0 {
            return;
        }
        let ghost was = self@.hints;
        let mut i: usize = 0;
        while i < self.topic_hints.len() && !same(self.topic_hints[i].query.as_str(), q.as_str())
            invariant
                i <= self.topic_hints@.len(),
                was == hint_views(self.topic_hints@),
                forall|j: int| 0 <= j < i ==> (#[trigger] was[j]).0 != q@,
            decreases self.topic_hints@.len() - i,
        {
            assert(was[i as int] == self.topic_hints@[i as int]@);
            i += 1;
        }
        proof {
            lemma_first_hint(was, q@);
            if i < self.topic_hints@.len() {
                assert(was[i as int] == self.topic_hints@[i as int]@);
            }
            let w = first_hint(was, q@);
            if w < i {
                assert(was[w].0 != q@);
            } else if i < w {
                assert(was[i as int].0 != q@);
            }
            assert(i == w);
        }
        if i < self.topic_hints.len() {
            self.topic_hints.set(i, TopicHint { query: q, timestamp: now });
            assert(hint_views(self.topic_hints@) =~= was.update(i as int, (q@, now)));
        } else {
            self.topic_hints.push(TopicHint { query: q, timestamp: now });
            assert(hint_views(self.topic_hints@) =~= was.push((q@, now)));
        }
        let ghost full = hint_views(self.topic_hints@);
        let ghost before = self@;
        while self.topic_hints.len() > MAX_TOPIC_HINTS
            invariant
                self@ == (ManagerView { hints: hint_views(self.topic_hints@), ..before }),
                self.topic_hints@.len() <= full.len(),
                hint_views(self.topic_hints@) == full.skip(full.len() - self.topic_hints@.len()),
                full.len() > MAX_TOPIC_HINTS ==> self.topic_hints@.len() >= MAX_TOPIC_HINTS,
                full.len() <= MAX_TOPIC_HINTS ==> self.topic_hints@.len() == full.len(),
            decreases self.topic_hints@.len(),
        {
            let ghost prev = hint_views(self.topic_hints@);
            self.topic_hints.remove(0);
            assert(hint_views(self.topic_hints@) =~= prev.skip(1));
            assert(hint_views(self.topic_hints@) =~= full.skip(
                full.len() - self.topic_hints@.len(),
            ));
        }
        assert(full.skip(0) =~= full);
    }

    /// Takes out all hints, and gives the queries of those that are still of interest.
    pub fn drain_topic_hints(&mut self, now: i64) -> (out: Vec<String>)
        ensures
            texts(out@) == recent_queries(old(self)@.hints, now),
            final(self)@ == (ManagerView { hints: Seq::empty(), ..old(self)@ }),
    {
        let ghost all = self@.hints;
        let mut out: Vec<String> = Vec::new();
        let mut i: usize = 0;
        assert(texts(out@) =~= recent_queries(all.take(0), now));
        while i < self.topic_hints.len()
            invariant
                i <= self.topic_hints@.len(),
                self@ == old(self)@,
                all == hint_views(self.topic_hints@),
                texts(out@) == recent_queries(all.take(i as int), now),
            decreases self.topic_hints@.len() - i,
        {
            proof {
                assert(all.take(i + 1).drop_last() =~= all.take(i as int));
                assert(all.take(i + 1).last() == self.topic_hints@[i as int]@);
            }
            if self.topic_hints[i].timestamp as i128 >= now as i128 - TOPIC_HINT_MILLIS as i128 {
                let ghost prev = texts(out@);
                out.push(self.topic_hints[i].query.clone());
                assert(texts(out@) =~= prev.push(self.topic_hints@[i as int].query@));
            }
            i += 1;
        }
        assert(all.take(i as int) =~= all);
        self.topic_hints = Vec::new();
        assert(self@.hints =~= Seq::<(Seq<char>, i64)>::empty());
        out
    }

    // -----------------------------------------------------------------------
    // Conflicts
    // -----------------------------------------------------------------------

    pub fn pending_conflict_count(&self) -> (n: usize)
        ensures
            n == self@.conflicts.len(),
    {
        self.pending_conflicts.len()
    }

    /// What is to be done about the `i`-th waiting conflict.
    pub fn pending_step(&self, i: usize) -> (r: ConflictStep)
        requires
            i < self@.conflicts.len(),
        ensures
            r == conflict_step(self@.entries, self@.conflicts[i as int]),
    {
        next_step(self.entries.as_slice(), &self.pending_conflicts[i])
    }

    /// Works on the first waiting conflicts with the answers of the arbiter to each of them
    /// (`None` where it failed or was not asked), and says how many are settled. The others
    /// wait for another try, as long as tries are left and there is room.
    pub fn process_pending_conflicts(&mut self, answers: Vec<Option<ArbitrationOutcome>>, now: i64) -> (n:
        usize)
        requires
            answers@.len() >= batch_size(old(self)@.conflicts.len()),
        ensures
            final(self)@ == (if old(self)@.conflicts.len() == 0 {
                old(self)@
            } else {
                conflicts_processed(old(self)@, verdicts(answers@), now)
            }),
            n == tally(
                old(self)@.entries,
                old(self)@.conflicts.take(batch_size(old(self)@.conflicts.len()) as int),
                verdicts(answers@),
                now,
                batch_size(old(self)@.conflicts.len()),
            ).processed,
    {
        let ghost was = self@;
        let total: usize = self.pending_conflicts.len();
        let k: usize = if total < MAX_PER_TICK {
            total
        } else {
            MAX_PER_TICK
        };
        if k == 0 {
            return 0;
        }
        let ghost batch = was.conflicts.take(k as int);
        let ghost said = verdicts(answers@);
        let mut waiting: Vec<PendingConflict> = Vec::new();
        let mut answers = answers;
        let mut processed: usize = 0;
        let mut i: usize = 0;
        assert(conflict_views(waiting@) =~= Seq::<ConflictView>::empty());
        assert(was.conflicts.skip(0) =~= was.conflicts);
        assert(said.skip(0) =~= said);
        while i < k
            invariant
                i <= k <= was.conflicts.len(),
                k <= said.len(),
                processed <= i,
                batch == was.conflicts.take(k as int),
                verdicts(answers@) == said.skip(i as int),
                self@.conflicts == was.conflicts.skip(i as int),
                self@ == (ManagerView {
                    entries: tally(was.entries, batch, said, now, i as nat).entries,
                    conflicts: self@.conflicts,
                    ..was
                }),
                processed == tally(was.entries, batch, said, now, i as nat).processed,
                conflict_views(waiting@) == tally(was.entries, batch, said, now, i as nat).waiting,
            decreases k - i,
        {
            let ghost t = tally(was.entries, batch, said, now, i as nat);
            let ghost queue = self@.conflicts;
            let ghost rest = verdicts(answers@);
            assert(self.pending_conflicts@.len() == queue.len());
            assert(answers@.len() == rest.len());
            let c = self.pending_conflicts.remove(0);
            let answer = answers.remove(0);
            proof {
                assert(self@.conflicts =~= queue.skip(1));
                assert(queue.skip(1) =~= was.conflicts.skip(i + 1));
                assert(c@ == queue[0]);
                assert(c@ == batch[i as int]);
                assert(verdict_of(answer) == rest[0]);
                assert(rest[0] == said[i as int]);
                assert(verdicts(answers@) =~= rest.skip(1));
                assert(rest.skip(1) =~= said.skip(i + 1));
            }
            let ghost cv = c@;
            let ghost av = verdict_of(answer);
            match next_step(self.entries.as_slice(), &c) {
                ConflictStep::Settled => {
                    processed += 1;
                },
                ConflictStep::Wait => {
                    let ghost prev = conflict_views(waiting@);
                    if let Some(p) = retry(c) {
                        let ghost pv = p@;
                        waiting.push(p);
                        assert(conflict_views(waiting@) =~= prev.push(pv));
                    }
                },
                ConflictStep::Ask => {
                    let failed = answer.is_none();
                    let ghost prev = conflict_views(waiting@);
                    let (again, _) = settle(&mut self.entries, c, answer, now);
                    if failed {
                        if let Some(p) = again {
                            let ghost pv = p@;
                            waiting.push(p);
                            assert(conflict_views(waiting@) =~= prev.push(pv));
                        }
                    } else {
                        processed += 1;
                    }
                },
            }
            i += 1;
        }
        let ghost t = tally(was.entries, batch, said, now, k as nat);
        let ghost all = conflict_views(waiting@);
        let ghost left = self@.conflicts;
        let n: usize = waiting.len();
        let mut j: usize = 0;
        while waiting.len() > 0
            invariant
                j + waiting@.len() == n,
                all.len() == n,
                conflict_views(waiting@) == all.skip(j as int),
                self@ == (ManagerView {
                    entries: t.entries,
                    conflicts: requeued(left, all.take(j as int)),
                    ..was
                }),
            decreases waiting@.len(),
        {
            let ghost prev = conflict_views(waiting@);
            let c = waiting.remove(0);
            proof {
                assert(c@ == prev[0]);
                assert(conflict_views(waiting@) =~= prev.skip(1));
                assert(prev.skip(1) =~= all.skip(j + 1));
                assert(all.take(j + 1).drop_last() =~= all.take(j as int));
                assert(all.take(j + 1).last() == c@);
            }
            let _ = queue_conflict(&mut self.pending_conflicts, c);
            j += 1;
        }
        assert(all.take(j as int) =~= all);
        self.dirty = true;
        processed
    }

    /// The found memories that count and are meant to last, most alike first.
    pub fn find_similar_persistent_memories(&self, found: &Vec<Candidate>) -> (out: Vec<
        (String, String, i64),
    >)
        ensures
            similar_views(out@) == most_similar(self@.entries, candidate_views(found@)),
    {
        find_similar_persistent_memories(self.entries.as_slice(), found)
    }

    // -----------------------------------------------------------------------
    // Reading
    // -----------------------------------------------------------------------

    /// The memories that are not archived.
    pub fn get_all_memories(&self) -> (out: Vec<MemoryItem>)
        ensures
            item_views(out@) == self@.entries.filter(is_live()),
    {
        let test = |m: &MemoryItem| -> (r: bool)
            ensures
                r == !m@.consolidated,
            { !m.consolidated };
        filter_items(self.entries.as_slice(), test, Ghost(is_live()))
    }

    /// The memories of the identifiers, each once, that are not archived.
    pub fn get_memories_by_ids(&self, ids: &Vec<String>) -> (out: Vec<MemoryItem>)
        ensures
            item_views(out@) == by_ids(self@.entries, texts(ids@)),
    {
        select_by_ids(self.entries.as_slice(), ids)
    }

    /// The latest memories that carry the tag of the type.
    pub fn recent_by_type(&self, memory_type: MemoryType, limit: usize) -> (out: Vec<MemoryItem>)
        ensures
            item_views(out@) == latest(
                self@.entries.filter(live_with_tag(seq![memory_type.name()])),
                limit as int,
            ),
    {
        let mut tags: Vec<String> = Vec::new();
        tags.push(memory_type.as_str().to_owned());
        assert(texts(tags@) =~= seq![memory_type.name()]);
        self.recent_by_tags(&tags, limit)
    }

    /// The latest memories that carry one of the tags.
    pub fn recent_by_tags(&self, tags: &Vec<String>, limit: usize) -> (out: Vec<MemoryItem>)
        ensures
            item_views(out@) == latest(
                self@.entries.filter(live_with_tag(texts(tags@))),
                limit as int,
            ),
    {
        let test = |m: &MemoryItem| -> (r: bool)
            ensures
                r == live_with_tag(texts(tags@))(m@),
            { is_live_tagged(m, tags) };
        let items = filter_items(
            self.entries.as_slice(),
            test,
            Ghost(live_with_tag(texts(tags@))),
        );
        take_latest(items.as_slice(), limit)
    }

    pub fn entry_count(&self) -> (n: usize)
        ensures
            n == self@.entries.len(),
    {
        self.entries.len()
    }

    /// How many memories are not seeds.
    pub fn non_seed_count(&self) -> (n: usize)
        ensures
            n == real_count(self@.entries),
    {
        count_real(self.entries.as_slice())
    }

    /// The identifiers and times of the memories that the graph shows.
    pub fn timeline_points(&self) -> (out: Vec<(String, i64)>)
        ensures
            out@.map_values(|p: (String, i64)| (p.0@, p.1)) == self@.entries.filter(
                |m: ItemView| graph_visible(m),
            ).map_values(|m: ItemView| (m.id, m.timestamp)),
    {
        let test = |m: &MemoryItem| -> (r: bool)
            ensures
                r == graph_visible(m@),
            { is_graph_visible_memory(m) };
        let items = filter_items(
            self.entries.as_slice(),
            test,
            Ghost(|m: ItemView| graph_visible(m)),
        );
        let ghost all = item_views(items@);
        let mut out: Vec<(String, i64)> = Vec::new();
        let mut i: usize = 0;
        while i < items.len()
            invariant
                i <= items@.len(),
                all == item_views(items@),
                out@.len() == i,
                forall|k: int|
                    0 <= k < i ==> (#[trigger] out@[k]).0@ == all[k].id && out@[k].1
                        == all[k].timestamp,
            decreases items@.len() - i,
        {
            assert(all[i as int] == items@[i as int]@);
            out.push((items[i].id.clone(), items[i].timestamp));
            i += 1;
        }
        assert(out@.map_values(|p: (String, i64)| (p.0@, p.1)) =~= all.map_values(
            |m: ItemView| (m.id, m.timestamp),
        ));
        out
    }

    /// The memories that the graph shows in a span of time.
    pub fn memories_in_range(&self, after: i64, before: i64) -> (out: Vec<MemoryItem>)
        ensures
            item_views(out@) == self@.entries.filter(visible_within(after, before)),
    {
        let test = |m: &MemoryItem| -> (r: bool)
            ensures
                r == visible_within(after, before)(m@),
            { is_graph_visible_memory(m) && m.timestamp >= after && m.timestamp < before };
        filter_items(self.entries.as_slice(), test, Ghost(visible_within(after, before)))
    }

    /// The memories with a hook that is open.
    pub fn get_memories_with_open_hooks(&self) -> (out: Vec<MemoryItem>)
        ensures
            item_views(out@) == self@.entries.filter(has_open_hook()),
    {
        let test = |m: &MemoryItem| -> (r: bool)
            ensures
                r == has_open_hook()(m@),
            { any_hook_open(m) };
        filter_items(self.entries.as_slice(), test, Ghost(has_open_hook()))
    }

    /// The most important memories from that importance up.
    pub fn get_high_importance_memories(&self, min_importance: i64, limit: usize) -> (out: Vec<MemoryItem>)
        ensures
            item_views(out@) == heaviest(
                self@.entries.filter(live_from(min_importance)),
                limit as int,
            ),
    {
        let test = |m: &MemoryItem| -> (r: bool)
            ensures
                r == live_from(min_importance)(m@),
            { !m.consolidated && m.importance >= min_importance };
        let items = filter_items(self.entries.as_slice(), test, Ghost(live_from(min_importance)));
        take_heaviest(items.as_slice(), limit)
    }

    /// The numbers of the memories in words.
    pub fn get_memory_summary(&self) -> (out: String)
        ensures
            out@ == counts_text(
                self@.entries.len(),
                count_of(self@.entries, Granularity::Turn),
                count_of(self@.entries, Granularity::Session),
                count_of(self@.entries, Granularity::Summary),
                count_of(self@.entries, Granularity::Keyword),
            ),
    {
        describe_counts(self.entries.as_slice())
    }

    /// The content of the memory.
    pub fn get_memory_content_by_id(&self, id: &str) -> (r: Option<String>)
        ensures
            opt_text(r) == (match last_with_id(self@.entries, id@) {
                Some(i) => Some(self@.entries[i].content),
                None => None,
            }),
    {
        match position_by_id(self.entries.as_slice(), id) {
            Some(i) => {
                assert(self@.entries[i as int] == self.entries@[i as int]@);
                Some(self.entries[i].content.clone())
            },
            None => None,
        }
    }

    // -----------------------------------------------------------------------
    // Changing one memory; each says whether there is one
    // -----------------------------------------------------------------------

    /// Archives the memory: searches pass it over, but it stays.
    pub fn archive_memory(&mut self, id: &str) -> (r: bool)
        ensures
            r == holds_id(old(self)@.entries, id@),
            final(self)@ == (ManagerView {
                entries: edited(old(self)@.entries, id@, |m: ItemView| archived(m)),
                dirty: old(self)@.dirty || r,
                ..old(self)@
            }),
    {
        match position_by_id(self.entries.as_slice(), id) {
            Some(i) => {
                let mut m = self.entries[i].clone();
                assert(self@.entries[i as int] == m@);
                m.consolidated = true;
                put_item(&mut self.entries, i, m);
                self.dirty = true;
                true
            },
            None => false,
        }
    }

    /// Notes that a summary stands for the memory.
    pub fn mark_summarized(&mut self, id: &str) -> (r: bool)
        ensures
            r == holds_id(old(self)@.entries, id@),
            final(self)@ == (ManagerView {
                entries: edited(old(self)@.entries, id@, |m: ItemView| summarized(m)),
                dirty: old(self)@.dirty || r,
                ..old(self)@
            }),
    {
        match position_by_id(self.entries.as_slice(), id) {
            Some(i) => {
                assert(self@.entries[i as int] == self.entries@[i as int]@);
                let m = mark_summarized_item(self.entries[i].clone());
                put_item(&mut self.entries, i, m);
                self.dirty = true;
                true
            },
            None => false,
        }
    }

    /// Adds metadata to the memory; they go before what stood there.
    pub fn patch_memory_metadata(&mut self, id: &str, patch: &Metadata) -> (r: bool)
        ensures
            r == holds_id(old(self)@.entries, id@),
            final(self)@ == (ManagerView {
                entries: edited(old(self)@.entries, id@, |m: ItemView| patched(m, patch@)),
                dirty: old(self)@.dirty || r,
                ..old(self)@
            }),
    {
        match position_by_id(self.entries.as_slice(), id) {
            Some(i) => {
                let mut m = self.entries[i].clone();
                assert(self@.entries[i as int] == m@);
                m.metadata.merge(patch);
                put_item(&mut self.entries, i, m);
                self.dirty = true;
                true
            },
            None => false,
        }
    }

    /// Gives the memory these hooks.
    pub fn update_open_hooks(&mut self, id: &str, open_hooks: Vec<OpenHook>) -> (r: bool)
        ensures
            r == holds_id(old(self)@.entries, id@),
            final(self)@ == (ManagerView {
                entries: edited(
                    old(self)@.entries,
                    id@,
                    |m: ItemView| ItemView { open_hooks: hook_views(open_hooks@), ..m },
                ),
                dirty: old(self)@.dirty || r,
                ..old(self)@
            }),
    {
        match position_by_id(self.entries.as_slice(), id) {
            Some(i) => {
                let mut m = self.entries[i].clone();
                assert(self@.entries[i as int] == m@);
                m.open_hooks = open_hooks;
                put_item(&mut self.entries, i, m);
                self.dirty = true;
                true
            },
            None => false,
        }
    }

    /// Adds a hook to the memory, unless one of its type is open; says whether it did.
    pub fn attach_open_hook(&mut self, memory_id: &str, hook: OpenHook) -> (r: bool)
        ensures
            r == (holds_id(old(self)@.entries, memory_id@) && !has_open_of_type(
                old(self)@.entries[last_with_id(old(self)@.entries, memory_id@)->0].open_hooks,
                hook@.hook_type,
            )),
            final(self)@ == (ManagerView {
                entries: edited(
                    old(self)@.entries,
                    memory_id@,
                    |m: ItemView| with_hook(m, hook@),
                ),
                dirty: old(self)@.dirty || r,
                ..old(self)@
            }),
    {
        match position_by_id(self.entries.as_slice(), memory_id) {
            Some(i) => {
                assert(self@.entries[i as int] == self.entries@[i as int]@);
                let (m, added) = hook_item(self.entries[i].clone(), hook);
                put_item(&mut self.entries, i, m);
                if added {
                    self.dirty = true;
                }
                added
            },
            None => false,
        }
    }

    /// Lets the memories be visited: each of the identifiers in turn, with the heat that
    /// the memory then has.
    pub fn bump_visits(&mut self, ids: &Vec<String>, heats: &Vec<i64>, now: i64)
        requires
            heats@.len() == ids@.len(),
        ensures
            final(self)@.entries == visits(
                old(self)@.entries,
                texts(ids@),
                heats@,
                now,
                ids@.len(),
            ),
            final(self)@ == (ManagerView {
                entries: final(self)@.entries,
                dirty: old(self)@.dirty || any_known(old(self)@.entries, texts(ids@), ids@.len()),
                ..old(self)@
            }),
    {
        let ghost was = self@;
        let ghost all = texts(ids@);
        let mut i: usize = 0;
        while i < ids.len()
            invariant
                i <= ids@.len(),
                heats@.len() == ids@.len(),
                all == texts(ids@),
                self@.entries == visits(was.entries, all, heats@, now, i as nat),
                same_ids(self@.entries, was.entries),
                self@ == (ManagerView {
                    entries: self@.entries,
                    dirty: was.dirty || any_known(was.entries, all, i as nat),
                    ..was
                }),
            decreases ids@.len() - i,
        {
            let id = ids[i].as_str();
            assert(all[i as int] == id@);
            let ghost before = self@.entries;
            proof {
                lemma_same_ids(before, was.entries, id@);
                crate::strategy::lemma_last_with_id(before, id@);
            }
            match position_by_id(self.entries.as_slice(), id) {
                Some(k) => {
                    assert(before[k as int] == self.entries@[k as int]@);
                    let m = visit(self.entries[k].clone(), heats[i], now);
                    put_item(&mut self.entries, k, m);
                    self.dirty = true;
                    assert(holds_id(was.entries, all[i as int]));
                    assert(any_known(was.entries, all, (i + 1) as nat));
                },
                None => {
                    assert(any_known(was.entries, all, (i + 1) as nat) == any_known(
                        was.entries,
                        all,
                        i as nat,
                    )) by {
                        if any_known(was.entries, all, (i + 1) as nat) {
                            let k = choose|k: int|
                                0 <= k < i + 1 && holds_id(was.entries, #[trigger] all[k]);
                            assert(k < i);
                        } else {
                            assert forall|k: int| 0 <= k < i implies !holds_id(
                                was.entries,
                                #[trigger] all[k],
                            ) by {}
                        }
                    }
                },
            }
            i += 1;
        }
    }

    /// Makes the memories part of an episode that are part of none; says how many were.
    pub fn backfill_episode_id(&mut self, memory_ids: &Vec<String>, episode_id: &str) -> (n: usize)
        ensures
            final(self)@ == (ManagerView {
                entries: with_episode(
                    old(self)@.entries,
                    texts(memory_ids@),
                    episode_id@,
                    memory_ids@.len(),
                ).0,
                dirty: old(self)@.dirty || n > 0,
                ..old(self)@
            }),
            n == with_episode(
                old(self)@.entries,
                texts(memory_ids@),
                episode_id@,
                memory_ids@.len(),
            ).1,
    {
        let ghost was = self@;
        let ghost all = texts(memory_ids@);
        let mut n: usize = 0;
        let mut i: usize = 0;
        while i < memory_ids.len()
            invariant
                i <= memory_ids@.len(),
                n <= i,
                all == texts(memory_ids@),
                self@ == (ManagerView {
                    entries: with_episode(was.entries, all, episode_id@, i as nat).0,
                    dirty: was.dirty || n > 0,
                    ..was
                }),
                n == with_episode(was.entries, all, episode_id@, i as nat).1,
            decreases memory_ids@.len() - i,
        {
            let id = memory_ids[i].as_str();
            assert(all[i as int] == id@);
            if let Some(k) = position_by_id(self.entries.as_slice(), id) {
                assert(self@.entries[k as int] == self.entries@[k as int]@);
                if self.entries[k].episode_id.is_none() {
                    let mut m = self.entries[k].clone();
                    m.episode_id = Some(episode_id.to_owned());
                    put_item(&mut self.entries, k, m);
                    self.dirty = true;
                    n += 1;
                }
            }
            i += 1;
        }
        n
    }

    // -----------------------------------------------------------------------
    // Deleting
    // -----------------------------------------------------------------------

    /// Deletes the memory; it stays in the bin for a while. Says whether there is one.
    pub fn delete_memory(&mut self, id: &str, now: i64) -> (r: bool)
        ensures
            r == holds_id(old(self)@.entries, id@),
            final(self)@ == soft_deleted(old(self)@, id@, "manual_delete"@, now),
    {
        self.soft_delete_memory(id, "manual_delete", now)
    }

    /// Deletes the memory for a reason; it stays in the bin for a while.
    pub fn soft_delete_memory(&mut self, id: &str, reason: &str, now: i64) -> (r: bool)
        ensures
            r == holds_id(old(self)@.entries, id@),
            final(self)@ == soft_deleted(old(self)@, id@, reason@, now),
    {
        match take_by_id(&mut self.entries, id) {
            Some(m) => {
                self.recycle_bin.push(m, reason, now);
                self.dirty = true;
                true
            },
            None => false,
        }
    }

    /// Takes the memory back from the bin; gives a copy of it, to be indexed.
    pub fn restore_memory(&mut self, id: &str) -> (r: Option<MemoryItem>)
        ensures
            match r {
                Some(m) => first_for(old(self)@.bin, id@) < old(self)@.bin.len() && m@ == old(
                    self,
                )@.bin[first_for(old(self)@.bin, id@)].item,
                None => first_for(old(self)@.bin, id@) >= old(self)@.bin.len(),
            },
            final(self)@ == restored(old(self)@, id@),
    {
        match self.recycle_bin.restore(id) {
            Some(m) => {
                let copy = m.clone();
                let ghost prev = self@.entries;
                self.entries.push(m);
                self.dirty = true;
                assert(self@.entries =~= prev.push(m@));
                Some(copy)
            },
            None => None,
        }
    }

    /// Drops what was in the bin long enough; says how much.
    pub fn purge_expired_recycle_bin(&mut self, now: i64) -> (n: usize)
        ensures
            final(self)@ == (ManagerView {
                bin: old(self)@.bin.filter(|e: RecycleView| fresh(e, now)),
                bin_changed: n > 0 || old(self)@.bin_changed,
                ..old(self)@
            }),
            n == old(self)@.bin.len() - final(self)@.bin.len(),
    {
        self.recycle_bin.purge_expired(now)
    }

    /// Drops the memory from the bin; says whether it was there.
    pub fn purge_recycle_entry(&mut self, id: &str) -> (r: bool)
        ensures
            r == (first_for(old(self)@.bin, id@) < old(self)@.bin.len()),
            final(self)@ == (ManagerView {
                bin: if r {
                    old(self)@.bin.remove(first_for(old(self)@.bin, id@))
                } else {
                    old(self)@.bin
                },
                bin_changed: r || old(self)@.bin_changed,
                ..old(self)@
            }),
    {
        self.recycle_bin.purge(id)
    }

    /// Empties the bin; says how much there was.
    pub fn purge_all_recycle_bin(&mut self) -> (n: usize)
        ensures
            n == old(self)@.bin.len(),
            final(self)@ == (ManagerView { bin: Seq::empty(), bin_changed: true, ..old(self)@ }),
    {
        self.recycle_bin.purge_all()
    }

    pub fn list_recycle_bin(&self) -> (r: Vec<RecycleEntry>)
        ensures
            recycled(r@) == self@.bin,
    {
        self.recycle_bin.list()
    }

    pub fn recycle_bin_count(&self) -> (n: usize)
        ensures
            n == self@.bin.len(),
    {
        self.recycle_bin.count()
    }

    /// Deletes the memory for good.
    pub fn hard_delete_memory(&mut self, id: &str)
        ensures
            final(self)@ == (ManagerView {
                entries: without_id(old(self)@.entries, id@),
                dirty: true,
                ..old(self)@
            }),
    {
        let _ = take_by_id(&mut self.entries, id);
        self.dirty = true;
    }

    pub(crate) fn delete_all(&mut self, ids: &Vec<String>, now: i64)
        ensures
            final(self)@ == all_deleted(old(self)@, texts(ids@), now, ids@.len()),
    {
        let ghost was = self@;
        let ghost all = texts(ids@);
        let mut i: usize = 0;
        while i < ids.len()
            invariant
                i <= ids@.len(),
                all == texts(ids@),
                self@ == all_deleted(was, all, now, i as nat),
            decreases ids@.len() - i,
        {
            assert(all[i as int] == ids@[i as int]@);
            let _ = self.delete_memory(ids[i].as_str(), now);
            i += 1;
        }
    }
}

/// The two lists have the same identifiers, place by place.
pub open spec fn same_ids(a: Seq<ItemView>, b: Seq<ItemView>) -> bool {
    a.len() == b.len() && forall|i: int| 0 <= i < a.len() ==> (#[trigger] a[i]).id == b[i].id
}

proof fn lemma_same_ids(a: Seq<ItemView>, b: Seq<ItemView>, id: Seq<char>)
    requires
        same_ids(a, b),
    ensures
        last_with_id(a, id) == last_with_id(b, id),
    decreases a.len(),
{
    if a.len() > 0 {
        assert(a[a.len() - 1].id == b[b.len() - 1].id);
        assert forall|i: int| 0 <= i < a.len() - 1 implies (#[trigger] a.drop_last()[i]).id
            == b.drop_last()[i].id by {
            assert(a.drop_last()[i] == a[i]);
        }
        lemma_same_ids(a.drop_last(), b.drop_last(), id);
    }
}

} // verus!
