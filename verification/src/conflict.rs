//! Two memories that contradict each other: finding the one in question and settling it.

use crate::rank::{before, order_desc, order_of, order_sorts, positions, ranked, ranking_gives_the_best};
use crate::store::{edited, holds_id, put_item, take_by_id, without_id};
use crate::strategy::{last_with_id, lemma_last_with_id, position_by_id};
use crate::types::{item_views, memory_type_name_round_trip, memory_type_named, ItemView, MemoryItem,
    MemoryType};
use vstd::prelude::*;
use vstd::string::*;

verus! {

/// How many conflicts may wait.
pub const MAX_PENDING: usize = 50;

/// How many conflicts are settled at once.
pub const MAX_PER_TICK: usize = 5;

/// How often settling a conflict may fail before it is given up.
pub const MAX_RETRY: u32 = 3;

/// A conflict that waits to be settled.
#[derive(Debug)]
pub struct PendingConflict {
    pub id: String,
    pub new_memory_id: String,
    pub new_content: String,
    pub old_memory_id: String,
    pub old_content: String,
    /// In millionths.
    pub similarity: i64,
    pub created_at: i64,
    pub retry_count: u32,
}

/// What a waiting conflict is.
pub struct ConflictView {
    pub id: Seq<char>,
    pub new_memory_id: Seq<char>,
    pub new_content: Seq<char>,
    pub old_memory_id: Seq<char>,
    pub old_content: Seq<char>,
    pub similarity: i64,
    pub created_at: i64,
    pub retry_count: u32,
}

impl View for PendingConflict {
    type V = ConflictView;

    open spec fn view(&self) -> ConflictView {
        ConflictView {
            id: self.id@,
            new_memory_id: self.new_memory_id@,
            new_content: self.new_content@,
            old_memory_id: self.old_memory_id@,
            old_content: self.old_content@,
            similarity: self.similarity,
            created_at: self.created_at,
            retry_count: self.retry_count,
        }
    }
}

/// What the conflicts of a list are.
pub open spec fn conflict_views(v: Seq<PendingConflict>) -> Seq<ConflictView> {
    v.map_values(|c: PendingConflict| c@)
}

/// How a conflict was settled.
#[derive(Debug)]
pub enum ArbitrationOutcome {
    KeepBoth,
    ReplaceOld,
    /// The old memory goes, and the new one gets this content.
    MergeSupersede(String),
}

/// What an arbiter said of a conflict; the inner `None` where it failed.
pub enum Verdict {
    KeepBoth,
    ReplaceOld,
    MergeSupersede(Seq<char>),
    Failed,
}

/// What an answer of the arbiter stands for.
pub open spec fn verdict_of(r: Option<ArbitrationOutcome>) -> Verdict {
    match r {
        Some(ArbitrationOutcome::KeepBoth) => Verdict::KeepBoth,
        Some(ArbitrationOutcome::ReplaceOld) => Verdict::ReplaceOld,
        Some(ArbitrationOutcome::MergeSupersede(s)) => Verdict::MergeSupersede(s@),
        None => Verdict::Failed,
    }
}

/// What is to be done about a waiting conflict.
#[derive(Debug, Clone, Copy, PartialEq, Eq, Structural)]
pub enum ConflictStep {
    /// The old memory is gone: there is no conflict any more.
    Settled,
    /// The new memory is gone: wait, as long as tries are left.
    Wait,
    /// The arbiter is to be asked.
    Ask,
}

/// What is to be done about a waiting conflict among those memories.
pub open spec fn conflict_step(s: Seq<ItemView>, c: ConflictView) -> ConflictStep {
    if !holds_id(s, c.old_memory_id) {
        ConflictStep::Settled
    } else if !holds_id(s, c.new_memory_id) {
        ConflictStep::Wait
    } else {
        ConflictStep::Ask
    }
}

/// What is to be done about a waiting conflict.
pub fn next_step(entries: &[MemoryItem], c: &PendingConflict) -> (r: ConflictStep)
    ensures
        r == conflict_step(item_views(entries@), c@),
{
    if position_by_id(entries, c.old_memory_id.as_str()).is_none() {
        ConflictStep::Settled
    } else if position_by_id(entries, c.new_memory_id.as_str()).is_none() {
        ConflictStep::Wait
    } else {
        ConflictStep::Ask
    }
}

/// The memories after a conflict was settled at `now`.
pub open spec fn settled(s: Seq<ItemView>, c: ConflictView, v: Verdict, now: i64) -> Seq<ItemView> {
    match v {
        Verdict::ReplaceOld => without_id(s, c.old_memory_id),
        Verdict::MergeSupersede(merged) => without_id(
            edited(
                s,
                c.new_memory_id,
                |m: ItemView| ItemView { content: merged, timestamp: now, ..m },
            ),
            c.old_memory_id,
        ),
        _ => s,
    }
}

/// The conflict after one more try that failed; `None` where no try is left.
pub open spec fn retried(c: ConflictView) -> Option<ConflictView> {
    if c.retry_count < MAX_RETRY {
        Some(ConflictView { retry_count: (c.retry_count + 1) as u32, ..c })
    } else {
        None
    }
}

/// The conflict after one more try that failed.
pub fn retry(mut c: PendingConflict) -> (r: Option<PendingConflict>)
    ensures
        (match r {
            Some(p) => Some(p@),
            None => None,
        }) == retried(c@),
{
    if c.retry_count >= MAX_RETRY {
        return None;
    }
    c.retry_count = c.retry_count + 1;
    Some(c)
}

/// The conflicts and one more, where there is room.
pub open spec fn queued(q: Seq<ConflictView>, c: ConflictView) -> Seq<ConflictView> {
    if q.len() >= MAX_PENDING {
        q
    } else {
        q.push(c)
    }
}

/// Lets a conflict wait, where there is room; says whether there was.
pub fn queue_conflict(q: &mut Vec<PendingConflict>, c: PendingConflict) -> (r: bool)
    ensures
        conflict_views(final(q)@) == queued(conflict_views(old(q)@), c@),
        r == (old(q)@.len() < MAX_PENDING),
{
    if q.len() >= MAX_PENDING {
        false
    } else {
        let ghost was = conflict_views(q@);
        q.push(c);
        assert(conflict_views(q@) =~= was.push(c@));
        true
    }
}

/// Settles a conflict that the arbiter answered. Gives the conflict back where it is to
/// wait for another try, and says whether the old memory was dropped.
pub fn settle(
    entries: &mut Vec<MemoryItem>,
    c: PendingConflict,
    answer: Option<ArbitrationOutcome>,
    now: i64,
) -> (r: (Option<PendingConflict>, bool))
    ensures
        item_views(final(entries)@) == settled(item_views(old(entries)@), c@, verdict_of(answer), now),
        (match r.0 {
            Some(p) => Some(p@),
            None => None,
        }) == (if answer is None {
            retried(c@)
        } else {
            None
        }),
        r.1 == (verdict_of(answer) is ReplaceOld || verdict_of(answer) is MergeSupersede),
{
    match answer {
        None => (retry(c), false),
        Some(ArbitrationOutcome::KeepBoth) => (None, false),
        Some(ArbitrationOutcome::ReplaceOld) => {
            let _ = take_by_id(entries, c.old_memory_id.as_str());
            (None, true)
        },
        Some(ArbitrationOutcome::MergeSupersede(merged)) => {
            if let Some(i) = position_by_id(entries.as_slice(), c.new_memory_id.as_str()) {
                let mut m = entries[i].clone();
                m.content = merged;
                m.timestamp = now;
                put_item(entries, i, m);
            }
            let _ = take_by_id(entries, c.old_memory_id.as_str());
            (None, true)
        },
    }
}

// ---------------------------------------------------------------------------
// Finding a conflict
// ---------------------------------------------------------------------------

/// A memory that the vector index found.
#[derive(Debug)]
pub struct Candidate {
    pub memory_id: String,
    /// In millionths.
    pub score: i64,
}

/// What the vector index found.
pub open spec fn candidate_views(v: Seq<Candidate>) -> Seq<(Seq<char>, i64)> {
    v.map_values(|c: Candidate| (c.memory_id@, c.score))
}

/// Whether a found memory counts: alike enough, known and not unimportant.
pub open spec fn counts(s: Seq<ItemView>, c: (Seq<char>, i64)) -> bool {
    c.1 >= 450_000 && match last_with_id(s, c.0) {
        Some(i) => s[i].importance >= 300_000,
        None => false,
    }
}

/// The place among the candidates of the most alike that counts; the last of equals.
pub open spec fn best_candidate(s: Seq<ItemView>, found: Seq<(Seq<char>, i64)>) -> Option<int>
    decreases found.len(),
{
    if found.len() == 0 {
        None
    } else {
        let rest = best_candidate(s, found.drop_last());
        if !counts(s, found.last()) {
            rest
        } else {
            match rest {
                Some(i) => if found[i].1 > found.last().1 {
                    Some(i)
                } else {
                    Some(found.len() - 1)
                },
                None => Some(found.len() - 1),
            }
        }
    }
}

/// Of the found memories none that could be in conflict is more alike than the one that is
/// chosen. One can be in conflict when it is alike by 0.45 at least and the memory that is
/// stored last under its identifier has an importance of 0.3 at least; where there is such a
/// one, one is chosen.
pub proof fn most_alike_is_in_conflict(s: Seq<ItemView>, found: Seq<(Seq<char>, i64)>, j: int, at: int)
    requires
        0 <= j < found.len(),
        found[j].1 >= 450_000,
        0 <= at < s.len(),
        s[at].id == found[j].0,
        s[at].importance >= 300_000,
        forall|k: int| at < k < s.len() ==> (#[trigger] s[k]).id != found[j].0,
    ensures
        best_candidate(s, found) is Some,
        0 <= best_candidate(s, found)->0 < found.len(),
        found[best_candidate(s, found)->0].1 >= found[j].1,
        found[best_candidate(s, found)->0].1 == found[j].1 ==> best_candidate(s, found)->0 >= j,
    decreases found.len(),
{
    lemma_last_is(s, found[j].0, at);
    assert(counts(s, found[j]));
    let rest = found.drop_last();
    chosen_may_be_in_conflict(s, rest);
    if j < rest.len() {
        most_alike_is_in_conflict(s, rest, j, at);
        let b = best_candidate(s, rest)->0;
        assert(rest[b] == found[b]);
    } else {
        match best_candidate(s, rest) {
            Some(b) => assert(rest[b] == found[b]),
            None => {},
        }
    }
}

/// What is chosen was found, is alike by 0.45 at least, and stands for a memory that is stored
/// and has an importance of 0.3 at least.
pub proof fn chosen_may_be_in_conflict(s: Seq<ItemView>, found: Seq<(Seq<char>, i64)>)
    ensures
        best_candidate(s, found) matches Some(b) ==> 0 <= b < found.len() && found[b].1 >= 450_000
            && exists|i: int|
            0 <= i < s.len() && (#[trigger] s[i]).id == found[b].0 && s[i].importance >= 300_000,
    decreases found.len(),
{
    if found.len() > 0 {
        let rest = found.drop_last();
        chosen_may_be_in_conflict(s, rest);
        if let Some(b) = best_candidate(s, found) {
            if b < rest.len() {
                assert(rest[b] == found[b]);
            }
            lemma_last_with_id(s, found[b].0);
        }
    }
}

proof fn lemma_last_is(s: Seq<ItemView>, id: Seq<char>, at: int)
    requires
        0 <= at < s.len(),
        s[at].id == id,
        forall|k: int| at < k < s.len() ==> (#[trigger] s[k]).id != id,
    ensures
        last_with_id(s, id) == Some(at),
    decreases s.len(),
{
    if at < s.len() - 1 {
        assert(s[s.len() - 1].id != id);
        assert forall|k: int| at < k < s.drop_last().len() implies (#[trigger] s.drop_last()[k]).id
            != id by {
            assert(s[k].id != id);
        }
        lemma_last_is(s.drop_last(), id, at);
    }
}

/// The most alike candidate that counts: its place, and that of its memory.
pub fn find_best(entries: &[MemoryItem], found: &Vec<Candidate>) -> (r: Option<(usize, usize)>)
    ensures
        match r {
            Some(p) => best_candidate(item_views(entries@), candidate_views(found@)) == Some(
                p.0 as int,
            ) && p.0 < found@.len() && p.1 < entries@.len() && last_with_id(
                item_views(entries@),
                found@[p.0 as int].memory_id@,
            ) == Some(p.1 as int),
            None => best_candidate(item_views(entries@), candidate_views(found@)) is None,
        },
        forall|j: int, at: int|
            0 <= j < found@.len() && 0 <= at < entries@.len() && (#[trigger] found@[j]).score >= 450_000
                && (#[trigger] entries@[at]).importance >= 300_000 && entries@[at].id@
                == found@[j].memory_id@ && (forall|k: int|
                at < k < entries@.len() ==> (#[trigger] entries@[k]).id@ != found@[j].memory_id@) ==> (
            r matches Some(p) && found@[j].score <= found@[p.0 as int].score),
{
    let ghost s = item_views(entries@);
    let ghost all = candidate_views(found@);
    let mut best: Option<(usize, usize)> = None;
    let mut i: usize = 0;
    assert(all.take(0) =~= Seq::empty());
    while i < found.len()
        invariant
            i <= found@.len(),
            s == item_views(entries@),
            all == candidate_views(found@),
            match best {
                Some(p) => best_candidate(s, all.take(i as int)) == Some(p.0 as int) && p.0 < i && p.1
                    < entries@.len() && last_with_id(s, found@[p.0 as int].memory_id@) == Some(
                    p.1 as int,
                ),
                None => best_candidate(s, all.take(i as int)) is None,
            },
        decreases found@.len() - i,
    {
        proof {
            let t = all.take(i + 1);
            assert(t.drop_last() =~= all.take(i as int));
            assert(t.last() == (found@[i as int].memory_id@, found@[i as int].score));
            if best is Some {
                let b = (best->0).0 as int;
                assert(t[b] == (found@[b].memory_id@, found@[b].score));
            }
        }
        if found[i].score >= 450_000 {
            if let Some(k) = position_by_id(entries, found[i].memory_id.as_str()) {
                assert(s[k as int] == entries@[k as int]@);
                if entries[k].importance >= 300_000 {
                    match best {
                        Some((b, _)) => {
                            if found[b].score <= found[i].score {
                                best = Some((i, k));
                            }
                        },
                        None => {
                            best = Some((i, k));
                        },
                    }
                }
            }
        }
        i += 1;
    }
    assert(all.take(i as int) =~= all);
    proof {
        assert forall|j: int, at: int|
            0 <= j < found@.len() && 0 <= at < entries@.len() && (#[trigger] found@[j]).score >= 450_000 && (
            #[trigger] entries@[at]).importance >= 300_000 && entries@[at].id@ == found@[j].memory_id@ && (
            forall|k: int|
                at < k < entries@.len() ==> (#[trigger] entries@[k]).id@ != found@[j].memory_id@) implies (
        best matches Some(p) && found@[j].score <= found@[p.0 as int].score) by {
            assert(s[at] == entries@[at]@);
            assert(all[j] == (found@[j].memory_id@, found@[j].score));
            assert forall|k: int| at < k < s.len() implies (#[trigger] s[k]).id != all[j].0 by {
                assert(s[k] == entries@[k]@);
                assert(entries@[k].id@ != found@[j].memory_id@);
            }
            most_alike_is_in_conflict(s, all, j, at);
            let b = best_candidate(s, all)->0;
            assert(all[b] == (found@[b].memory_id@, found@[b].score));
        }
    }
    best
}

/// What the scoring of a conflict calls for.
#[derive(Debug, Clone, Copy, PartialEq, Eq, Structural)]
pub enum ConflictAction {
    KeepBoth,
    ReplaceOld,
    MergeSupersede,
    QueueLlm,
}

/// What is to be done about the conflict of a new memory.
#[derive(Debug)]
pub enum ConflictOutcome {
    KeepBoth,
    ReplaceOld { old_id: String },
    MergeSupersede { old_id: String, old_content: String },
    /// Wait for the arbiter.
    QueueLlm { old_id: String, old_content: String, similarity: i64 },
}

/// What is to be done, over views.
pub enum OutcomeView {
    KeepBoth,
    ReplaceOld(Seq<char>),
    MergeSupersede(Seq<char>, Seq<char>),
    QueueLlm(Seq<char>, Seq<char>, i64),
}

impl View for ConflictOutcome {
    type V = OutcomeView;

    open spec fn view(&self) -> OutcomeView {
        match self {
            ConflictOutcome::KeepBoth => OutcomeView::KeepBoth,
            ConflictOutcome::ReplaceOld { old_id } => OutcomeView::ReplaceOld(old_id@),
            ConflictOutcome::MergeSupersede { old_id, old_content } => OutcomeView::MergeSupersede(
                old_id@,
                old_content@,
            ),
            ConflictOutcome::QueueLlm { old_id, old_content, similarity } => OutcomeView::QueueLlm(
                old_id@,
                old_content@,
                *similarity,
            ),
        }
    }
}

/// Whether a search found the memory within the last hour.
pub open spec fn injected_lately(m: ItemView, now: i64) -> bool {
    m.visit_count > 0 && now - m.last_visit_at < 3_600_000
}

/// Whether a search found the memory within the last hour.
pub fn recently_injected(m: &MemoryItem, now: i64) -> (r: bool)
    ensures
        r == injected_lately(m@, now),
{
    m.visit_count > 0 && (now as i128 - m.last_visit_at as i128) < 3_600_000
}

/// What an action means for the most alike candidate that counts.
pub open spec fn outcome_for(
    s: Seq<ItemView>,
    found: Seq<(Seq<char>, i64)>,
    action: ConflictAction,
) -> OutcomeView {
    match best_candidate(s, found) {
        None => OutcomeView::KeepBoth,
        Some(b) => {
            let m = s[last_with_id(s, found[b].0)->0];
            match action {
                ConflictAction::KeepBoth => OutcomeView::KeepBoth,
                ConflictAction::ReplaceOld => OutcomeView::ReplaceOld(m.id),
                ConflictAction::MergeSupersede => OutcomeView::MergeSupersede(m.id, m.content),
                ConflictAction::QueueLlm => OutcomeView::QueueLlm(m.id, m.content, found[b].1),
            }
        },
    }
}

/// What is to be done about the conflict of a new memory with the most alike candidate
/// that counts, when its scoring called for `action`.
pub fn detect_memory_conflict(
    entries: &[MemoryItem],
    found: &Vec<Candidate>,
    action: ConflictAction,
) -> (r: ConflictOutcome)
    ensures
        r@ == outcome_for(item_views(entries@), candidate_views(found@), action),
{
    match find_best(entries, found) {
        None => ConflictOutcome::KeepBoth,
        Some((b, k)) => {
            let m = &entries[k];
            proof {
                assert(item_views(entries@)[k as int] == m@);
                assert(candidate_views(found@)[b as int] == (found@[b as int].memory_id@, found@[b as int].score));
            }
            match action {
                ConflictAction::KeepBoth => ConflictOutcome::KeepBoth,
                ConflictAction::ReplaceOld => ConflictOutcome::ReplaceOld { old_id: m.id.clone() },
                ConflictAction::MergeSupersede => ConflictOutcome::MergeSupersede {
                    old_id: m.id.clone(),
                    old_content: m.content.clone(),
                },
                ConflictAction::QueueLlm => ConflictOutcome::QueueLlm {
                    old_id: m.id.clone(),
                    old_content: m.content.clone(),
                    similarity: found[b].score,
                },
            }
        },
    }
}

/// Acting on a conflict strikes the found memory that is most alike among those that may be in
/// conflict, and no other: it is replaced, merged or put before the arbiter under its own
/// identifier, with its own content and likeness. Where no action is called for both stay.
pub proof fn conflict_is_with_the_most_alike(
    s: Seq<ItemView>,
    found: Seq<(Seq<char>, i64)>,
    action: ConflictAction,
    j: int,
    at: int,
)
    requires
        0 <= j < found.len(),
        found[j].1 >= 450_000,
        0 <= at < s.len(),
        s[at].id == found[j].0,
        s[at].importance >= 300_000,
        forall|k: int| at < k < s.len() ==> (#[trigger] s[k]).id != found[j].0,
    ensures
        match outcome_for(s, found, action) {
            OutcomeView::KeepBoth => action is KeepBoth,
            OutcomeView::ReplaceOld(id) => action is ReplaceOld && exists|b: int|
                0 <= b < found.len() && (#[trigger] found[b]).0 == id && found[b].1 >= found[j].1,
            OutcomeView::MergeSupersede(id, text) => action is MergeSupersede && exists|b: int, i: int|
                0 <= b < found.len() && 0 <= i < s.len() && (#[trigger] found[b]).0 == id
                    && found[b].1 >= found[j].1 && (#[trigger] s[i]).id == id && s[i].content == text,
            OutcomeView::QueueLlm(id, text, alike) => action is QueueLlm && exists|b: int, i: int|
                0 <= b < found.len() && 0 <= i < s.len() && (#[trigger] found[b]).0 == id
                    && found[b].1 == alike && alike >= found[j].1 && (#[trigger] s[i]).id == id
                    && s[i].content == text,
        },
{
    most_alike_is_in_conflict(s, found, j, at);
    chosen_may_be_in_conflict(s, found);
    let b = best_candidate(s, found)->0;
    lemma_last_with_id(s, found[b].0);
    let i = last_with_id(s, found[b].0)->0;
    assert(s[i].id == found[b].0);
}

/// Where no found memory is alike enough, important enough and stored, both stay.
pub proof fn no_conflict_keeps_both(s: Seq<ItemView>, found: Seq<(Seq<char>, i64)>, action: ConflictAction)
    requires
        forall|j: int, i: int|
            0 <= j < found.len() && 0 <= i < s.len() && (#[trigger] s[i]).id == (#[trigger] found[j]).0
                ==> found[j].1 < 450_000 || s[i].importance < 300_000,
    ensures
        outcome_for(s, found, action) is KeepBoth,
{
    chosen_may_be_in_conflict(s, found);
}

/// Whether a memory of that type is meant to last.
pub open spec fn lasting(memory_type: Seq<char>) -> bool {
    match memory_type_named(memory_type) {
        Some(MemoryType::LongTerm) => true,
        Some(MemoryType::Preference) => true,
        Some(MemoryType::Identity) => true,
        Some(MemoryType::ImportantEvent) => true,
        Some(MemoryType::Knowledge) => true,
        Some(MemoryType::User) => true,
        Some(MemoryType::Feedback) => true,
        _ => false,
    }
}

fn is_lasting(memory_type: &str) -> (r: bool)
    ensures
        r == lasting(memory_type@),
{
    match MemoryType::from_str(memory_type) {
        Some(MemoryType::LongTerm) => true,
        Some(MemoryType::Preference) => true,
        Some(MemoryType::Identity) => true,
        Some(MemoryType::ImportantEvent) => true,
        Some(MemoryType::Knowledge) => true,
        Some(MemoryType::User) => true,
        Some(MemoryType::Feedback) => true,
        _ => false,
    }
}

/// The found memories that count and are meant to last: identifier, content, similarity.
pub open spec fn similar_lasting(s: Seq<ItemView>, found: Seq<(Seq<char>, i64)>) -> Seq<
    (Seq<char>, Seq<char>, i64),
>
    decreases found.len(),
{
    if found.len() == 0 {
        Seq::<(Seq<char>, Seq<char>, i64)>::empty()
    } else {
        let rest = similar_lasting(s, found.drop_last());
        let c = found.last();
        if counts(s, c) && lasting(s[last_with_id(s, c.0)->0].memory_type) {
            let m = s[last_with_id(s, c.0)->0];
            rest.push((m.id, m.content, c.1))
        } else {
            rest
        }
    }
}

/// The found memories, over views.
pub open spec fn similar_views(v: Seq<(String, String, i64)>) -> Seq<(Seq<char>, Seq<char>, i64)> {
    v.map_values(|t: (String, String, i64)| (t.0@, t.1@, t.2))
}

/// The found memories that count and are meant to last, most alike first.
pub open spec fn most_similar(s: Seq<ItemView>, found: Seq<(Seq<char>, i64)>) -> Seq<(Seq<char>, Seq<char>, i64)> {
    let l = similar_lasting(s, found);
    ranked(l, similarity_keys(l), l.len() as int)
}

/// How alike the memories are.
pub open spec fn similarity_keys(l: Seq<(Seq<char>, Seq<char>, i64)>) -> Seq<i128> {
    l.map_values(|t: (Seq<char>, Seq<char>, i64)| t.2 as i128)
}

/// A similar memory was found, is alike by 0.45 at least, and is stored under its identifier
/// with its content, an importance of 0.3 at least and a type that is meant to last.
pub proof fn similar_memories_are_stored(s: Seq<ItemView>, found: Seq<(Seq<char>, i64)>, i: int)
    requires
        0 <= i < most_similar(s, found).len(),
    ensures
        ({
            let r = most_similar(s, found)[i];
            &&& found.contains((r.0, r.2))
            &&& r.2 >= 450_000
            &&& exists|k: int|
                0 <= k < s.len() && (#[trigger] s[k]).id == r.0 && s[k].content == r.1 && s[k].importance
                    >= 300_000 && (s[k].memory_type == "long_term"@ || s[k].memory_type == "preference"@
                    || s[k].memory_type == "identity"@ || s[k].memory_type == "important_event"@
                    || s[k].memory_type == "knowledge"@ || s[k].memory_type == "user"@ || s[k].memory_type
                    == "feedback"@)
        }),
{
    let l = similar_lasting(s, found);
    order_sorts(similarity_keys(l));
    lemma_similar(s, found, order_of(similarity_keys(l))[i]);
}

proof fn lemma_similar(s: Seq<ItemView>, found: Seq<(Seq<char>, i64)>, i: int)
    requires
        0 <= i < similar_lasting(s, found).len(),
    ensures
        ({
            let r = similar_lasting(s, found)[i];
            &&& found.contains((r.0, r.2))
            &&& r.2 >= 450_000
            &&& exists|k: int|
                0 <= k < s.len() && (#[trigger] s[k]).id == r.0 && s[k].content == r.1 && s[k].importance
                    >= 300_000 && (s[k].memory_type == "long_term"@ || s[k].memory_type == "preference"@
                    || s[k].memory_type == "identity"@ || s[k].memory_type == "important_event"@
                    || s[k].memory_type == "knowledge"@ || s[k].memory_type == "user"@ || s[k].memory_type
                    == "feedback"@)
        }),
    decreases found.len(),
{
    let rest = found.drop_last();
    if i < similar_lasting(s, rest).len() {
        lemma_similar(s, rest, i);
        let r = similar_lasting(s, found)[i];
        assert(found[rest.index_of((r.0, r.2))] == (r.0, r.2));
    } else {
        let c = found.last();
        lemma_last_with_id(s, c.0);
        lemma_lasting_names(s[last_with_id(s, c.0)->0].memory_type);
        assert(found[found.len() - 1] == c);
    }
}

/// Every found memory that is alike by 0.45 at least, stored last under its identifier with an
/// importance of 0.3 at least and meant to last is among the similar ones.
pub proof fn similar_memories_are_all_given(s: Seq<ItemView>, found: Seq<(Seq<char>, i64)>, j: int, at: int)
    requires
        0 <= j < found.len(),
        found[j].1 >= 450_000,
        0 <= at < s.len(),
        s[at].id == found[j].0,
        s[at].importance >= 300_000,
        s[at].memory_type == "long_term"@ || s[at].memory_type == "preference"@ || s[at].memory_type
            == "identity"@ || s[at].memory_type == "important_event"@ || s[at].memory_type == "knowledge"@
            || s[at].memory_type == "user"@ || s[at].memory_type == "feedback"@,
        forall|k: int| at < k < s.len() ==> (#[trigger] s[k]).id != found[j].0,
    ensures
        most_similar(s, found).contains((found[j].0, s[at].content, found[j].1)),
{
    lemma_lasting_names(s[at].memory_type);
    lemma_last_is(s, found[j].0, at);
    lemma_similar_has(s, found, j);
    let l = similar_lasting(s, found);
    let want = (found[j].0, s[at].content, found[j].1);
    ranking_gives_the_best(
        l,
        similarity_keys(l),
        l.len() as int,
        |t: (Seq<char>, Seq<char>, i64)| t.2 as int,
    );
    assert(l[l.index_of(want)] == want);
}

proof fn lemma_similar_has(s: Seq<ItemView>, found: Seq<(Seq<char>, i64)>, j: int)
    requires
        0 <= j < found.len(),
        counts(s, found[j]),
        lasting(s[last_with_id(s, found[j].0)->0].memory_type),
    ensures
        ({
            let m = s[last_with_id(s, found[j].0)->0];
            similar_lasting(s, found).contains((m.id, m.content, found[j].1))
        }),
    decreases found.len(),
{
    let rest = found.drop_last();
    let m = s[last_with_id(s, found[j].0)->0];
    let want = (m.id, m.content, found[j].1);
    if j < rest.len() {
        assert(rest[j] == found[j]);
        lemma_similar_has(s, rest, j);
        let l = similar_lasting(s, rest);
        assert(similar_lasting(s, found)[l.index_of(want)] == want);
    } else {
        assert(similar_lasting(s, found)[similar_lasting(s, rest).len() as int] == want);
    }
}

proof fn lemma_lasting_names(t: Seq<char>)
    ensures
        lasting(t) == (t == "long_term"@ || t == "preference"@ || t == "identity"@ || t == "important_event"@
            || t == "knowledge"@ || t == "user"@ || t == "feedback"@),
{
    memory_type_name_round_trip(MemoryType::LongTerm, t);
    memory_type_name_round_trip(MemoryType::Preference, t);
    memory_type_name_round_trip(MemoryType::Identity, t);
    memory_type_name_round_trip(MemoryType::ImportantEvent, t);
    memory_type_name_round_trip(MemoryType::Knowledge, t);
    memory_type_name_round_trip(MemoryType::User, t);
    memory_type_name_round_trip(MemoryType::Feedback, t);
}

/// The similar memories come most alike first.
pub proof fn similar_memories_come_in_order(s: Seq<ItemView>, found: Seq<(Seq<char>, i64)>, i: int, j: int)
    requires
        0 <= i < j < most_similar(s, found).len(),
    ensures
        most_similar(s, found)[i].2 >= most_similar(s, found)[j].2,
{
    let l = similar_lasting(s, found);
    order_sorts(similarity_keys(l));
    let p = order_of(similarity_keys(l));
    assert(before(similarity_keys(l), p[i], p[j]));
}

fn sort_similar(list: &Vec<(String, String, i64)>) -> (out: Vec<(String, String, i64)>)
    ensures
        similar_views(out@) == ranked(
            similar_views(list@),
            similarity_keys(similar_views(list@)),
            list@.len() as int,
        ),
{
    let ghost all = similar_views(list@);
    let ghost want_keys = similarity_keys(all);
    let mut keys: Vec<i128> = Vec::new();
    let mut i: usize = 0;
    while i < list.len()
        invariant
            i <= list@.len(),
            all == similar_views(list@),
            want_keys == similarity_keys(all),
            keys@ == want_keys.take(i as int),
        decreases list@.len() - i,
    {
        assert(all[i as int].2 == list@[i as int].2);
        keys.push(list[i].2 as i128);
        i += 1;
        assert(want_keys.take(i as int) =~= want_keys.take(i - 1).push(want_keys[i - 1]));
    }
    assert(want_keys.take(i as int) =~= want_keys);
    let p = order_desc(&keys);
    let ghost want = ranked(all, want_keys, all.len() as int);
    let mut out: Vec<(String, String, i64)> = Vec::new();
    let mut k: usize = 0;
    assert(similar_views(out@) =~= want.take(0));
    while k < p.len()
        invariant
            k <= p@.len(),
            p@.len() == list@.len(),
            all == similar_views(list@),
            want == ranked(all, want_keys, all.len() as int),
            want.len() == p@.len(),
            positions(p@) == order_of(want_keys),
            forall|j: int| 0 <= j < p@.len() ==> (#[trigger] p@[j]) < list@.len(),
            similar_views(out@) == want.take(k as int),
        decreases p@.len() - k,
    {
        let at: usize = p[k];
        let ghost prev = similar_views(out@);
        let t = &list[at];
        assert(positions(p@)[k as int] == at as int);
        assert(all[at as int] == (list@[at as int].0@, list@[at as int].1@, list@[at as int].2));
        out.push((t.0.clone(), t.1.clone(), t.2));
        assert(similar_views(out@) =~= prev.push(want[k as int]));
        k += 1;
        assert(want.take(k as int) =~= want.take(k - 1).push(want[k - 1]));
    }
    assert(want.take(k as int) =~= want);
    out
}

/// The found memories that count and are meant to last, most alike first.
pub fn find_similar_persistent_memories(entries: &[MemoryItem], found: &Vec<Candidate>) -> (out: Vec<
    (String, String, i64),
>)
    ensures
        similar_views(out@) == most_similar(item_views(entries@), candidate_views(found@)),
{
    let ghost s = item_views(entries@);
    let ghost all = candidate_views(found@);
    let mut out: Vec<(String, String, i64)> = Vec::new();
    let mut i: usize = 0;
    assert(similar_views(out@) =~= similar_lasting(s, all.take(0)));
    while i < found.len()
        invariant
            i <= found@.len(),
            s == item_views(entries@),
            all == candidate_views(found@),
            similar_views(out@) == similar_lasting(s, all.take(i as int)),
        decreases found@.len() - i,
    {
        proof {
            assert(all.take(i + 1).drop_last() =~= all.take(i as int));
            assert(all.take(i + 1).last() == (found@[i as int].memory_id@, found@[i as int].score));
        }
        if found[i].score >= 450_000 {
            if let Some(k) = position_by_id(entries, found[i].memory_id.as_str()) {
                let m = &entries[k];
                assert(s[k as int] == m@);
                if m.importance >= 300_000 && is_lasting(m.memory_type.as_str()) {
                    let ghost prev = similar_views(out@);
                    out.push((m.id.clone(), m.content.clone(), found[i].score));
                    assert(similar_views(out@) =~= prev.push(
                        (m@.id, m@.content, found@[i as int].score),
                    ));
                }
            }
        }
        i += 1;
    }
    assert(all.take(i as int) =~= all);
    assert(similar_views(out@).len() == out@.len());
    sort_similar(&out)
}

} // verus!
