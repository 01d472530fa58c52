//! What the stages of consolidation promise: which memories each of them works on, when it
//! is due, and what becomes of what it finds.

use crate::consolidation::{is_buffered, keywords_in, most_alike, most_shared, shared_target};
use crate::manager::ManagerView;
use crate::pipeline::{episode_topic, first_live, merge_plan, merged_summary, summing, SummaryView};
use crate::select::{filter_from, filter_has, kept, kept_from, kept_has};
use crate::stages::{counters_reset, fact_kind, gate, hot_flags, is_hot, lasting_kinds, lasts, latest_time,
    lemma_backoff_place, backoff_place, most_sources, musing, new_ltm_flags, notified, reinforce_target,
    reinforced_insight, said_again, shared_sources, stage1_trigger, stage3_due, with_failure, Gate, InsightView,
    PipelineView, Stage1Trigger};
use crate::store::is_live;
use crate::tokens::{overlap_counts_words, shared_counts_words};
use crate::types::{count_at, is_storable_time, list_at, text_at, ItemView, MetaView};
use vstd::prelude::*;
use vstd::string::*;

verus! {

// ---------------------------------------------------------------------------
// What each stage works on
// ---------------------------------------------------------------------------

proof fn lemma_live(entries: Seq<ItemView>, x: ItemView)
    ensures
        entries.filter(is_live()).contains(x) <==> entries.contains(x) && !x.consolidated,
{
    let test = is_live();
    if entries.filter(test).contains(x) {
        filter_from(entries, test, entries.filter(test).index_of(x));
    }
    if entries.contains(x) && !x.consolidated {
        filter_has(entries, test, entries.index_of(x));
    }
}

/// The short-term memories that are summed up are those that are not archived, are neither
/// thoughts nor notes of an observer, and were not recorded from an observer's view: each of
/// them, and no other.
pub proof fn short_term_is_summed_up(entries: Seq<ItemView>, x: ItemView)
    ensures
        entries.filter(is_live()).filter(is_buffered()).contains(x) <==> {
            &&& entries.contains(x)
            &&& !x.consolidated
            &&& x.tags.contains("short_term"@) || text_at(x.metadata, "memory_type"@) == Some("short_term"@)
            &&& !x.tags.contains("inner_monologue"@)
            &&& text_at(x.metadata, "memory_type"@) != Some("inner_monologue"@)
            &&& !x.tags.contains("observation_note"@)
            &&& text_at(x.metadata, "memory_type"@) != Some("observation_note"@)
            &&& text_at(x.metadata, "perspective"@) != Some("observer"@)
        },
{
    let live = entries.filter(is_live());
    lemma_live(entries, x);
    let short = live.filter(is_buffered());
    if short.contains(x) {
        filter_from(live, is_buffered(), short.index_of(x));
    }
    if live.contains(x) && is_buffered()(x) {
        filter_has(live, is_buffered(), live.index_of(x));
    }
}

/// Facts are drawn from summaries of sessions only, and only from those that are warm, with a
/// heat of 2.5 at least, or that nobody looked at for a day.
pub proof fn facts_come_of_warm_summaries(live: Seq<ItemView>, heats: Seq<i64>, now: i64, k: int) -> (i: int)
    requires
        heats.len() == live.len(),
        0 <= k < kept(live, hot_flags(live, heats, now)).len(),
    ensures
        0 <= i < live.len(),
        live[i] == kept(live, hot_flags(live, heats, now))[k],
        live[i].tags.contains("session_summary"@) || text_at(live[i].metadata, "memory_type"@) == Some(
            "session_summary"@,
        ),
        heats[i] >= 2_500_000 || (live[i].visit_count == 0 && live[i].timestamp + 86_400_000 <= now),
{
    let at = kept_from(live, hot_flags(live, heats, now), k);
    assert(is_hot(live[at], heats[at], now));
    at
}

/// Every summary of a session that is warm, or that nobody looked at for a day, is among those
/// from which facts are drawn.
pub proof fn warm_summaries_give_facts(live: Seq<ItemView>, heats: Seq<i64>, now: i64, i: int)
    requires
        heats.len() == live.len(),
        0 <= i < live.len(),
        live[i].tags.contains("session_summary"@) || text_at(live[i].metadata, "memory_type"@) == Some(
            "session_summary"@,
        ),
        heats[i] >= 2_500_000 || (live[i].visit_count == 0 && live[i].timestamp + 86_400_000 <= now),
    ensures
        kept(live, hot_flags(live, heats, now)).contains(live[i]),
{
    kept_has(live, hot_flags(live, heats, now), i);
}

/// Insights are drawn from the lasting memories that are not archived and were made at or
/// after the last reflection: each of them, and no other. Before the first reflection all
/// times count.
pub proof fn insights_come_of_what_is_new(entries: Seq<ItemView>, since: u64, x: ItemView)
    ensures
        kept(
            entries.filter(is_live()),
            new_ltm_flags(entries.filter(is_live()), since),
        ).contains(x) <==> {
            &&& entries.contains(x)
            &&& !x.consolidated
            &&& since == 0 || x.timestamp >= since * 1000
            &&& x.tags.contains("long_term"@) || x.tags.contains("user"@) || x.tags.contains("preference"@)
                || x.tags.contains("important_event"@) || x.tags.contains("feedback"@)
                || x.tags.contains("knowledge"@) || text_at(x.metadata, "memory_type"@) == Some("long_term"@)
                || text_at(x.metadata, "memory_type"@) == Some("user"@) || text_at(
                x.metadata,
                "memory_type"@,
            ) == Some("preference"@) || text_at(x.metadata, "memory_type"@) == Some("important_event"@)
                || text_at(x.metadata, "memory_type"@) == Some("feedback"@) || text_at(
                x.metadata,
                "memory_type"@,
            ) == Some("knowledge"@)
        },
{
    let live = entries.filter(is_live());
    let flags = new_ltm_flags(live, since);
    let new = kept(live, flags);
    lemma_live(entries, x);
    lemma_lasts(x);
    if new.contains(x) {
        let at = kept_from(live, flags, new.index_of(x));
        assert(flags[at] == (!(since > 0 && live[at].timestamp < since * 1000) && lasts(live[at])));
        assert(live.contains(x));
    }
    if live.contains(x) && !(since > 0 && x.timestamp < since * 1000) && lasts(x) {
        kept_has(live, flags, live.index_of(x));
    }
}

proof fn lemma_lasts(x: ItemView)
    ensures
        lasts(x) == (x.tags.contains("long_term"@) || x.tags.contains("user"@) || x.tags.contains(
            "preference"@,
        ) || x.tags.contains("important_event"@) || x.tags.contains("feedback"@) || x.tags.contains(
            "knowledge"@,
        ) || text_at(x.metadata, "memory_type"@) == Some("long_term"@) || text_at(
            x.metadata,
            "memory_type"@,
        ) == Some("user"@) || text_at(x.metadata, "memory_type"@) == Some("preference"@) || text_at(
            x.metadata,
            "memory_type"@,
        ) == Some("important_event"@) || text_at(x.metadata, "memory_type"@) == Some("feedback"@)
            || text_at(x.metadata, "memory_type"@) == Some("knowledge"@)),
{
    let kinds = lasting_kinds();
    assert(kinds.len() == 6);
    assert forall|t: Seq<char>| #[trigger] kinds.contains(t) == (t == "long_term"@ || t == "user"@ || t
        == "preference"@ || t == "important_event"@ || t == "feedback"@ || t == "knowledge"@) by {
        assert(kinds[0] == "long_term"@ && kinds[1] == "user"@ && kinds[2] == "preference"@ && kinds[3]
            == "important_event"@ && kinds[4] == "feedback"@ && kinds[5] == "knowledge"@);
        if kinds.contains(t) {
            let i = kinds.index_of(t);
            assert(i == 0 || i == 1 || i == 2 || i == 3 || i == 4 || i == 5);
        }
    }
    assert forall|t: Seq<char>| kinds.contains(t) && #[trigger] x.tags.contains(t) implies lasts(x) by {
        assert(kinds.contains(x.tags[x.tags.index_of(t)]));
    }
    if exists|k: int| 0 <= k < x.tags.len() && kinds.contains(#[trigger] x.tags[k]) {
        let k = choose|k: int| 0 <= k < x.tags.len() && kinds.contains(#[trigger] x.tags[k]);
        assert(x.tags.contains(x.tags[k]));
    }
}

// ---------------------------------------------------------------------------
// When a stage is due
// ---------------------------------------------------------------------------

proof fn lemma_latest(s: Seq<ItemView>)
    ensures
        forall|k: int| 0 <= k < s.len() ==> (#[trigger] s[k]).timestamp <= latest_time(s),
        s.len() > 0 ==> exists|k: int| 0 <= k < s.len() && (#[trigger] s[k]).timestamp == latest_time(s),
    decreases s.len(),
{
    if s.len() > 0 {
        let r = s.drop_last();
        lemma_latest(r);
        assert forall|k: int| 0 <= k < s.len() implies (#[trigger] s[k]).timestamp <= latest_time(s) by {
            if k < r.len() {
                assert(r[k] == s[k]);
            }
        }
        if s.last().timestamp > latest_time(r) {
            assert(s[s.len() - 1].timestamp == latest_time(s));
        } else if r.len() > 0 {
            let k = choose|k: int| 0 <= k < r.len() && (#[trigger] r[k]).timestamp == latest_time(r);
            assert(s[k].timestamp == latest_time(s));
        } else {
            assert(s[0].timestamp == latest_time(s));
        }
    }
}

/// Nothing is summed up where nothing waits, or within two minutes of the last time. Else it
/// is as soon as enough memories wait, and also when none of those that wait is younger than
/// the idle time.
pub proof fn summing_up_waits_for_enough_or_quiet(p: PipelineView, short: Seq<ItemView>, now: i64)
    ensures
        ({
            let rested = p.last_stage1_at == 0 || now >= p.last_stage1_at * 1000 + 120_000;
            let quiet = forall|k: int|
                0 <= k < short.len() ==> now - (#[trigger] short[k]).timestamp >= p.idle_timeout && now
                    >= short[k].timestamp;
            match stage1_trigger(p, short, now) {
                None => short.len() == 0 || !rested || (short.len() < p.short_term_threshold && !quiet),
                Some(Stage1Trigger::Count) => short.len() > 0 && rested && short.len()
                    >= p.short_term_threshold,
                Some(Stage1Trigger::Idle) => short.len() > 0 && rested && short.len()
                    < p.short_term_threshold && quiet,
            }
        }),
{
    lemma_latest(short);
}

/// A new lasting memory calls for insights when it is the fifth at least, or when the
/// importance of the new ones together is eight at least, counted in hundredths; else not.
pub proof fn enough_new_memories_call_for_insights(p: PipelineView, importance: i64)
    requires
        p.new_ltm_count < usize::MAX,
        0 <= importance <= 1_000_000,
        p.new_ltm_importance_sum <= 1_000_000_000,
    ensures
        stage3_due(notified(p, importance)) <==> p.new_ltm_count + 1 >= 5 || p.new_ltm_importance_sum + (
        importance + 5_000) / 10_000 >= 800,
        notified(p, importance).new_ltm_count == p.new_ltm_count + 1,
        !stage3_due(counters_reset(p)),
{
}

/// How long a failed batch waits grows with its failures: two minutes after the first, four
/// after the second, and eight after every later one, no longer and no shorter.
pub proof fn failed_batch_waits_longer(
    done: Seq<Seq<char>>,
    failed: Seq<(Seq<char>, u32, i64)>,
    key: Seq<char>,
    now: i64,
    later: i64,
    i: int,
)
    requires
        !done.contains(key),
        is_storable_time(now),
        0 <= i <= failed.len(),
        i < failed.len() ==> failed[i].0 == key,
        forall|k: int| 0 <= k < i ==> (#[trigger] failed[k]).0 != key,
    ensures
        ({
            let wait: int = if i == failed.len() || failed[i].1 == 0 {
                120_000
            } else if failed[i].1 == 1 {
                240_000
            } else {
                480_000
            };
            gate(done, with_failure(failed, key, now), key, later) == (if later < now + wait {
                Gate::Backoff
            } else {
                Gate::Open
            })
        }),
{
    lemma_backoff_place(failed, key);
    let at = backoff_place(failed, key);
    if at < i {
        assert(failed[at].0 != key);
    } else if i < at {
        assert(failed[i].0 != key);
    }
    let r = with_failure(failed, key, now);
    lemma_backoff_place(r, key);
    let k = backoff_place(r, key);
    assert(r[i].0 == key);
    if k < i {
        assert(r[k] == failed[k]);
    } else if i < k {
        assert(r[i].0 != key);
    }
}

// ---------------------------------------------------------------------------
// What new texts continue
// ---------------------------------------------------------------------------

/// A new summary continues the one that it is most like, the first of equals, and only one
/// that it is like by more than six tenths.
pub proof fn summary_continues_the_most_alike(sims: Seq<Option<i64>>)
    ensures
        match most_alike(sims, sims.len()).0 {
            Some(i) => 0 <= i < sims.len() && sims[i] is Some && sims[i]->0 > 600_000 && (forall|k: int|
                0 <= k < sims.len() && (#[trigger] sims[k]) is Some ==> sims[k]->0 <= sims[i]->0) && (
            forall|k: int| 0 <= k < i && (#[trigger] sims[k]) is Some ==> sims[k]->0 < sims[i]->0),
            None => forall|k: int|
                0 <= k < sims.len() && (#[trigger] sims[k]) is Some ==> sims[k]->0 <= 600_000,
        },
{
    lemma_most_alike(sims, sims.len());
}

proof fn lemma_most_alike(sims: Seq<Option<i64>>, n: nat)
    requires
        n <= sims.len(),
    ensures
        match most_alike(sims, n).0 {
            Some(i) => 0 <= i < n && sims[i] is Some && sims[i]->0 == most_alike(sims, n).1 && sims[i]->0
                > 600_000 && (forall|k: int|
                0 <= k < n && (#[trigger] sims[k]) is Some ==> sims[k]->0 <= sims[i]->0) && (forall|k: int|
                0 <= k < i && (#[trigger] sims[k]) is Some ==> sims[k]->0 < sims[i]->0),
            None => most_alike(sims, n).1 == 600_000 && forall|k: int|
                0 <= k < n && (#[trigger] sims[k]) is Some ==> sims[k]->0 <= 600_000,
        },
    decreases n,
{
    if n > 0 {
        lemma_most_alike(sims, (n - 1) as nat);
    }
}

/// The share of the keywords of two texts that both have: how many, and of how many.
pub open spec fn keyword_share(a: Seq<char>, b: Seq<char>) -> (nat, nat) {
    (
        keywords_in(a).to_set().intersect(keywords_in(b).to_set()).len(),
        keywords_in(a).to_set().union(keywords_in(b).to_set()).len(),
    )
}

/// By keywords a new summary continues one with which it shares more than six tenths of their
/// keywords, and no other shares a larger part; where one shares so much, one is continued.
pub proof fn summary_continues_by_keywords(new: Seq<char>, there: Seq<ItemView>, k: int)
    requires
        0 <= k < there.len(),
    ensures
        match shared_target(new, there) {
            Some(i) => {
                let best = keyword_share(new, there[i].content);
                let other = keyword_share(new, there[k].content);
                &&& 0 <= i < there.len()
                &&& best.0 * 10 > best.1 * 6
                &&& best.0 * other.1 >= other.0 * best.1
            },
            None => {
                let other = keyword_share(new, there[k].content);
                other.0 * 10 <= other.1 * 6
            },
        },
{
    let words = keywords_in(new);
    if words.len() == 0 {
        let other = keywords_in(there[k].content);
        assert(words.to_set().intersect(other.to_set()) =~= Set::<Seq<char>>::empty());
    } else {
        lemma_most_shared(words, there, there.len(), k);
        if let Some(i) = shared_target(new, there) {
            overlap_counts_words(words, keywords_in(there[i].content));
        }
        overlap_counts_words(words, keywords_in(there[k].content));
    }
}

proof fn lemma_share_order(a: nat, b: nat, c: nat, d: nat, e: nat, f: nat)
    requires
        a * d <= c * b,
        c * f < e * d,
        d > 0,
        f > 0,
    ensures
        a * f <= e * b,
{
    assert(a * f <= e * b) by (nonlinear_arith)
        requires
            a * d <= c * b,
            c * f < e * d,
            d > 0,
            f > 0,
            a >= 0,
            b >= 0,
            c >= 0,
            e >= 0,
    {
        assert((a * d) * f <= (c * b) * f);
        assert((c * f) * b <= (e * d) * b);
        assert((a * f) * d <= (e * b) * d);
    }
}

proof fn lemma_overlap_positive(a: Seq<Seq<char>>, b: Seq<Seq<char>>)
    requires
        a.len() > 0 || b.len() > 0,
    ensures
        crate::tokens::overlap(a, b).1 > 0,
{
    overlap_counts_words(a, b);
    vstd::seq_lib::seq_to_set_is_finite(a);
    vstd::seq_lib::seq_to_set_is_finite(b);
    let u = a.to_set().union(b.to_set());
    if a.len() > 0 {
        assert(u.contains(a[0]));
    } else {
        assert(u.contains(b[0]));
    }
    assert(u.len() > 0);
}

proof fn lemma_most_shared(new: Seq<Seq<char>>, there: Seq<ItemView>, n: nat, k: int)
    requires
        new.len() > 0,
        n <= there.len(),
    ensures
        ({
            let p = most_shared(new, there, n);
            &&& p.2 > 0
            &&& match p.0 {
                Some(i) => 0 <= i < n && (p.1, p.2) == crate::tokens::overlap(
                    new,
                    keywords_in(there[i].content),
                ) && p.1 * 10 > p.2 * 6,
                None => p.1 == 6 && p.2 == 10,
            }
            &&& 0 <= k < n ==> {
                let o = crate::tokens::overlap(new, keywords_in(there[k].content));
                o.0 * p.2 <= p.1 * o.1
            }
        }),
    decreases n,
{
    if n > 0 {
        lemma_most_shared(new, there, (n - 1) as nat, k);
        let p = most_shared(new, there, (n - 1) as nat);
        let q = most_shared(new, there, n);
        let words = keywords_in(there[n - 1].content);
        let o = crate::tokens::overlap(new, words);
        lemma_overlap_positive(new, words);
        if words.len() > 0 && o.0 * p.2 > p.1 * o.1 {
            assert(6 * p.2 <= p.1 * 10);
            assert(o.0 * 10 > o.1 * 6) by (nonlinear_arith)
                requires
                    o.0 * p.2 > p.1 * o.1,
                    6 * p.2 <= p.1 * 10,
                    p.2 > 0,
                    o.1 > 0,
            ;
            if 0 <= k < n - 1 {
                let r = crate::tokens::overlap(new, keywords_in(there[k].content));
                lemma_share_order(r.0, r.1, p.1, p.2, o.0, o.1);
            }
            if k == n - 1 {
                assert(o.0 * o.1 <= o.0 * o.1);
            }
        } else if k == n - 1 && words.len() == 0 {
            overlap_counts_words(new, words);
            assert(new.to_set().intersect(words.to_set()) =~= Set::<Seq<char>>::empty());
            assert(0 * p.2 <= p.1 * o.1) by (nonlinear_arith)
                requires
                    p.1 >= 0,
                    o.1 >= 0,
            ;
        }
    }
}

/// How many sources a new insight shares with an earlier one, each once.
pub open spec fn common_sources(new: Seq<Seq<char>>, m: ItemView) -> nat {
    new.to_set().intersect(list_at(m.metadata, "promoted_from"@).to_set()).len()
}

/// A new insight says the earlier one again with which it shares the most sources, two at
/// least; where it shares two with one, it says one again.
pub proof fn insight_says_again_what_it_shares_most_with(new: Seq<Seq<char>>, s: Seq<ItemView>, k: int)
    requires
        0 <= k < s.len(),
    ensures
        match reinforce_target(new, s) {
            Some(id) => exists|i: int|
                0 <= i < s.len() && (#[trigger] s[i]).id == id && common_sources(new, s[i]) >= 2
                    && common_sources(new, s[i]) >= common_sources(new, s[k]),
            None => common_sources(new, s[k]) < 2,
        },
{
    lemma_most_sources(new, s, s.len(), k);
    if let Some(i) = most_sources(new, s, s.len()).0 {
        assert(s[i].id == reinforce_target(new, s)->0);
    }
}

proof fn lemma_most_sources(new: Seq<Seq<char>>, s: Seq<ItemView>, n: nat, k: int)
    requires
        n <= s.len(),
    ensures
        ({
            let p = most_sources(new, s, n);
            &&& match p.0 {
                Some(i) => 0 <= i < n && p.1 == common_sources(new, s[i]) && p.1 >= 2,
                None => p.1 == 0,
            }
            &&& 0 <= k < n ==> common_sources(new, s[k]) <= p.1 || common_sources(new, s[k]) < 2
        }),
    decreases n,
{
    if n > 0 {
        lemma_most_sources(new, s, (n - 1) as nat, k);
        shared_counts_words(new, list_at(s[n - 1].metadata, "promoted_from"@));
        assert(shared_sources(new, s[n - 1]) == common_sources(new, s[n - 1]));
    }
}

/// A fact is kept under the name of its own kind; what happened between the two is an important
/// event, and everything else simply lasts.
pub proof fn facts_keep_their_kind(t: Seq<char>)
    ensures
        t == "user"@ || t == "preference"@ || t == "feedback"@ ==> fact_kind(t).name() == t,
        t == "relationship"@ ==> fact_kind(t).name() == "important_event"@,
        fact_kind(t) is LongTerm || t == "user"@ || t == "preference"@ || t == "feedback"@ || t
            == "relationship"@,
{
    reveal_strlit("user");
    reveal_strlit("preference");
    reveal_strlit("relationship");
    reveal_strlit("feedback");
    assert("user"@.len() == 4);
    assert("preference"@.len() == 10);
    assert("relationship"@.len() == 12);
    assert("feedback"@.len() == 8);
}

/// A summary that continues another loses nothing of it: the earlier text comes first, and it is
/// as important as the more important of the two.
pub proof fn continued_summary_keeps_the_earlier(
    target: ItemView,
    s: SummaryView,
    source_ids: Seq<Seq<char>>,
    now: i64,
)
    ensures
        ({
            let p = merged_summary(target, s, source_ids, now);
            &&& p.content.len() >= target.content.len()
            &&& p.content.take(target.content.len() as int) == target.content
            &&& p.importance >= target.importance && p.importance >= s.importance
            &&& p.importance == target.importance || p.importance == s.importance
            &&& p.memory_type is SessionSummary
            &&& p.tags.contains("session_summary"@)
            &&& forall|t: Seq<char>| #[trigger] target.tags.contains(t) ==> p.tags.contains(t)
        }),
{
    let p = merged_summary(target, s, source_ids, now);
    assert(p.content.take(target.content.len() as int) =~= target.content);
    if !target.tags.contains("session_summary"@) {
        assert(p.tags[target.tags.len() as int] == "session_summary"@);
        assert forall|t: Seq<char>| #[trigger] target.tags.contains(t) implies p.tags.contains(t) by {
            assert(p.tags[target.tags.index_of(t)] == t);
        }
    }
}

/// An insight that is said again keeps the earlier text before the new one, is as important as
/// the more important of the two, and was said once more.
pub proof fn repeated_insight_keeps_both(target: ItemView, i: InsightView, now: i64)
    ensures
        ({
            let p = reinforced_insight(target, i, now);
            let n = target.content.len() as int;
            &&& p.content.len() == n + 1 + i.insight.len()
            &&& p.content.take(n) == target.content
            &&& p.content.skip(n + 1) == i.insight
            &&& p.importance >= target.importance && p.importance >= i.importance
            &&& p.importance == target.importance || p.importance == i.importance
            &&& count_at(target.metadata, "reinforcement_count"@) matches Some(c) ==> (c < i64::MAX
                ==> said_again(target) == c + 1)
            &&& count_at(target.metadata, "reinforcement_count"@) is None ==> said_again(target) == 1
            &&& p.patch["reinforcement_count"@] == MetaView::Int(said_again(target))
        }),
{
    reveal_strlit("\n");
    let p = reinforced_insight(target, i, now);
    let n = target.content.len() as int;
    assert("\n"@.len() == 1);
    assert(p.content.take(n) =~= target.content);
    assert(p.content.skip(n + 1) =~= i.insight);
}

// ---------------------------------------------------------------------------
// What comes of the work
// ---------------------------------------------------------------------------

/// Every summary that a model gave is kept as a new one or merged into the one that it continues,
/// unless one could not be kept; the new ones are named.
pub proof fn every_summary_is_kept_or_merged(
    m: ManagerView,
    list: Seq<SummaryView>,
    targets: Seq<Option<Seq<char>>>,
    source_ids: Seq<Seq<char>>,
    heat: i64,
    us: Seq<Seq<char>>,
    now: i64,
)
    ensures
        ({
            let w = summing(m, list, targets, source_ids, heat, us, now);
            &&& !w.failed ==> w.created + w.merged == us.len()
            &&& w.failed ==> w.created + w.merged < us.len()
            &&& w.ids.len() == w.created
        }),
    decreases us.len(),
{
    if us.len() > 0 {
        every_summary_is_kept_or_merged(m, list, targets, source_ids, heat, us.drop_last(), now);
    }
}

/// Every insight that a model gave is kept as a new one or says an earlier one again, unless one
/// could not be kept.
pub proof fn every_insight_is_kept_or_said_again(
    m: ManagerView,
    list: Seq<InsightView>,
    existing: Seq<ItemView>,
    heat: i64,
    us: Seq<Seq<char>>,
    now: i64,
)
    ensures
        ({
            let w = musing(m, list, existing, heat, us, now);
            &&& !w.failed ==> w.created + w.reinforced == us.len()
            &&& w.failed ==> w.created + w.reinforced < us.len()
        }),
    decreases us.len(),
{
    if us.len() > 0 {
        every_insight_is_kept_or_said_again(m, list, existing, heat, us.drop_last(), now);
    }
}

/// A summary without one to continue, or whose one is archived or gone, is never merged.
pub proof fn only_a_live_summary_is_continued(
    m: ManagerView,
    target: Option<Seq<char>>,
    s: SummaryView,
    source_ids: Seq<Seq<char>>,
    now: i64,
)
    ensures
        target is None ==> merge_plan(m, target, s, source_ids, now) is None,
        target matches Some(t) ==> ((forall|i: int|
            0 <= i < m.entries.len() && (#[trigger] m.entries[i]).id == t ==> m.entries[i].consolidated)
            ==> merge_plan(m, target, s, source_ids, now) is None),
{
    if let Some(t) = target {
        lemma_first_live(m.entries, t);
    }
}

pub(crate) proof fn lemma_first_live(s: Seq<ItemView>, id: Seq<char>)
    ensures
        first_live(s, id) matches Some(x) ==> x.id == id && !x.consolidated && s.contains(x),
    decreases s.len(),
{
    if s.len() > 0 {
        if s[0].id == id && !s[0].consolidated {
            assert(s.contains(s[0]));
        } else {
            lemma_first_live(s.skip(1), id);
            if let Some(x) = first_live(s.skip(1), id) {
                assert(s[s.skip(1).index_of(x) + 1] == x);
            }
        }
    }
}

/// The topic of an episode is the beginning of its first summary, fifty characters at most.
pub proof fn topic_is_the_beginning(summary: Seq<char>)
    ensures
        summary.len() <= 50 ==> episode_topic(summary) == summary,
        summary.len() > 50 ==> episode_topic(summary).take(50) == summary.take(50) && episode_topic(
            summary,
        ).len() == 53,
{
    reveal_strlit("...");
    assert("..."@.len() == 3);
    if summary.len() > 50 {
        assert(episode_topic(summary).take(50) =~= summary.take(50));
    }
}

} // verus!
