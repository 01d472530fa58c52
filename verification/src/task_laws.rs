//! What the smaller tasks promise: merging topics, summing up a conversation, pausing steps that
//! fail, noting what is said of a subject, and sending memories where they belong.

use crate::memory_router::{arbitrated, is_candidate, named_destination, persistence_words, routed,
    MemoryDestination};
use crate::select::{filter_from, filter_has};
use crate::step_health::{failed, failures, pause_over, rate_exceeded, resumed, slid, HealthView};
use crate::takes_fence::{active, claim_key, noted_value, with_take, RowView, TableView, TakeStatus};
use crate::text::{has_any, has_sub, is_blank, trim};
use crate::time_stamped::{quarter_tokens, rough_tokens, summary_due, summary_split, ChatMessage};
use crate::topic_merger::{absorbed, clusters_upto, comparable, earliest, is_mergeable, merged_importance,
    mergeable_name, mergeable_type, primary_of};
use crate::types::{ItemView, MemoryType};
use vstd::prelude::*;
use vstd::string::*;

verus! {

// ---------------------------------------------------------------------------
// Merging topics
// ---------------------------------------------------------------------------

/// Only memories that say something, have an embedding, matter by 0.4 at least, are not protected
/// and are of a kind that lasts are merged.
pub proof fn only_lasting_memories_are_merged(m: ItemView)
    ensures
        is_mergeable(m) <==> m.importance >= 400_000 && !m.protected && m.embedding is Some && !is_blank(
            m.content,
        ) && (m.memory_type == "long_term"@ || m.memory_type == "session_summary"@ || m.memory_type
            == "insight"@ || m.memory_type == "user"@ || m.memory_type == "preference"@ || m.memory_type
            == "knowledge"@ || m.memory_type == "important_event"@),
{
    let t = m.memory_type;
    let named = t == "long_term"@ || t == "session_summary"@ || t == "insight"@ || t == "user"@ || t
        == "preference"@ || t == "knowledge"@ || t == "important_event"@;
    if mergeable_name(t) {
        let k = choose|k: MemoryType| mergeable_type(k) && #[trigger] k.name() == t;
        assert(named);
    }
    if named {
        assert(MemoryType::LongTerm.name() == "long_term"@);
        assert(MemoryType::SessionSummary.name() == "session_summary"@);
        assert(MemoryType::Insight.name() == "insight"@);
        assert(MemoryType::User.name() == "user"@);
        assert(MemoryType::Preference.name() == "preference"@);
        assert(MemoryType::Knowledge.name() == "knowledge"@);
        assert(MemoryType::ImportantEvent.name() == "important_event"@);
        assert(mergeable_name(t));
    }
}

proof fn lemma_absorbed_pair(items: Seq<ItemView>, similar: Seq<Seq<bool>>, n: nat)
    requires
        2 <= n <= items.len(),
        items[0].memory_type == items[1].memory_type,
        comparable(items[1]),
        similar[0][1],
    ensures
        ({
            let start = (Seq::new(items.len(), |k: int| false).update(0, true), seq![0int]);
            let g = absorbed(items, similar, 0, start, n);
            g.1.len() >= 2 && g.1[0] == 0 && g.1[1] == 1
        }),
    decreases n,
{
    let start = (Seq::new(items.len(), |k: int| false).update(0, true), seq![0int]);
    if n > 2 {
        lemma_absorbed_pair(items, similar, (n - 1) as nat);
    } else {
        reveal_with_fuel(absorbed, 3);
        assert(absorbed(items, similar, 0, start, 0) == start);
        assert(absorbed(items, similar, 0, start, 1) == start);
    }
}

proof fn lemma_first_cluster(items: Seq<ItemView>, similar: Seq<Seq<bool>>, n: nat)
    requires
        1 <= n <= items.len(),
        2 <= items.len(),
        items[0].memory_type == items[1].memory_type,
        comparable(items[0]),
        comparable(items[1]),
        similar[0][1],
    ensures
        ({
            let c = clusters_upto(items, similar, n).0;
            c.len() >= 1 && c[0].len() >= 2 && c[0][0] == 0 && c[0][1] == 1
        }),
    decreases n,
{
    if n == 1 {
        reveal_with_fuel(clusters_upto, 2);
        lemma_absorbed_pair(items, similar, items.len());
        let none = Seq::new(items.len(), |k: int| false);
        assert(clusters_upto(items, similar, 0).1 == none);
    } else {
        lemma_first_cluster(items, similar, (n - 1) as nat);
    }
}

/// Two memories of one type that are alike are merged where nothing comes before them.
pub proof fn alike_memories_are_merged(items: Seq<ItemView>, similar: Seq<Seq<bool>>)
    requires
        2 <= items.len(),
        items[0].memory_type == items[1].memory_type,
        items[0].embedding matches Some(e) && e.len() > 0,
        items[1].embedding matches Some(e) && e.len() > 0,
        similar[0][1],
    ensures
        ({
            let c = clusters_upto(items, similar, items.len()).0;
            c.len() >= 1 && c[0].len() >= 2 && c[0][0] == 0 && c[0][1] == 1
        }),
{
    lemma_first_cluster(items, similar, items.len());
}

/// No more than five memories become one.
pub proof fn at_most_five_become_one(items: Seq<ItemView>, similar: Seq<Seq<bool>>, n: nat, c: int)
    requires
        n <= items.len(),
        0 <= c < clusters_upto(items, similar, n).0.len(),
    ensures
        2 <= clusters_upto(items, similar, n).0[c].len() <= 5,
{
    crate::topic_merger::clusters_are_sound(items, similar, n);
}

/// A merged memory takes after the most important of the cluster, dates from the earliest, and
/// matters by a tenth more than the most important, up to 0.95.
pub proof fn merged_memory_takes_after_the_most_important(cluster: Seq<ItemView>, k: int)
    requires
        0 <= k < cluster.len(),
    ensures
        0 <= primary_of(cluster) < cluster.len(),
        cluster[k].importance <= cluster[primary_of(cluster)].importance,
        earliest(cluster) <= cluster[k].timestamp,
        exists|i: int| 0 <= i < cluster.len() && (#[trigger] cluster[i]).timestamp == earliest(cluster),
        ({
            let p = cluster[primary_of(cluster)].importance;
            merged_importance(p) == (if p < 850_000 {
                p + 100_000
            } else {
                950_000
            })
        }),
    decreases cluster.len(),
{
    if cluster.len() > 1 {
        let d = cluster.drop_last();
        merged_memory_takes_after_the_most_important(
            d,
            if k < d.len() {
                k
            } else {
                0
            },
        );
        let i = choose|i: int| 0 <= i < d.len() && (#[trigger] d[i]).timestamp == earliest(d);
        assert(cluster[i] == d[i]);
        assert(cluster[cluster.len() - 1] == cluster.last());
        if k < d.len() {
            assert(d[k] == cluster[k]);
        }
    } else {
        assert(cluster[0].timestamp == earliest(cluster));
    }
}

// ---------------------------------------------------------------------------
// A conversation
// ---------------------------------------------------------------------------

/// A conversation is summed up beyond twenty-one thousand tokens, and from a hundred and fifty
/// messages on however short they are; never before.
pub proof fn long_conversations_are_summed_up(tokens: nat, messages: nat)
    ensures
        tokens > 21_000 ==> summary_due(tokens, messages),
        messages >= 150 ==> summary_due(tokens, messages),
        tokens <= 21_000 && messages < 150 ==> !summary_due(tokens, messages),
{
}

/// Of a conversation that is summed up the last eight messages stay as they are, and all others
/// go into the summary.
pub proof fn last_eight_messages_stay(history: Seq<ChatMessage>, i: int)
    requires
        0 <= i < history.len(),
    ensures
        i + 8 >= history.len() <==> i >= summary_split(history.len()),
        history.len() >= 8 ==> history.skip(summary_split(history.len())).len() == 8,
        history.len() < 8 ==> summary_split(history.len()) == 0,
{
}

/// Without a tokenizer four characters of plain text count as one token, and two of any other
/// text as three, rounded up; more text never counts for less.
pub proof fn tokens_are_estimated_by_characters(s: Seq<char>)
    requires
        s.len() <= 1_000_000_000,
    ensures
        (forall|i: int| 0 <= i < s.len() ==> (#[trigger] s[i] as u32) < 128) ==> rough_tokens(s) == (s.len()
            + 3) / 4,
        (forall|i: int| 0 <= i < s.len() ==> (#[trigger] s[i] as u32) >= 128) ==> rough_tokens(s) == (3 * s.len()
            + 1) / 2,
        s.len() <= 4 * rough_tokens(s),
        2 * rough_tokens(s) <= 3 * s.len() + 1,
{
    lemma_quarters(s);
}

proof fn lemma_quarters(s: Seq<char>)
    ensures
        s.len() <= quarter_tokens(s) <= 6 * s.len(),
        (forall|i: int| 0 <= i < s.len() ==> (#[trigger] s[i] as u32) < 128) ==> quarter_tokens(s) == s.len(),
        (forall|i: int| 0 <= i < s.len() ==> (#[trigger] s[i] as u32) >= 128) ==> quarter_tokens(s) == 6
            * s.len(),
    decreases s.len(),
{
    if s.len() > 0 {
        let d = s.drop_last();
        lemma_quarters(d);
        assert(s.last() == s[s.len() - 1]);
        assert forall|i: int| 0 <= i < d.len() implies #[trigger] d[i] == s[i] by {}
    }
}

// ---------------------------------------------------------------------------
// Steps that fail
// ---------------------------------------------------------------------------

proof fn lemma_failures(w: Seq<(Seq<char>, bool)>)
    ensures
        failures(w) == w.filter(|x: (Seq<char>, bool)| !x.1).len(),
    decreases w.len(),
{
    reveal(Seq::filter);
    if w.len() > 0 {
        lemma_failures(w.drop_last());
    }
}

/// A step fails too often when of its latest outcomes, five at least, six tenths failed.
pub proof fn six_tenths_of_failures_are_too_many(w: Seq<(Seq<char>, bool)>)
    ensures
        rate_exceeded(w) <==> w.len() >= 5 && 5 * w.filter(|x: (Seq<char>, bool)| !x.1).len() >= 3 * w.len(),
{
    lemma_failures(w);
}

/// A failure counts one more in a row and is noted. It pauses a step that runs exactly when it is
/// the fifth in a row at least, or when of the latest outcomes, five at least and twenty at
/// most, six tenths failed; a paused step stays paused for its first reason.
pub proof fn failure_pauses_a_step(h: HealthView, error: Seq<char>, t: Seq<char>)
    requires
        h.fail_count < u32::MAX,
        h.window.len() <= 20,
    ensures
        ({
            let f = failed(h, error, t);
            let bad = f.window.filter(|x: (Seq<char>, bool)| !x.1).len();
            &&& f.fail_count == h.fail_count + 1
            &&& f.last_error_msg == Some(error) && f.last_error_at == Some(t)
            &&& f.last_success_at == h.last_success_at
            &&& h.paused_reason is Some ==> f.paused_reason == h.paused_reason
            &&& h.paused_reason is None ==> (f.paused_reason is Some <==> h.fail_count + 1 >= 5 || (
            f.window.len() >= 5 && bad * 10 >= f.window.len() * 6))
            &&& f.window.len() <= 20
            &&& f.window.last() == (t, false)
        }),
{
    lemma_failures(failed(h, error, t).window);
}

/// The latest twenty outcomes are remembered, in order.
pub proof fn latest_outcomes_are_remembered(w: Seq<(Seq<char>, bool)>, t: Seq<char>, ok: bool)
    requires
        w.len() <= 20,
    ensures
        w.len() < 20 ==> slid(w, t, ok) == w.push((t, ok)),
        w.len() == 20 ==> slid(w, t, ok) == w.skip(1).push((t, ok)),
{
    if w.len() == 20 {
        assert(slid(w, t, ok) =~= w.skip(1).push((t, ok)));
    }
}

/// A pause ends as many whole seconds after the failure as it is to last, and not before; one
/// whose time is not known ends at once. Nothing but the pause changes.
pub proof fn pause_lasts_as_long_as_it_is_to(at: i64, now: i64, nanos: u32, cooldown_millis: i64)
    ensures
        pause_over(Some((at, nanos)), (now, nanos), cooldown_millis) <==> (now - at) * 1000 >= cooldown_millis,
        pause_over(None, (now, nanos), cooldown_millis),
{
    let d = (now - at) * 1_000_000_000;
    if d >= 0 {
        assert(d / 1_000_000_000 == now - at);
    } else {
        assert((-d) / 1_000_000_000 == at - now);
    }
}

/// A step that comes back keeps its failures and its outcomes; only a pause that is over ends.
pub proof fn resuming_only_ends_the_pause(h: HealthView, now: (i64, u32), cooldown_millis: i64)
    ensures
        ({
            let r = resumed(h, now, cooldown_millis);
            &&& r == (HealthView { paused_reason: r.paused_reason, ..h })
            &&& r.paused_reason is None || r.paused_reason == h.paused_reason
            &&& h.last_error_at is None ==> r.paused_reason is None
        }),
{
}

// ---------------------------------------------------------------------------
// What is said of a subject
// ---------------------------------------------------------------------------

/// What holds of a subject after something was said of it: what was said, and of what held before
/// all that was said of something else.
pub proof fn only_the_same_claim_is_superseded(
    t: TableView,
    claim: Seq<char>,
    value: Seq<char>,
    source: Seq<char>,
    at: i64,
    i: int,
)
    requires
        0 <= i < t.rows.len(),
        t.next_row_num < u32::MAX,
    ensures
        ({
            let r = with_take(t, claim, value, source, at);
            &&& claim_key(t.rows[i].claim) != claim_key(claim) ==> r.rows[i] == t.rows[i]
            &&& t.rows[i].status == TakeStatus::Active && claim_key(t.rows[i].claim) == claim_key(claim)
                ==> r.rows[i].status == TakeStatus::Superseded && r.rows[i].superseded_by == Some(
                r.rows.last().row_num,
            )
            &&& active(r.rows).contains(r.rows.last())
            &&& r.rows.last().claim == claim && r.rows.last().value == value
                && r.rows.last().source_memory_id == source && r.rows.last().created_at == at
            &&& r.next_row_num == t.next_row_num + 1
        }),
{
    let r = with_take(t, claim, value, source, at);
    let test = |x: RowView| x.status == TakeStatus::Active;
    filter_has(r.rows, test, r.rows.len() - 1);
}

/// The rows that hold are those that were not superseded: each, and no other.
pub proof fn rows_hold_until_superseded(rows: Seq<RowView>, x: RowView)
    ensures
        active(rows).contains(x) <==> rows.contains(x) && x.status == TakeStatus::Active,
{
    let test = |r: RowView| r.status == TakeStatus::Active;
    if active(rows).contains(x) {
        filter_from(rows, test, active(rows).index_of(x));
    }
    if rows.contains(x) && x.status == TakeStatus::Active {
        filter_has(rows, test, rows.index_of(x));
    }
}

/// A memory is noted as it is up to eighty characters, and by its first seventy-nine beyond that.
pub proof fn noted_memories_are_short(content: Seq<char>)
    ensures
        noted_value(content).len() <= 80,
        content.len() <= 80 ==> noted_value(content) == content,
        content.len() > 80 ==> noted_value(content).take(79) == content.take(79) && noted_value(content).len()
            == 80,
{
    if content.len() > 80 {
        assert(noted_value(content).take(79) =~= content.take(79));
    }
}

// ---------------------------------------------------------------------------
// Where memories go
// ---------------------------------------------------------------------------

/// What matters less than 0.2 is not kept, unless it is about another character; what matters by
/// half about another character is a fact of the relationship; of the rest everybody learns what
/// speaks of something lasting, and all else stays with the character.
pub proof fn memories_go_where_they_belong(content: Seq<char>, importance: i64, channel: Seq<char>)
    ensures
        routed(content, importance, channel) is Ephemeral <==> importance < 200_000 && channel
            != "cross_character"@,
        routed(content, importance, channel) is RelationshipFact <==> importance >= 500_000 && channel
            == "cross_character"@,
        routed(content, importance, channel) is SharedWorld ==> has_any(content, persistence_words()),
        routed(content, importance, channel) is Personal ==> !has_any(content, persistence_words()),
        importance >= 200_000 && channel != "cross_character"@ && has_sub(content, "喜欢"@) ==> routed(
            content,
            importance,
            channel,
        ) is SharedWorld,
        importance >= 200_000 && channel != "cross_character"@ && has_sub(content, "约定"@) ==> routed(
            content,
            importance,
            channel,
        ) is SharedWorld,
{
    assert(persistence_words()[0] == "喜欢"@);
    assert(persistence_words()[6] == "约定"@);
}

/// A model is asked only about memories that others would see, and then its word counts where it
/// names a place, whatever white space is around it.
pub proof fn models_word_counts_for_shared_memories(
    by_rules: MemoryDestination,
    text: Seq<char>,
    reason: Option<Seq<char>>,
)
    requires
        by_rules is SharedWorld || by_rules is RelationshipFact,
    ensures
        is_candidate(by_rules),
        trim(text) == "personal"@ ==> arbitrated(by_rules, Some((text, reason))) is Personal,
        trim(text) == "shared_world"@ ==> arbitrated(by_rules, Some((text, reason))) is SharedWorld,
        trim(text) == "relationship_fact"@ ==> arbitrated(by_rules, Some((text, reason))) is RelationshipFact,
        trim(text) == "ephemeral"@ ==> arbitrated(by_rules, Some((text, reason))) is Ephemeral,
        named_destination(text) is None ==> arbitrated(by_rules, Some((text, reason))) == by_rules,
{
    reveal_strlit("personal");
    reveal_strlit("relationship_fact");
    reveal_strlit("shared_world");
    reveal_strlit("ephemeral");
    assert("personal"@.len() == 8 && "relationship_fact"@.len() == 17 && "shared_world"@.len() == 12
        && "ephemeral"@.len() == 9);
}

} // verus!
