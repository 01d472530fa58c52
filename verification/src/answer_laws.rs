//! What reading answers and telling of memories promises: the part of an answer that counts, how
//! a conversation and its speakers are shown, and what a memory carries on its way.

use crate::conflict::injected_lately;
use crate::consolidation::{bracketed, json_part, last_at, of_kind};
use crate::manager::ManagerView;
use crate::memory_md::{drop_newlines, drop_quotes, is_title, stored_note, without_head};
use crate::memory_router::unfenced;
use crate::pipeline::{first_live, mood_curve, FactItem};
use crate::recording::model_importance;
use crate::retriever::{layer_for, meets, semantic_percent, source_percent, MemoryRetrievalFilter,
    RetrievalResultType};
use crate::search::{first_results, head_size, searchable_under};
use crate::stages::{already_summed, fact_promotion, new_insight, reinforce_plan, InsightView};
use crate::text::{begins, find, first_line, has_sub, is_white, lemma_find, occurs_at, trim, trim_start};
use crate::time_stamped::{plain_line, plain_summary, ChatMessage};
use crate::types::{flag_at, list_at, text_at, ItemView, MetaView, SemanticType};
use crate::writing::{clamped, context_prefix, enriched, EnrichedView};
use vstd::prelude::*;
use vstd::string::*;

verus! {

// ---------------------------------------------------------------------------
// The part of an answer that counts
// ---------------------------------------------------------------------------

proof fn lemma_found_at(s: Seq<char>, needle: Seq<char>, i: int)
    requires
        occurs_at(s, needle, i),
        forall|j: int| 0 <= j < i ==> !#[trigger] occurs_at(s, needle, j),
    ensures
        find(s, needle) == Some(i),
{
    lemma_find(s, needle);
    if let Some(k) = find(s, needle) {
        assert(occurs_at(s, needle, k));
    }
}

/// Of an answer with a fenced block, the block is taken, without the white space around it: the
/// first that is marked as JSON.
pub proof fn fenced_answer_is_taken_out(
    response: Seq<char>,
    before: Seq<char>,
    block: Seq<char>,
    after: Seq<char>,
)
    requires
        trim(response) == before + "```json"@ + block + "```"@ + after,
        forall|j: int| 0 <= j < before.len() ==> !#[trigger] occurs_at(trim(response), "```json"@, j),
        forall|j: int|
            0 <= j < block.len() ==> !#[trigger] occurs_at(block + "```"@ + after, "```"@, j),
    ensures
        json_part(response) == trim(block),
{
    let t = trim(response);
    let mark = "```json"@;
    let fence = "```"@;
    let rest = block + fence + after;
    let i = before.len() as int;
    assert(t.subrange(i, i + mark.len()) =~= mark);
    assert(occurs_at(t, mark, i));
    lemma_found_at(t, mark, i);
    assert(t.skip(i + mark.len()) =~= rest);
    assert(rest.subrange(block.len() as int, (block.len() + fence.len()) as int) =~= fence);
    assert(occurs_at(rest, fence, block.len() as int));
    lemma_found_at(rest, fence, block.len() as int);
    assert(rest.take(block.len() as int) =~= block);
}

proof fn lemma_last_at(s: Seq<char>, c: char)
    ensures
        match last_at(s, c) {
            Some(i) => 0 <= i < s.len() && s[i] == c && forall|j: int|
                i < j < s.len() ==> #[trigger] s[j] != c,
            None => !s.contains(c),
        },
    decreases s.len(),
{
    if s.len() > 0 && s.last() != c {
        lemma_last_at(s.drop_last(), c);
        if last_at(s.drop_last(), c) is None && s.contains(c) {
            let k = s.index_of(c);
            assert(s.drop_last()[k] == c);
        }
        if let Some(i) = last_at(s.drop_last(), c) {
            assert forall|j: int| i < j < s.len() implies #[trigger] s[j] != c by {
                if j < s.len() - 1 {
                    assert(s.drop_last()[j] != c);
                }
            }
        }
    }
}

/// Of an answer without a fence, the list is taken: from the first bracket that opens to the last
/// that closes. An answer without brackets is taken as it is.
pub proof fn list_of_an_answer_is_taken_out(
    response: Seq<char>,
    before: Seq<char>,
    list: Seq<char>,
    after: Seq<char>,
)
    requires
        !has_sub(trim(response), "```"@),
    ensures
        trim(response) == before + seq!['['] + list + seq![']'] + after && !before.contains('[')
            && !after.contains(']') ==> json_part(response) == seq!['['] + list + seq![']'],
        !trim(response).contains('[') ==> json_part(response) == trim(response),
        !trim(response).contains(']') ==> json_part(response) == trim(response),
{
    reveal_strlit("```json");
    reveal_strlit("```");
    reveal_strlit("[");
    let t = trim(response);
    let open = "["@;
    assert(open =~= seq!['[']);
    lemma_find(t, "```"@);
    lemma_find(t, "```json"@);
    lemma_find(t, open);
    lemma_last_at(t, ']');
    if let Some(k) = find(t, "```"@) {
        assert(occurs_at(t, "```"@, k));
        assert(has_sub(t, "```"@));
    }
    if let Some(k) = find(t, "```json"@) {
        assert(occurs_at(t, "```json"@, k));
        assert("```json"@.subrange(0, 3) =~= "```"@);
        assert(t.subrange(k, k + 3) =~= t.subrange(k, k + 7).subrange(0, 3));
        assert(occurs_at(t, "```"@, k));
        assert(has_sub(t, "```"@));
    }
    assert(json_part(response) == bracketed(t));
    if let Some(k) = find(t, open) {
        assert(occurs_at(t, open, k));
        assert(t[k] == t.subrange(k, k + 1)[0]);
        assert(t[k] == '[');
        assert(t.contains('['));
    }
    if let Some(k) = last_at(t, ']') {
        assert(t[k] == ']');
        assert(t.contains(']'));
    }
    if t =~= before + seq!['['] + list + seq![']'] + after && !before.contains('[') && !after.contains(']') {
        let i = before.len() as int;
        let j = i + 1 + list.len();
        assert(t.subrange(i, i + 1) =~= open);
        assert(occurs_at(t, open, i));
        assert forall|k: int| 0 <= k < i implies !#[trigger] occurs_at(t, open, k) by {
            if occurs_at(t, open, k) {
                assert(t.subrange(k, k + 1)[0] == t[k]);
                assert(before[k] == '[');
                assert(before.contains('['));
            }
        }
        lemma_found_at(t, open, i);
        assert(t[j] == ']');
        assert(t.contains(']'));
        let last = last_at(t, ']')->0;
        if last > j {
            assert(after[last - j - 1] == ']');
            assert(after.contains(']'));
        }
        assert(last == j);
        assert(t.subrange(i, j + 1) =~= seq!['['] + list + seq![']']);
    }
}

/// A verdict without a fence is read as it is, without the white space around it.
pub proof fn plain_verdict_is_read_as_it_is(s: Seq<char>)
    requires
        !begins(trim(s), "```"@),
    ensures
        unfenced(s) == trim(s),
{
    reveal_strlit("```json");
    reveal_strlit("```");
    let t = trim(s);
    if begins(t, "```json"@) {
        assert("```json"@.take(3) =~= "```"@);
        assert(t.take(3) =~= t.take(7).take(3));
    }
}

// ---------------------------------------------------------------------------
// Notes
// ---------------------------------------------------------------------------

spec fn ends_so(whole: Seq<char>, part: Seq<char>) -> bool {
    part.len() <= whole.len() && whole.skip(whole.len() - part.len()) == part
}

proof fn lemma_ends_on(a: Seq<char>, b: Seq<char>, c: Seq<char>)
    requires
        ends_so(a, b),
        ends_so(b, c),
    ensures
        ends_so(a, c),
{
    assert(a.skip(a.len() - c.len()) =~= b.skip(b.len() - c.len()));
}

proof fn lemma_skipped_end(s: Seq<char>, k: int)
    requires
        0 <= k <= s.len(),
    ensures
        ends_so(s, s.skip(k)),
{
    assert(s.skip(s.len() - s.skip(k).len()) =~= s.skip(k));
}

proof fn lemma_trim_start_end(s: Seq<char>)
    ensures
        ends_so(s, trim_start(s)),
    decreases s.len(),
{
    if s.len() > 0 && is_white(s[0]) {
        lemma_trim_start_end(s.skip(1));
        lemma_skipped_end(s, 1);
        lemma_ends_on(s, s.skip(1), trim_start(s));
    } else {
        lemma_skipped_end(s, 0);
        assert(s.skip(0) =~= s);
    }
}

proof fn lemma_drop_newlines(s: Seq<char>)
    ensures
        ends_so(s, drop_newlines(s)),
        drop_newlines(s).len() > 0 ==> drop_newlines(s)[0] != '\n',
    decreases s.len(),
{
    if s.len() > 0 && s[0] == '\n' {
        lemma_drop_newlines(s.skip(1));
        lemma_skipped_end(s, 1);
        lemma_ends_on(s, s.skip(1), drop_newlines(s));
    } else {
        lemma_skipped_end(s, 0);
        assert(s.skip(0) =~= s);
    }
}

proof fn lemma_drop_quotes(s: Seq<char>)
    ensures
        ends_so(s, drop_quotes(s)),
        drop_quotes(s).len() > 0 ==> drop_quotes(s)[0] != '\n' && drop_quotes(s)[0] != '>',
    decreases s.len(),
{
    let t = drop_newlines(s);
    lemma_drop_newlines(s);
    if t.len() > 0 && t[0] == '>' {
        lemma_find(t, seq!['\n']);
        lemma_skipped_end(s, s.len() as int);
        assert(s.skip(s.len() as int) =~= Seq::<char>::empty());
        if let Some(p) = find(t, seq!['\n']) {
            assert(occurs_at(t, seq!['\n'], p));
            lemma_drop_quotes(t.skip(p + 1));
            lemma_skipped_end(t, p + 1);
            lemma_ends_on(t, t.skip(p + 1), drop_quotes(t.skip(p + 1)));
            lemma_ends_on(s, t, drop_quotes(t.skip(p + 1)));
        }
    }
}

/// Without its head a note is its own end: nothing in it is changed, it starts with text, and a
/// quote that follows the title goes with it. A note without a title loses nothing but the white
/// space at its beginning.
pub proof fn note_without_head_is_its_end(content: Seq<char>)
    ensures
        without_head(content).len() <= content.len(),
        content.skip(content.len() - without_head(content).len()) == without_head(content),
        is_title(first_line(trim_start(content))) && without_head(content).len() > 0 ==> without_head(
            content,
        )[0] != '>' && without_head(content)[0] != '\n',
        !is_title(first_line(trim_start(content))) ==> without_head(content) == trim_start(content),
{
    let t = trim_start(content);
    lemma_trim_start_end(content);
    if is_title(first_line(t)) {
        lemma_find(t, seq!['\n']);
        match find(t, seq!['\n']) {
            Some(p) => {
                assert(occurs_at(t, seq!['\n'], p));
                lemma_drop_quotes(t.skip(p + 1));
                lemma_skipped_end(t, p + 1);
                lemma_ends_on(t, t.skip(p + 1), drop_quotes(t.skip(p + 1)));
                lemma_ends_on(content, t, drop_quotes(t.skip(p + 1)));
            },
            None => {
                assert(content.skip(content.len() as int) =~= Seq::<char>::empty());
            },
        }
    }
}

/// A note is there exactly when its file holds more than white space and it belongs to someone.
pub proof fn blank_note_is_none(owner: Seq<char>, file: Option<Seq<char>>)
    ensures
        stored_note(owner, file) is Some <==> (file matches Some(text) && trim(text).len() > 0) && trim(
            owner,
        ).len() > 0,
        stored_note(owner, file) matches Some(note) ==> note == trim(file->0),
{
}

// ---------------------------------------------------------------------------
// Conversations and speakers
// ---------------------------------------------------------------------------

/// A plain summary shows the beginning of the conversation, two hundred characters at most.
pub proof fn plain_summary_is_short(messages: Seq<ChatMessage>)
    ensures
        plain_summary(messages).len() <= 225,
        plain_summary(messages).take(22) == "Conversation Summary: "@,
        messages.len() == 1 && messages[0].content@.len() <= 190 ==> plain_summary(messages).skip(22)
            == (if messages[0].role@ == "user"@ {
            "User: "@
        } else {
            "AI: "@
        }) + messages[0].content@,
{
    reveal_strlit("Conversation Summary: ");
    reveal_strlit("...");
    reveal_strlit("User");
    reveal_strlit("AI");
    reveal_strlit(": ");
    reveal_strlit("User: ");
    reveal_strlit("AI: ");
    let lines = messages.map_values(|m: ChatMessage| plain_line(m));
    let joined = crate::text::join(lines, "\n"@);
    assert("Conversation Summary: "@.len() == 22);
    assert(plain_summary(messages).take(22) =~= "Conversation Summary: "@);
    if messages.len() == 1 && messages[0].content@.len() <= 190 {
        assert(joined == plain_line(messages[0]));
        assert(plain_summary(messages).skip(22) =~= joined);
        assert("User"@ + ": "@ =~= "User: "@);
        assert("AI"@ + ": "@ =~= "AI: "@);
    }
}

/// What stands before an embedded text names the day and who spoke, where they are known, and
/// nothing otherwise; one to whom nothing was said but by oneself is not named.
pub proof fn prefix_names_day_and_speaker(meta: Map<Seq<char>, MetaView>, day: Option<Seq<char>>)
    ensures
        ({
            let r = context_prefix(meta, day);
            let known = text_at(meta, "speaker"@) matches Some(s) && s.len() > 0;
            &&& r.len() == 0 <==> day is None && !known
            &&& r.len() > 0 ==> r[0] == '[' && r.last() == ']'
            &&& day matches Some(d) ==> has_sub(r, d) && r.subrange(1, 1int + d.len()) == d
            &&& known ==> has_sub(r, text_at(meta, "speaker"@)->0)
            &&& known && text_at(meta, "listener"@) is Some && text_at(meta, "listener"@)->0 != text_at(
                meta,
                "speaker"@,
            )->0 ==> has_sub(r, text_at(meta, "listener"@)->0)
        }),
{
    reveal_strlit("[");
    reveal_strlit("]");
    reveal_strlit(" ");
    reveal_strlit("对");
    reveal_strlit("说");
    let r = context_prefix(meta, day);
    let before: int = match day {
        Some(d) => 2int + d.len(),
        None => 1,
    };
    if let Some(d) = day {
        assert(r.subrange(1, 1int + d.len()) =~= d);
        assert(occurs_at(r, d, 1));
    }
    if let Some(s) = text_at(meta, "speaker"@) {
        if s.len() > 0 {
            assert(r.subrange(before, before + s.len()) =~= s);
            assert(occurs_at(r, s, before));
            if let Some(l) = text_at(meta, "listener"@) {
                if l != s {
                    let at = before + s.len() + 1;
                    if l.len() > 0 {
                        assert(r.subrange(at, at + l.len()) =~= l);
                        assert(occurs_at(r, l, at));
                    } else {
                        assert(r.subrange(0, 0) =~= l);
                        assert(occurs_at(r, l, 0));
                    }
                }
            }
        }
    }
}

/// The moods of an episode are those of its memories, each at the time of its memory: all of
/// them, and no other.
pub proof fn moods_are_those_of_the_memories(s: Seq<ItemView>, time: i64, mood: Seq<char>)
    ensures
        mood_curve(s).contains((time, mood)) <==> exists|i: int|
            0 <= i < s.len() && (#[trigger] s[i]).timestamp == time && list_at(
                s[i].metadata,
                "mood_tags"@,
            ).contains(mood),
    decreases s.len(),
{
    if s.len() > 0 {
        let n = s.len() - 1;
        let rest = mood_curve(s.drop_last());
        let tags = list_at(s.last().metadata, "mood_tags"@);
        let own = tags.map_values(|t: Seq<char>| (s.last().timestamp, t));
        let all = mood_curve(s);
        moods_are_those_of_the_memories(s.drop_last(), time, mood);
        assert(all == rest + own);
        if all.contains((time, mood)) {
            let k = all.index_of((time, mood));
            if k < rest.len() {
                assert(rest[k] == (time, mood));
                let i = choose|i: int|
                    0 <= i < s.drop_last().len() && (#[trigger] s.drop_last()[i]).timestamp == time && list_at(
                        s.drop_last()[i].metadata,
                        "mood_tags"@,
                    ).contains(mood);
                assert(s[i] == s.drop_last()[i]);
            } else {
                assert(own[k - rest.len()] == (s.last().timestamp, tags[k - rest.len()]));
                assert(tags.contains(mood));
                assert(s[n].timestamp == time);
            }
        }
        if exists|i: int|
            0 <= i < s.len() && (#[trigger] s[i]).timestamp == time && list_at(
                s[i].metadata,
                "mood_tags"@,
            ).contains(mood) {
            let i = choose|i: int|
                0 <= i < s.len() && (#[trigger] s[i]).timestamp == time && list_at(
                    s[i].metadata,
                    "mood_tags"@,
                ).contains(mood);
            if i < n {
                assert(s.drop_last()[i] == s[i]);
                assert(rest.contains((time, mood)));
                assert(all[rest.index_of((time, mood))] == (time, mood));
            } else {
                let k = tags.index_of(mood);
                assert(all[rest.len() + k] == own[k]);
                assert(own[k] == (time, mood));
            }
        }
    }
}

// ---------------------------------------------------------------------------
// What a memory carries
// ---------------------------------------------------------------------------

/// A memory counts as summed up already exactly when a session summary names it as a source.
pub proof fn named_sources_are_summed_up(s: Seq<ItemView>, ids: Seq<Seq<char>>, id: Seq<char>)
    ensures
        already_summed(s, ids).contains(id) <==> ids.contains(id) && exists|i: int|
            0 <= i < s.len() && (s[i].tags.contains("session_summary"@) || text_at(
                s[i].metadata,
                "memory_type"@,
            ) == Some("session_summary"@)) && list_at(
                (#[trigger] s[i]).metadata,
                "promoted_from"@,
            ).contains(id),
    decreases ids.len(),
{
    if ids.len() > 0 {
        let rest = already_summed(s, ids.drop_last());
        let all = already_summed(s, ids);
        named_sources_are_summed_up(s, ids.drop_last(), id);
        assert(forall|i: int| 0 <= i < s.len() ==> #[trigger] of_kind(s[i], "session_summary"@) == (
        s[i].tags.contains("session_summary"@) || text_at(s[i].metadata, "memory_type"@) == Some(
            "session_summary"@,
        )));
        if all.contains(id) {
            let k = all.index_of(id);
            if k < rest.len() {
                assert(rest[k] == id);
                assert(ids[ids.drop_last().index_of(id)] == id);
            } else {
                assert(ids[ids.len() - 1] == id);
            }
        }
        if ids.contains(id) {
            let k = ids.index_of(id);
            if k < ids.len() - 1 {
                assert(ids.drop_last()[k] == id);
                if rest.contains(id) {
                    assert(all[rest.index_of(id)] == id);
                }
            } else if all.len() > rest.len() {
                assert(all[rest.len() as int] == id);
            }
        }
    }
}

/// A fact is kept in its own words and with its importance, under its topic, with what it was
/// drawn from; so is an insight.
pub proof fn facts_and_insights_are_kept_as_given(
    f: FactItem,
    i: InsightView,
    sources: Seq<Seq<char>>,
    now: i64,
)
    ensures
        ({
            let p = fact_promotion(f, sources, now);
            &&& p.content == f.fact@ && p.importance == f.importance
            &&& p.tags.contains(f.fact_type@) && p.tags.contains("topic:"@ + f.topic@)
            &&& text_at(p.patch, "topic"@) == Some(f.topic@)
            &&& text_at(p.patch, "consolidation_stage"@) == Some("stage2"@)
            &&& list_at(p.patch, "promoted_from"@) == sources
        }),
        ({
            let p = new_insight(i, now);
            &&& p.content == i.insight && p.importance == i.importance
            &&& p.tags.contains("insight"@)
            &&& text_at(p.patch, "consolidation_stage"@) == Some("stage3"@)
            &&& list_at(p.patch, "promoted_from"@) == i.source_ids
        }),
{
    reveal_strlit("promoted_from");
    reveal_strlit("promoted_at");
    reveal_strlit("consolidation_stage");
    reveal_strlit("topic");
    assert("promoted_from"@.len() == 13);
    assert("promoted_at"@.len() == 11);
    assert("consolidation_stage"@.len() == 19);
    assert("topic"@.len() == 5);
    let p = fact_promotion(f, sources, now);
    assert(p.tags[0] == f.fact_type@);
    assert(p.tags[1] == "topic:"@ + f.topic@);
    assert(new_insight(i, now).tags[0] == "insight"@);
}

/// Only an insight that is there and not archived is said again.
pub proof fn only_a_live_insight_is_said_again(m: ManagerView, target: Option<Seq<char>>, i: InsightView, now: i64)
    ensures
        target is None ==> reinforce_plan(m, target, i, now) is None,
        target matches Some(t) ==> ((forall|k: int|
            0 <= k < m.entries.len() && (#[trigger] m.entries[k]).id == t ==> m.entries[k].consolidated)
            ==> reinforce_plan(m, target, i, now) is None),
{
    if let Some(t) = target {
        crate::pipeline_laws::lemma_first_live(m.entries, t);
        if let Some(x) = first_live(m.entries, t) {
            assert(m.entries[m.entries.index_of(x)] == x);
        }
    }
}

/// What a model says of a memory changes nothing but its description and its metadata, and
/// nothing at all where it says nothing. Its importance is the model's where it gives one.
pub proof fn describing_keeps_the_memory(m: ItemView, e: EnrichedView, hint: i64)
    ensures
        ({
            let r = enriched(m, e);
            &&& r == (ItemView { description: r.description, metadata: r.metadata, ..m })
            &&& r.description == (if e.description is Some {
                e.description
            } else {
                m.description
            })
            &&& e.description is None && e.semantic_type == SemanticType::General && e.keywords.len() == 0
                && e.mood_tags.len() == 0 && e.summary is None ==> r == m
        }),
        e.importance matches Some(x) ==> model_importance(e, hint) == x,
        e.importance is None ==> model_importance(e, hint) == hint,
{
}

/// A memory counts as used of late when it was looked at within the hour.
pub proof fn used_within_the_hour(m: ItemView, now: i64)
    ensures
        m.visit_count == 0 ==> !injected_lately(m, now),
        m.visit_count > 0 && now <= m.last_visit_at + 3_599_999 ==> injected_lately(m, now),
        now >= m.last_visit_at + 3_600_000 ==> !injected_lately(m, now),
{
}

/// An importance is brought between nothing and all, and one that lies there stays.
pub proof fn importance_stays_in_bounds(x: i64, y: i64)
    ensures
        0 <= clamped(x) <= 1_000_000,
        0 <= x <= 1_000_000 ==> clamped(x) == x,
        x <= y ==> clamped(x) <= clamped(y),
{
}

// ---------------------------------------------------------------------------
// Results
// ---------------------------------------------------------------------------

/// What the user said of themselves and of the answers counts most, then what is between them,
/// then what they share and work on, then references, and last what is general.
pub proof fn own_words_count_most(a: SemanticType, b: SemanticType)
    ensures
        95 <= semantic_percent(a) <= 115,
        a == SemanticType::User || a == SemanticType::Feedback ==> semantic_percent(a) >= semantic_percent(b),
        (a == SemanticType::User || a == SemanticType::Feedback) && !(b == SemanticType::User || b
            == SemanticType::Feedback) ==> semantic_percent(a) >= semantic_percent(b) + 5,
        a == SemanticType::Reference ==> semantic_percent(a) == 100,
        (a == SemanticType::SharedMemory || a == SemanticType::Project) ==> semantic_percent(
            SemanticType::Reference,
        ) < semantic_percent(a) < semantic_percent(SemanticType::Relationship),
        b == SemanticType::General && a != b ==> semantic_percent(a) > semantic_percent(b),
{
}

/// What was said directly counts a fifth more than what has no source, what was heard a tenth
/// less, and what was only observed half.
pub proof fn first_hand_knowledge_counts_more(meta: Map<Seq<char>, MetaView>)
    ensures
        text_at(meta, "knowledge_source"@) is None ==> source_percent(meta) == 100,
        text_at(meta, "knowledge_source"@) == Some("direct"@) ==> source_percent(meta) == 120,
        text_at(meta, "knowledge_source"@) == Some("heard"@) ==> source_percent(meta) == 90,
        text_at(meta, "knowledge_source"@) == Some("observed"@) ==> source_percent(meta) == 50,
{
    reveal_strlit("direct");
    reveal_strlit("heard");
    reveal_strlit("observed");
    assert("direct"@.len() == 6);
    assert("heard"@.len() == 5);
    assert("observed"@.len() == 8);
}

/// A result of an episode is one of an episode whatever its type; outside of episodes, what is
/// known of the user and the world is a fact.
pub proof fn facts_are_told_from_memories(memory_type: Seq<char>)
    ensures
        layer_for(memory_type, true) == RetrievalResultType::Episode,
        layer_for(memory_type, false) == RetrievalResultType::Fact <==> memory_type == "user"@ || memory_type
            == "preference"@ || memory_type == "identity"@ || memory_type == "important_event"@ || memory_type
            == "knowledge"@,
        layer_for(memory_type, false) != RetrievalResultType::Episode,
{
}

/// The results are the first that were found, as many as asked for; of them as many are ranked
/// anew as the model is to see, one at least where there is any.
pub proof fn first_results_are_given(s: Seq<ItemView>, limit: int, top_k: int)
    requires
        0 <= limit,
    ensures
        first_results(s, limit).len() <= limit,
        first_results(s, limit).len() == limit || first_results(s, limit) == s,
        forall|i: int|
            0 <= i < first_results(s, limit).len() ==> #[trigger] first_results(s, limit)[i] == s[i],
        0 <= head_size(s.len() as int, top_k) <= s.len(),
        s.len() > 0 ==> head_size(s.len() as int, top_k) >= 1,
        top_k >= 1 ==> head_size(s.len() as int, top_k) <= top_k,
        1 <= top_k <= s.len() ==> head_size(s.len() as int, top_k) == top_k,
{
}

/// A filtered search looks through what meets the filter and is not archived, or is archived
/// only because a summary stands for it.
pub proof fn filtered_search_looks_through_what_meets_it(
    s: Seq<ItemView>,
    filter: MemoryRetrievalFilter,
    x: ItemView,
)
    ensures
        s.filter(searchable_under(filter)).contains(x) <==> s.contains(x) && meets(filter, x) && (
        !x.consolidated || flag_at(x.metadata, "summarized"@)),
{
    crate::store_laws::lemma_filtered(s, searchable_under(filter), x);
}

} // verus!
