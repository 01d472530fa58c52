//! What keeping and telling promises beyond its rules: sessions and their keywords, what stands
//! in a table, a recap or a text that is embedded, and what is picked from lists.

use crate::conflict::{conflict_step, ConflictStep, ConflictView, Verdict};
use crate::manager::{tally, ManagerView};
use crate::memory_md::evictions;
use crate::notes::{keyword_item, session_item, turn_item, with_evidence, with_keywords, EvidenceSnapshot};
use crate::precision_filter::concerns;
use crate::recording::writes;
use crate::redact::{status_in, RedactStatus};
use crate::refiner::{braced, last_at};
use crate::reindex::missing_seed_flags;
use crate::relaxation::winning;
use crate::retriever::{final_score, scored_metadata, RawScores, RetrievalWeights};
use crate::search::unseen;
use crate::seed::{cut, ends_sentence, glued, sentences, tag_list};
use crate::select::{count_set, kept, kept_from, kept_has};
use crate::session_compressor::recap_text;
use crate::stages::{contradicted, latest_time};
use crate::store::is_seed;
use crate::store_laws::lemma_filtered;
use crate::takes_fence::{active, compact, compact_row, markdown, markdown_row, markdown_rows, RowView,
    TableView, TakeStatus};
use crate::text::{decimal, find, has_sub, is_blank, join, lemma_find, lowercase, occurs_at, trim};
use crate::time_stamped::{transcript_line, MessageView};
use crate::tokens::words_among;
use crate::types::{flag_at, list_at, text_at, ItemView, MetaView, SemanticType};
use crate::writing::{embed_source, embed_text, enriched_metadata, nothing_left, EnrichedView, NewView};
use vstd::prelude::*;
use vstd::string::*;

verus! {

proof fn lemma_within(a: Seq<char>, b: Seq<char>, c: Seq<char>)
    ensures
        has_sub(a + b + c, b),
{
    let i = a.len() as int;
    assert((a + b + c).subrange(i, i + b.len()) =~= b);
    assert(occurs_at(a + b + c, b, i));
}

proof fn lemma_within_more(a: Seq<char>, b: Seq<char>, c: Seq<char>, x: Seq<char>)
    requires
        has_sub(b, x),
    ensures
        has_sub(a + b + c, x),
{
    let i = choose|i: int| occurs_at(b, x, i);
    let s = a + b + c;
    let k = a.len() + i;
    assert(s.subrange(k, k + x.len()) =~= b.subrange(i, i + x.len()));
    assert(occurs_at(s, x, k));
}

// ---------------------------------------------------------------------------
// Turns, sessions and keywords
// ---------------------------------------------------------------------------

/// A turn is kept with what both said, in their words.
pub proof fn turn_holds_what_both_said(u: Seq<char>, said: Seq<char>, answer: Seq<char>, importance: i64, now: i64)
    ensures
        ({
            let m = turn_item(u, said, answer, importance, now);
            &&& m.content == "User: "@ + said + "\nAI: "@ + answer
            &&& text_at(m.metadata, "user_input"@) == Some(said)
            &&& text_at(m.metadata, "agent_response"@) == Some(answer)
            &&& m.importance == importance && m.timestamp == now && !m.protected && !m.consolidated
        }),
{
    reveal_strlit("user_input");
    reveal_strlit("agent_response");
    assert("user_input"@.len() == 10);
    assert("agent_response"@.len() == 14);
}

/// A session is kept as its summary with its keywords. Each keyword that says something is kept
/// too, under the session, at half its importance, and comes last; an empty one is passed over.
pub proof fn keywords_are_kept_under_their_session(
    s: Seq<ItemView>,
    summary: Seq<char>,
    keywords: Seq<Seq<char>>,
    u: Seq<char>,
    us: Seq<Seq<char>>,
    session_id: Seq<char>,
    importance: i64,
    now: i64,
    turns: usize,
    n: nat,
)
    requires
        0 < n <= keywords.len(),
    ensures
        ({
            let m = session_item(u, summary, keywords, importance, now);
            &&& m.content == summary && m.importance == importance && m.timestamp == now
            &&& m.tags.contains("session"@)
            &&& list_at(m.metadata, "keywords"@) == keywords
        }),
        ({
            let rest = with_keywords(s, keywords, us, session_id, importance, now, turns, (n - 1) as nat);
            let all = with_keywords(s, keywords, us, session_id, importance, now, turns, n);
            &&& keywords[n - 1].len() == 0 ==> all == rest
            &&& keywords[n - 1].len() > 0 ==> all.last().content == keywords[n - 1]
                && all.last().tags.contains("keyword"@) && all.last().related_ids == seq![session_id]
                && all.last().timestamp == now
            &&& keywords[n - 1].len() > 0 && importance >= 0 ==> 2 * all.last().importance <= importance <= 2
                * all.last().importance + 1
        }),
{
    let m = session_item(u, summary, keywords, importance, now);
    assert(m.tags[0] == "session"@);
    let k = keyword_item(us[n - 1], keywords[n - 1], session_id, importance, now);
    assert(k.tags[0] == "keyword"@);
}

/// New evidence changes the evidence of a memory and nothing else.
pub proof fn evidence_changes_nothing_else(m: ItemView, e: EvidenceSnapshot)
    ensures
        ({
            let r = with_evidence(m, e);
            &&& r.reinforcement == e.reinforcement && r.disputation == e.disputation
            &&& r.rein_last_signal_at == e.rein_last_signal_at
            &&& r.disp_last_signal_at == e.disp_last_signal_at
            &&& r.user_fact_reinforce_count == e.user_fact_reinforce_count
            &&& r.id == m.id && r.content == m.content && r.importance == m.importance && r.tags == m.tags
            &&& r.metadata == m.metadata && r.timestamp == m.timestamp && r.consolidated == m.consolidated
            &&& r.protected == m.protected && r.visit_count == m.visit_count && r.sub_zero_days
                == m.sub_zero_days
        }),
{
}

/// What is nothing but placeholders is not kept: the store stays as it is, and the memory that is
/// handed back says so.
pub proof fn placeholders_alone_are_not_kept(
    before: ManagerView,
    after: ManagerView,
    item: ItemView,
    n: NewView,
    u: Seq<char>,
    now: i64,
)
    requires
        writes(before, after, item, n, u, now),
        nothing_left(n.content),
    ensures
        after == before,
        flag_at(item.metadata, "pii_skipped"@),
        item.content == n.content,
{
}

// ---------------------------------------------------------------------------
// What is shown
// ---------------------------------------------------------------------------

proof fn lemma_row_shown(rows: Seq<RowView>, i: int)
    requires
        0 <= i < rows.len(),
    ensures
        has_sub(markdown_rows(rows), markdown_row(rows[i])),
    decreases rows.len(),
{
    let rest = markdown_rows(rows.drop_last());
    let e = Seq::<char>::empty();
    if i < rows.len() - 1 {
        lemma_row_shown(rows.drop_last(), i);
        assert(rows.drop_last()[i] == rows[i]);
        lemma_within_more(e, rest, markdown_row(rows.last()), markdown_row(rows[i]));
        assert(e + rest + markdown_row(rows.last()) =~= markdown_rows(rows));
    } else {
        lemma_within(rest, markdown_row(rows[i]), e);
        assert(rest + markdown_row(rows[i]) + e =~= markdown_rows(rows));
    }
}

/// A table names its subject and shows every row, with its claim and its value; one that another
/// took the place of is struck through.
pub proof fn table_shows_every_row(t: TableView, i: int)
    requires
        0 <= i < t.rows.len(),
    ensures
        has_sub(markdown(t), t.subject),
        has_sub(markdown(t), t.rows[i].claim),
        has_sub(markdown(t), t.rows[i].value),
        t.rows[i].status == TakeStatus::Superseded ==> has_sub(
            markdown(t),
            "~~"@ + t.rows[i].claim + "~~"@,
        ) && has_sub(markdown(t), "~~"@ + t.rows[i].value + "~~"@),
        t.rows[i].status == TakeStatus::Active ==> has_sub(
            markdown(t),
            " | "@ + t.rows[i].claim + " | "@ + t.rows[i].value + " | active | "@,
        ),
{
    let r = t.rows[i];
    let e = Seq::<char>::empty();
    let row = markdown_row(r);
    let head = "### Takes: "@ + t.subject + "\n\n"@ + "| # | claim | value | status | source |\n"@
        + "|---|-------|-------|--------|--------|\n"@;
    let all = markdown(t);
    let c = crate::takes_fence::shown(r.claim, r.status);
    let v = crate::takes_fence::shown(r.value, r.status);
    let first = "| "@ + decimal(r.row_num as nat) + " | "@;
    let end = " | "@ + crate::takes_fence::status_name(r.status) + " | "@
        + crate::takes_fence::short_source(r.source_memory_id) + " |\n"@;
    assert(all =~= head + markdown_rows(t.rows));
    lemma_row_shown(t.rows, i);
    lemma_within_more(head, markdown_rows(t.rows), e, row);
    assert(head + markdown_rows(t.rows) + e =~= all);
    assert(row =~= first + c + (" | "@ + v + end));
    lemma_within(first, c, " | "@ + v + end);
    assert(row =~= (first + c + " | "@) + v + end);
    lemma_within(first + c + " | "@, v, end);
    lemma_has_through(all, row, c);
    lemma_has_through(all, row, v);
    if r.status == TakeStatus::Superseded {
        lemma_within("~~"@, r.claim, "~~"@);
        lemma_within("~~"@, r.value, "~~"@);
        lemma_has_through(all, c, r.claim);
        lemma_has_through(all, v, r.value);
    } else {
        reveal_strlit(" | ");
        reveal_strlit("active");
        reveal_strlit(" | active | ");
        let mid = " | "@ + c + " | "@ + v + " | active | "@;
        let a = "| "@ + decimal(r.row_num as nat);
        let z = crate::takes_fence::short_source(r.source_memory_id) + " |\n"@;
        assert(" | active | "@ =~= " | "@ + "active"@ + " | "@);
        assert(row =~= a + mid + z);
        lemma_within(a, mid, z);
        lemma_has_through(all, row, mid);
    }
    let rest = "\n\n"@ + "| # | claim | value | status | source |\n"@
        + "|---|-------|-------|--------|--------|\n"@ + markdown_rows(t.rows);
    lemma_within("### Takes: "@, t.subject, rest);
    assert("### Takes: "@ + t.subject + rest =~= all);
}

proof fn lemma_has_through(a: Seq<char>, b: Seq<char>, x: Seq<char>)
    requires
        has_sub(a, b),
        has_sub(b, x),
    ensures
        has_sub(a, x),
{
    let i = choose|i: int| occurs_at(a, b, i);
    let k = choose|k: int| occurs_at(b, x, k);
    assert(a.subrange(i + k, i + k + x.len()) =~= a.subrange(i, i + b.len()).subrange(k, k + x.len()));
    assert(occurs_at(a, x, i + k));
}

pub(crate) proof fn lemma_joined(parts: Seq<Seq<char>>, sep: Seq<char>, i: int)
    requires
        0 <= i < parts.len(),
    ensures
        has_sub(join(parts, sep), parts[i]),
    decreases parts.len(),
{
    let e = Seq::<char>::empty();
    if parts.len() == 1 {
        lemma_within(e, parts[0], e);
        assert(e + parts[0] + e =~= parts[0]);
    } else {
        let rest = join(parts.drop_last(), sep);
        if i < parts.len() - 1 {
            lemma_joined(parts.drop_last(), sep, i);
            assert(parts.drop_last()[i] == parts[i]);
            lemma_within_more(e, rest, sep + parts.last(), parts[i]);
            assert(e + rest + (sep + parts.last()) =~= join(parts, sep));
        } else {
            lemma_within(rest + sep, parts[i], e);
            assert(rest + sep + parts[i] + e =~= join(parts, sep));
        }
    }
}

proof fn lemma_active(rows: Seq<RowView>)
    ensures
        forall|k: int| 0 <= k < rows.len() && (#[trigger] rows[k]).status == TakeStatus::Active ==> active(rows).contains(
            rows[k],
        ),
        forall|k: int|
            0 <= k < active(rows).len() ==> rows.contains(#[trigger] active(rows)[k]) && active(rows)[k].status
                == TakeStatus::Active,
{
    let test = |r: RowView| r.status == TakeStatus::Active;
    assert(active(rows) == rows.filter(test));
    assert forall|k: int| 0 <= k < rows.len() && (#[trigger] rows[k]).status == TakeStatus::Active implies active(
        rows,
    ).contains(rows[k]) by {
        crate::select::filter_has(rows, test, k);
    }
    assert forall|k: int| 0 <= k < active(rows).len() implies rows.contains(#[trigger] active(rows)[k])
        && active(rows)[k].status == TakeStatus::Active by {
        crate::select::filter_from(rows, test, k);
    }
}

proof fn lemma_compact_row(r: RowView)
    ensures
        has_sub(compact_row(r), r.claim + "="@ + r.value),
{
    lemma_ends_with("[row="@ + decimal(r.row_num as nat) + "] "@, r.claim, "="@, r.value);
}

proof fn lemma_ends_with(a: Seq<char>, b: Seq<char>, c: Seq<char>, d: Seq<char>)
    ensures
        has_sub(a + b + c + d, b + c + d),
{
    let s = a + b + c + d;
    let x = b + c + d;
    let i = a.len() as int;
    assert(s.subrange(i, i + x.len()) =~= x);
    assert(occurs_at(s, x, i));
}

/// In short, a table shows each claim that holds with its value.
pub proof fn short_table_shows_what_holds(t: TableView, i: int)
    requires
        0 <= i < t.rows.len(),
        t.rows[i].status == TakeStatus::Active,
    ensures
        has_sub(compact(t), t.rows[i].claim + "="@ + t.rows[i].value),
{
    let r = t.rows[i];
    let rows = active(t.rows);
    let parts = rows.map_values(|r: RowView| compact_row(r));
    lemma_active(t.rows);
    let k = rows.index_of(r);
    assert(parts[k] == compact_row(r));
    lemma_joined(parts, "; "@, k);
    lemma_compact_row(r);
    lemma_has_through(compact(t), compact_row(r), r.claim + "="@ + r.value);
}

/// In short, a table shows nothing where no claim holds.
pub proof fn short_table_hides_what_does_not_hold(t: TableView)
    requires
        forall|k: int| 0 <= k < t.rows.len() ==> (#[trigger] t.rows[k]).status == TakeStatus::Superseded,
    ensures
        compact(t).len() == 0,
{
    lemma_active(t.rows);
    if active(t.rows).len() > 0 {
        let x = active(t.rows)[0];
        assert(t.rows[t.rows.index_of(x)] == x);
    }
    assert(active(t.rows).map_values(|r: RowView| compact_row(r)).len() == 0);
}

/// A recap holds the summary that it is made of, without the white space around it.
pub proof fn recap_holds_the_summary(summary: Seq<char>)
    ensures
        has_sub(recap_text(summary), trim(summary)),
        recap_text(summary).len() > trim(summary).len(),
{
    reveal_strlit("[CONVERSATION RECAP]\n");
    let head = "[CONVERSATION RECAP]\n"@;
    let tail = recap_text(summary).skip((head + trim(summary)).len() as int);
    assert(head.len() == 21);
    lemma_within(head, trim(summary), tail);
    assert(head + trim(summary) + tail =~= recap_text(summary));
}

/// A line of a transcript ends with what was said, after who said it and when, where it is known.
pub proof fn transcript_says_who_spoke(m: MessageView, clock: Option<Seq<char>>)
    ensures
        has_sub(transcript_line(m, clock), m.content),
        m.role == "user"@ ==> has_sub(transcript_line(m, clock), "[User says to me]"@),
        m.role != "user"@ ==> has_sub(transcript_line(m, clock), "[I say to User]"@),
        clock matches Some(c) ==> has_sub(transcript_line(m, clock), c),
{
    let r = transcript_line(m, clock);
    let e = Seq::<char>::empty();
    let when = match clock {
        Some(t) => "["@ + t + "] "@,
        None => e,
    };
    let who = if m.role == "user"@ {
        "[User says to me]"@
    } else {
        "[I say to User]"@
    };
    lemma_within(when + who + " "@, m.content, e);
    assert(when + who + " "@ + m.content + e =~= r);
    lemma_within(when, who, " "@ + m.content);
    assert(when + who + (" "@ + m.content) =~= r);
    if let Some(c) = clock {
        lemma_within("["@, c, "] "@ + who + " "@ + m.content);
        assert("["@ + c + ("] "@ + who + " "@ + m.content) =~= r);
    }
}

/// The text that is embedded holds what stands before it, the content and the description, in
/// this order; without the first and the last it is the content alone.
pub proof fn embedded_text_holds_its_parts(m: ItemView, prefix: Seq<char>, body: Seq<char>)
    ensures
        has_sub(embed_text(m, prefix), trim(m.content)),
        has_sub(embed_text(m, prefix), prefix) || prefix.len() == 0,
        m.description matches Some(d) ==> has_sub(embed_text(m, prefix), trim(d)) || trim(d).len() == 0,
        prefix.len() == 0 && (m.description matches Some(d) ==> trim(d).len() == 0) ==> embed_text(m, prefix)
            == trim(m.content),
        has_sub(embed_source(prefix, body), body),
        has_sub(embed_source(prefix, body), prefix) || prefix.len() == 0,
        prefix.len() == 0 ==> embed_source(prefix, body) == body,
{
    let about = match m.description {
        Some(d) => trim(d),
        None => Seq::empty(),
    };
    let a = if prefix.len() > 0 {
        seq![prefix, trim(m.content)]
    } else {
        seq![trim(m.content)]
    };
    let parts = if about.len() > 0 {
        a.push(about)
    } else {
        a
    };
    lemma_joined(parts, "："@, 0);
    lemma_joined(parts, "："@, a.len() - 1);
    lemma_joined(parts, "："@, parts.len() - 1);
    assert(parts[a.len() - 1] == trim(m.content));
    let e = Seq::<char>::empty();
    let r = embed_source(prefix, body);
    if prefix.len() == 0 {
        lemma_within(e, body, e);
        assert(e + body + e =~= r);
    } else {
        lemma_within(prefix + "："@, body, e);
        assert(prefix + "："@ + body + e =~= r);
        lemma_within(e, prefix, "："@ + body);
        assert(e + prefix + ("："@ + body) =~= r);
    }
}

// ---------------------------------------------------------------------------
// What is picked
// ---------------------------------------------------------------------------

/// What a conversation shows already is not shown again; everything else is.
pub proof fn shown_memories_are_left_out(s: Seq<ItemView>, visible: Seq<Seq<char>>, x: ItemView)
    ensures
        unseen(s, visible).contains(x) <==> s.contains(x) && !visible.contains(x.id),
{
    lemma_filtered(s, |m: ItemView| !visible.contains(m.id), x);
}

/// A memory that names no one concerns everyone. One that does concerns whoever spoke, whoever
/// was spoken to and whoever observed it, and everyone where it was said directly; no one else.
pub proof fn memory_concerns_those_who_were_there(m: ItemView, who: Seq<char>)
    ensures
        !m.metadata.contains_key("speaker"@) && !m.metadata.contains_key("listener"@)
            && !m.metadata.contains_key("observer_id"@) && !m.metadata.contains_key("knowledge_source"@)
            ==> concerns(m, who),
        text_at(m.metadata, "speaker"@) == Some(who) ==> concerns(m, who),
        text_at(m.metadata, "listener"@) == Some(who) ==> concerns(m, who),
        text_at(m.metadata, "observer_id"@) == Some(who) ==> concerns(m, who),
        text_at(m.metadata, "knowledge_source"@) == Some("direct"@) ==> concerns(m, who),
        who.len() > 0 && m.metadata.contains_key("speaker"@) && text_at(m.metadata, "speaker"@) != Some(who)
            && text_at(m.metadata, "listener"@) != Some(who) && text_at(m.metadata, "observer_id"@) != Some(
            who,
        ) && text_at(m.metadata, "knowledge_source"@) != Some("direct"@) ==> !concerns(m, who),
{
}

/// Where conditions are loosened step by step, the first step that gives enough wins, and the
/// last where none does: only one step wins.
pub proof fn first_step_with_enough_wins(least: int, flags: Seq<Seq<bool>>, a: int, b: int)
    requires
        winning(least, flags, a),
    ensures
        winning(least, flags, b) ==> a == b,
        0 <= b < a ==> count_set(flags[b]) < least,
        0 <= b < 5 && b < flags.len() && count_set(flags[b]) >= least ==> a <= b,
        a < 4 ==> count_set(flags[a]) >= least,
{
    if winning(least, flags, b) && b < a {
        assert(count_set(flags[b]) < least);
    }
    if winning(least, flags, b) && a < b {
        assert(count_set(flags[a]) < least);
    }
}

/// Of similar memories, those that a new fact contradicts are the ones that were told to.
pub proof fn told_memories_are_contradicted(
    similar: Seq<(Seq<char>, Seq<char>, i64)>,
    flags: Seq<bool>,
    id: Seq<char>,
)
    ensures
        contradicted(similar, flags).contains(id) <==> exists|k: int|
            0 <= k < similar.len() && flags[k] && (#[trigger] similar[k]).0 == id,
{
    let some = kept(similar, flags);
    let r = contradicted(similar, flags);
    if r.contains(id) {
        let i = r.index_of(id);
        assert(r[i] == some[i].0);
        let at = kept_from(similar, flags, i);
        assert(similar[at].0 == id);
    }
    if exists|k: int| 0 <= k < similar.len() && flags[k] && (#[trigger] similar[k]).0 == id {
        let k = choose|k: int| 0 <= k < similar.len() && flags[k] && (#[trigger] similar[k]).0 == id;
        kept_has(similar, flags, k);
        let i = some.index_of(similar[k]);
        assert(r[i] == id);
    }
}

/// The seeds that an index lacks are the memories that begin as seeds and stand in none of its
/// documents.
pub proof fn index_lacks_unlisted_seeds(s: Seq<ItemView>, listed: Seq<Seq<char>>, x: ItemView)
    ensures
        kept(s, missing_seed_flags(s, listed)).contains(x) <==> s.contains(x) && is_seed(x)
            && !listed.contains(x.id),
{
    let flags = missing_seed_flags(s, listed);
    let r = kept(s, flags);
    if r.contains(x) {
        let at = kept_from(s, flags, r.index_of(x));
        assert(s[at] == x);
    }
    if s.contains(x) && is_seed(x) && !listed.contains(x.id) {
        let k = s.index_of(x);
        assert(flags[k]);
        kept_has(s, flags, k);
    }
}

/// The words of a text are its pieces in small letters, but for single characters and white space.
pub proof fn words_are_long_pieces(pieces: Seq<Seq<char>>, w: Seq<char>)
    ensures
        words_among(pieces).contains(w) <==> w.len() > 1 && !is_blank(w) && exists|i: int|
            0 <= i < pieces.len() && lowercase(#[trigger] pieces[i]) == w,
    decreases pieces.len(),
{
    if pieces.len() > 0 {
        let rest = words_among(pieces.drop_last());
        let all = words_among(pieces);
        words_are_long_pieces(pieces.drop_last(), w);
        if all.contains(w) {
            let k = all.index_of(w);
            if k < rest.len() {
                assert(rest[k] == w);
                let i = choose|i: int|
                    0 <= i < pieces.drop_last().len() && lowercase(#[trigger] pieces.drop_last()[i]) == w;
                assert(lowercase(pieces[i]) == w);
            } else {
                assert(lowercase(pieces[pieces.len() - 1]) == w);
            }
        }
        if w.len() > 1 && !is_blank(w) && exists|i: int|
            0 <= i < pieces.len() && lowercase(#[trigger] pieces[i]) == w {
            let i = choose|i: int| 0 <= i < pieces.len() && lowercase(#[trigger] pieces[i]) == w;
            if i < pieces.len() - 1 {
                assert(lowercase(pieces.drop_last()[i]) == w);
                assert(all[rest.index_of(w)] == w);
            } else {
                assert(all[rest.len() as int] == w);
            }
        }
    }
}

proof fn lemma_last_brace(s: Seq<char>, c: char)
    ensures
        match last_at(s, c) {
            Some(i) => 0 <= i < s.len() && s[i] == c && forall|j: int|
                i < j < s.len() ==> #[trigger] s[j] != c,
            None => !s.contains(c),
        },
    decreases s.len(),
{
    if s.len() > 0 && s.last() != c {
        lemma_last_brace(s.drop_last(), c);
        if last_at(s.drop_last(), c) is None && s.contains(c) {
            let k = s.index_of(c);
            assert(s.drop_last()[k] == c);
        }
        if let Some(i) = last_at(s.drop_last(), c) {
            assert forall|j: int| i < j < s.len() implies #[trigger] s[j] != c by {
                if j < s.len() - 1 {
                    assert(s.drop_last()[j] != c);
                }
            }
        }
    }
}

/// Of a reply the part from the first brace that opens to the last that closes is read, and
/// nothing where there is no such part.
pub proof fn braces_of_a_reply_are_read(s: Seq<char>, before: Seq<char>, inner: Seq<char>, after: Seq<char>)
    ensures
        s == before + seq!['{'] + inner + seq!['}'] + after && !before.contains('{') && !after.contains('}')
            ==> braced(s) == Some(seq!['{'] + inner + seq!['}']),
        !s.contains('{') ==> braced(s) is None,
        !s.contains('}') ==> braced(s) is None,
{
    let open = seq!['{'];
    lemma_find(s, open);
    lemma_last_brace(s, '}');
    if let Some(k) = find(s, open) {
        assert(occurs_at(s, open, k));
        assert(s.subrange(k, k + 1)[0] == s[k]);
        assert(s[k] == '{');
        assert(s.contains('{'));
    }
    if let Some(k) = last_at(s, '}') {
        assert(s[k] == '}');
        assert(s.contains('}'));
    }
    if s =~= before + seq!['{'] + inner + seq!['}'] + after && !before.contains('{') && !after.contains('}') {
        let i = before.len() as int;
        let j = i + 1 + inner.len();
        assert(s.subrange(i, i + 1) =~= open);
        assert(occurs_at(s, open, i));
        let k = find(s, open)->0;
        if k < i {
            assert(before[k] == '{');
            assert(before.contains('{'));
        }
        assert(k == i);
        assert(s[j] == '}');
        assert(s.contains('}'));
        let last = last_at(s, '}')->0;
        if last > j {
            assert(after[last - j - 1] == '}');
            assert(after.contains('}'));
        }
        assert(last == j);
        assert(s.subrange(i, j + 1) =~= seq!['{'] + inner + seq!['}']);
    }
}

/// A note of two thousand characters at most loses nothing.
pub proof fn short_note_loses_nothing(content: Seq<char>)
    ensures
        content.len() <= 2000 ==> evictions(content) == 0,
{
}

/// A memory tells whether personal data was found in it or taken out; one that says nothing is
/// clean.
pub proof fn silence_is_clean(meta: Map<Seq<char>, MetaView>)
    ensures
        status_in(meta) == RedactStatus::Detected <==> text_at(meta, "redact_status"@) == Some("detected"@),
        status_in(meta) == RedactStatus::Redacted <==> text_at(meta, "redact_status"@) == Some("redacted"@),
        text_at(meta, "redact_status"@) is None ==> status_in(meta) == RedactStatus::Clean,
{
    reveal_strlit("detected");
    reveal_strlit("redacted");
    assert("detected"@[0] == 'd');
    assert("redacted"@[0] == 'r');
}

/// What is known of the user matters most of itself, then their wishes and what is between them,
/// and least what is general.
pub proof fn kinds_matter_of_themselves(a: SemanticType)
    ensures
        200_000 <= a.floor() <= 800_000,
        a != SemanticType::User ==> a.floor() < SemanticType::User.floor(),
        a != SemanticType::General ==> a.floor() > SemanticType::General.floor(),
        SemanticType::User.floor() == 800_000,
        a == SemanticType::Feedback || a == SemanticType::Relationship ==> a.floor() == 700_000,
        a == SemanticType::SharedMemory || a == SemanticType::Project ==> a.floor() == 500_000,
        a == SemanticType::Reference ==> a.floor() == 400_000,
        SemanticType::General.floor() == 200_000,
{
}

// ---------------------------------------------------------------------------
// What is counted and written
// ---------------------------------------------------------------------------

/// Of the conflicts that come up each is settled, waits for another time or is given up. One that
/// a model could not judge changes nothing but its waiting; one that it judged is settled.
pub proof fn every_conflict_is_settled_or_waits(
    s: Seq<ItemView>,
    batch: Seq<ConflictView>,
    verdicts: Seq<Verdict>,
    now: i64,
    n: nat,
)
    requires
        0 < n,
    ensures
        ({
            let before = tally(s, batch, verdicts, now, (n - 1) as nat);
            let after = tally(s, batch, verdicts, now, n);
            let asked = conflict_step(before.entries, batch[n - 1]) == ConflictStep::Ask;
            &&& after.processed + after.waiting.len() <= n
            &&& asked && verdicts[n - 1] is Failed ==> after.entries == before.entries && after.processed
                == before.processed
            &&& asked && !(verdicts[n - 1] is Failed) ==> after.processed == before.processed + 1
                && after.waiting == before.waiting
            &&& !asked ==> after.entries == before.entries
        }),
    decreases n,
{
    if n > 1 {
        every_conflict_is_settled_or_waits(s, batch, verdicts, now, (n - 1) as nat);
    }
}

/// What a model says of a memory is noted under its own names; what it does not say, and what is
/// noted under other names, stays.
pub proof fn description_is_noted(meta: Map<Seq<char>, MetaView>, e: EnrichedView, key: Seq<char>)
    ensures
        ({
            let r = enriched_metadata(meta, e);
            &&& text_at(r, "semantic_type"@) == Some(e.semantic_type.name())
            &&& list_at(r, "keywords"@) == (if e.keywords.len() > 0 {
                e.keywords
            } else {
                list_at(meta, "keywords"@)
            })
            &&& list_at(r, "mood_tags"@) == (if e.mood_tags.len() > 0 {
                e.mood_tags
            } else {
                list_at(meta, "mood_tags"@)
            })
            &&& text_at(r, "summary"@) == (if e.summary is Some {
                e.summary
            } else {
                text_at(meta, "summary"@)
            })
            &&& key != "semantic_type"@ && key != "keywords"@ && key != "mood_tags"@ && key != "summary"@
                && meta.contains_key(key) ==> r.contains_key(key) && r[key] == meta[key]
        }),
{
    reveal_strlit("semantic_type");
    reveal_strlit("keywords");
    reveal_strlit("mood_tags");
    reveal_strlit("summary");
    assert("semantic_type"@.len() == 13);
    assert("keywords"@.len() == 8);
    assert("mood_tags"@.len() == 9);
    assert("summary"@.len() == 7);
}

/// A result notes what it scored: overall, by how recent, how fitting and how important it is,
/// by words and by likeness.
pub proof fn result_notes_its_scores(
    m: ItemView,
    words: i64,
    likeness: i64,
    r: RawScores,
    raws: Seq<Option<RawScores>>,
    w: RetrievalWeights,
    n: nat,
)
    ensures
        ({
            let s = scored_metadata(m, words, likeness, r, raws, w, n);
            &&& s["bm25_score"@] == MetaView::Micros(words)
            &&& s["vector_similarity"@] == MetaView::Micros(likeness)
            &&& s["recency_score"@] == crate::retriever::clamped(r.recency as int)
            &&& s["relevance_score"@] == crate::retriever::clamped(r.relevance as int / 1_000_000)
            &&& s["importance_score"@] == crate::retriever::clamped(r.importance as int)
            &&& s["fused_score"@] == crate::retriever::clamped(final_score(r, raws, w) / 1_000_000)
            &&& s["normalize_n"@] == MetaView::Int(n as i64)
        }),
{
    reveal_strlit("bm25_score");
    reveal_strlit("vector_similarity");
    reveal_strlit("fused_score");
    reveal_strlit("recency_score");
    reveal_strlit("relevance_score");
    reveal_strlit("importance_score");
    reveal_strlit("hook_boost_score");
    reveal_strlit("need_sim_score");
    reveal_strlit("norm_recency");
    reveal_strlit("norm_relevance");
    reveal_strlit("norm_importance");
    reveal_strlit("norm_hook_boost");
    reveal_strlit("norm_need_sim");
    reveal_strlit("semantic_boost");
    reveal_strlit("knowledge_source_boost");
    reveal_strlit("normalize_n");
    assert("bm25_score"@[0] == 'b');
    assert("vector_similarity"@[0] == 'v');
    assert("fused_score"@[0] == 'f');
    assert("recency_score"@[0] == 'r' && "recency_score"@.len() == 13);
    assert("relevance_score"@[0] == 'r' && "relevance_score"@.len() == 15);
    assert("importance_score"@[0] == 'i');
    assert("hook_boost_score"@[0] == 'h');
    assert("need_sim_score"@[0] == 'n');
    assert("norm_recency"@[0] == 'n');
    assert("norm_relevance"@[0] == 'n');
    assert("norm_importance"@[0] == 'n');
    assert("norm_hook_boost"@[0] == 'n');
    assert("norm_need_sim"@[0] == 'n');
    assert("semantic_boost"@[0] == 's');
    assert("knowledge_source_boost"@[0] == 'k');
}

/// The tags of a definition are its parts without the white space around them, but for empty ones.
pub proof fn tags_are_the_parts(parts: Seq<Seq<char>>, t: Seq<char>)
    ensures
        tag_list(parts).contains(t) <==> t.len() > 0 && exists|i: int|
            0 <= i < parts.len() && trim(#[trigger] parts[i]) == t,
    decreases parts.len(),
{
    if parts.len() > 0 {
        let rest = tag_list(parts.drop_last());
        let all = tag_list(parts);
        tags_are_the_parts(parts.drop_last(), t);
        if all.contains(t) {
            let k = all.index_of(t);
            if k < rest.len() {
                assert(rest[k] == t);
                let i = choose|i: int|
                    0 <= i < parts.drop_last().len() && trim(#[trigger] parts.drop_last()[i]) == t;
                assert(trim(parts[i]) == t);
            } else {
                assert(trim(parts[parts.len() - 1]) == t);
            }
        }
        if t.len() > 0 && exists|i: int| 0 <= i < parts.len() && trim(#[trigger] parts[i]) == t {
            let i = choose|i: int| 0 <= i < parts.len() && trim(#[trigger] parts[i]) == t;
            if i < parts.len() - 1 {
                assert(trim(parts.drop_last()[i]) == t);
                assert(all[rest.index_of(t)] == t);
            } else {
                assert(all[rest.len() as int] == t);
            }
        }
    }
}

/// A text falls into its sentences, and what is left after the last of them: nothing is lost, and
/// a sentence ends where one of its characters ends it.
pub proof fn sentences_lose_nothing(s: Seq<char>)
    ensures
        glued(sentences(s).0) + sentences(s).1 == s,
        forall|i: int|
            0 <= i < sentences(s).0.len() ==> (#[trigger] sentences(s).0[i]).len() > 0 && ends_sentence(
                sentences(s).0[i].last(),
            ),
        forall|k: int| 0 <= k < sentences(s).1.len() ==> !ends_sentence(#[trigger] sentences(s).1[k]),
    decreases s.len(),
{
    if s.len() == 0 {
        assert(glued(sentences(s).0) + sentences(s).1 =~= s);
    } else {
        let p = sentences(s.drop_last());
        let cur = p.1.push(s.last());
        sentences_lose_nothing(s.drop_last());
        assert(s.drop_last().push(s.last()) =~= s);
        assert(glued(p.0) + cur =~= (glued(p.0) + p.1).push(s.last()));
        if ends_sentence(s.last()) {
            assert(sentences(s).0.drop_last() =~= p.0);
            assert(glued(sentences(s).0) + sentences(s).1 =~= glued(p.0) + cur);
        }
    }
}

proof fn lemma_glued_first(a: Seq<char>, b: Seq<Seq<char>>)
    ensures
        glued(seq![a] + b) == a + glued(b),
    decreases b.len(),
{
    let s = seq![a] + b;
    if b.len() == 0 {
        reveal_with_fuel(glued, 2);
        assert(s.drop_last() =~= Seq::<Seq<char>>::empty());
        assert(s.last() == a);
        assert(glued(s) =~= a + glued(b));
    } else {
        lemma_glued_first(a, b.drop_last());
        assert(s.drop_last() =~= seq![a] + b.drop_last());
        assert(s.last() == b.last());
        assert(glued(s) =~= a + glued(b));
    }
}

/// A text that is cut falls into pieces of the length that is allowed, and nothing is lost.
pub proof fn cutting_loses_nothing(c: Seq<char>, n: int)
    requires
        0 < n,
    ensures
        glued(cut(c, n)) == c,
        forall|i: int| 0 <= i < cut(c, n).len() ==> (#[trigger] cut(c, n)[i]).len() <= n,
    decreases c.len(),
{
    let e = Seq::<Seq<char>>::empty();
    if c.len() <= n {
        lemma_glued_first(c, e);
        assert(seq![c] + e =~= seq![c]);
        assert(c + glued(e) =~= c);
    } else {
        cutting_loses_nothing(c.skip(n), n);
        lemma_glued_first(c.take(n), cut(c.skip(n), n));
        assert(c.take(n) + c.skip(n) =~= c);
    }
}

/// The time of the latest memory is that of one of them, and no memory is later.
pub proof fn latest_time_is_the_last(s: Seq<ItemView>, i: int)
    requires
        0 <= i < s.len(),
    ensures
        s[i].timestamp <= latest_time(s),
        exists|k: int| 0 <= k < s.len() && (#[trigger] s[k]).timestamp == latest_time(s),
    decreases s.len(),
{
    let n = s.len() - 1;
    let rest = s.drop_last();
    if n > 0 {
        latest_time_is_the_last(rest, if i < n {
            i
        } else {
            0
        });
        let k = choose|k: int| 0 <= k < rest.len() && (#[trigger] rest[k]).timestamp == latest_time(rest);
        assert(s[k] == rest[k]);
        if i < n {
            assert(rest[i] == s[i]);
        }
    } else {
        assert(latest_time(rest) == i64::MIN);
    }
    assert(s[n].timestamp <= latest_time(s));
}

/// A number is written in digits, the last after those of its tenth.
pub proof fn numbers_are_written_in_digits(n: nat, d: nat)
    requires
        d < 10,
    ensures
        n > 0 ==> decimal(10 * n + d) == decimal(n) + decimal(d),
        decimal(d).len() == 1 && decimal(d)[0] as u32 == 48 + d,
        decimal(n).len() > 0,
        n > 0 ==> decimal(n)[0] != '0',
    decreases n,
{
    if n >= 10 {
        numbers_are_written_in_digits(n / 10, d);
        numbers_are_written_in_digits(n / 10, n % 10);
    }
    if n > 0 {
        assert((10 * n + d) / 10 == n && (10 * n + d) % 10 == d);
        assert(decimal(10 * n + d) =~= decimal(n) + decimal(d));
    }
}

} // verus!
