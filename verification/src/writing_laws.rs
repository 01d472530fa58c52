//! What writing memories promises: what a conversation leaves, what a new memory is like, what
//! is taken out of it, and what definitions and documents become.

use crate::bm25::{document_frequency, entry_tokens};
use crate::notes::{diary_item, document_item, half, index_type, is_diary, is_document, type_tags};
use crate::ordered::sorting_orders;
use crate::pattern::regex_spans;
use crate::qdrant::{filter_clauses, ClauseView};
use crate::rank::ranking_gives_the_best;
use crate::redact::{found, held_under, first_text, last_end, log_text, masked, pii_in, pii_patterns, placeholder,
    remembers, span_of, start_keys, RedactStatus, SpanView};
use crate::reindex::drifted;
use crate::retriever::frequency;
use crate::seed::{all_digits, decimal_micros, endless, exponent_mark, items_of_spec, mantissa, number, pow10,
    read_lines, seed_time, shifted, unsigned_micros, Phase, SeedView};
use crate::strategy::is_expired_at;
use crate::text::{begins, capital, ends, has_any, has_sub, is_blank, is_char, is_digit, lowercase, split_where, texts,
    trim};
use crate::time_anchor::{anchored, needs_anchor, whole_seconds};
use crate::types::{text_at, ItemView, MemoryType, MetaView};
use crate::writing::{context_writes, drafted, fact_category, inferred_tags, prefix_views, reply_write,
    reply_writes, user_write, Conversation, NewView};
use vstd::prelude::*;
use vstd::string::*;
use vstd::utf8::encode_utf8;

verus! {

// ---------------------------------------------------------------------------
// What a conversation leaves
// ---------------------------------------------------------------------------

/// Whether the text is there and says something.
pub open spec fn says(o: Option<String>) -> bool {
    o matches Some(t) && !is_blank(t@)
}

proof fn lemma_replies(
    replies: Seq<Seq<char>>,
    prefixes: Seq<Option<Seq<char>>>,
    emotion: Seq<char>,
    importance: i64,
    meta: Map<Seq<char>, MetaView>,
    n: nat,
)
    requires
        n <= replies.len(),
    ensures
        ({
            let r = reply_writes(replies, prefixes, emotion, importance, meta, n);
            &&& r.len() == replies.take(n as int).filter(|t: Seq<char>| !is_blank(t)).len()
            &&& forall|i: int|
                0 <= i < r.len() ==> (#[trigger] r[i]).importance <= importance && r[i].importance <= 300_000
                    && r[i].memory_type is ShortTerm && r[i].tags.contains("assistant"@)
            &&& r.len() > 0 && n > 0 && !is_blank(replies[0]) ==> r[0].importance <= 250_000
        }),
    decreases n,
{
    reveal(Seq::filter);
    if n > 0 {
        lemma_replies(replies, prefixes, emotion, importance, meta, (n - 1) as nat);
        assert(replies.take(n as int).drop_last() =~= replies.take(n - 1));
        assert(replies.take(n as int).last() == replies[n - 1]);
        let r = reply_writes(replies, prefixes, emotion, importance, meta, n);
        let rest = reply_writes(replies, prefixes, emotion, importance, meta, (n - 1) as nat);
        assert forall|i: int| 0 <= i < r.len() implies (#[trigger] r[i]).importance <= importance
            && r[i].importance <= 300_000 && r[i].memory_type is ShortTerm && r[i].tags.contains("assistant"@) by {
            if i < rest.len() {
                assert(r[i] == rest[i]);
            } else {
                assert(r[i].tags[1] == "assistant"@);
            }
        }
        if n > 1 && !is_blank(replies[0]) {
            lemma_first_reply(replies, prefixes, emotion, importance, meta, (n - 1) as nat);
        }
    }
}

proof fn lemma_first_reply(
    replies: Seq<Seq<char>>,
    prefixes: Seq<Option<Seq<char>>>,
    emotion: Seq<char>,
    importance: i64,
    meta: Map<Seq<char>, MetaView>,
    n: nat,
)
    requires
        1 <= n <= replies.len(),
        !is_blank(replies[0]),
    ensures
        ({
            let r = reply_writes(replies, prefixes, emotion, importance, meta, n);
            r.len() > 0 && r[0] == reply_write(replies[0], prefixes[0], emotion, importance, 0, meta)
        }),
    decreases n,
{
    if n > 1 {
        lemma_first_reply(replies, prefixes, emotion, importance, meta, (n - 1) as nat);
    } else {
        reveal_with_fuel(reply_writes, 2);
    }
}

/// A conversation leaves what the user said, then one memory for each answer that says something,
/// then what is worth keeping for long; what is blank leaves nothing. What the user said keeps
/// its importance, an answer has at most three tenths and the first at most a quarter, and what
/// is kept for long has nine tenths.
pub proof fn conversation_leaves_what_was_said(
    c: Conversation,
    char_id: Seq<char>,
    user_meta: Option<Map<Seq<char>, MetaView>>,
    ai_meta: Option<Map<Seq<char>, MetaView>>,
)
    ensures
        ({
            let w = context_writes(c, char_id, user_meta, ai_meta);
            let answers = texts(c.replies@).filter(|t: Seq<char>| !is_blank(t)).len();
            let first: int = if says(c.user_input) {
                1
            } else {
                0
            };
            let last: int = if says(c.long_term_memory) {
                1
            } else {
                0
            };
            &&& w.len() == first + answers + last
            &&& says(c.user_input) ==> w[0].importance == c.importance_user && w[0].memory_type is ShortTerm
                && w[0].tags.contains("user"@) && ends(w[0].content, trim(c.user_input->0@))
            &&& says(c.long_term_memory) ==> w.last().memory_type is LongTerm && w.last().importance == 900_000
                && w.last().content == trim(c.long_term_memory->0@)
            &&& forall|i: int|
                first <= i < first + answers ==> (#[trigger] w[i]).importance <= c.importance_ai
                    && w[i].importance <= 300_000 && w[i].tags.contains("assistant"@)
            &&& c.replies@.len() > 0 && !is_blank(texts(c.replies@)[0]) ==> w[first].importance <= 250_000
        }),
{
    let am = match ai_meta {
        Some(m) => m,
        None => crate::writing::direct_metadata(char_id, "user"@),
    };
    let um = match user_meta {
        Some(m) => m,
        None => crate::writing::direct_metadata("user"@, char_id),
    };
    let emotion = match c.ai_emotion {
        Some(e) => e@,
        None => "neutral"@,
    };
    let replies = texts(c.replies@);
    let r = reply_writes(replies, prefix_views(c.reply_prefixes@), emotion, c.importance_ai, am, replies.len());
    lemma_replies(replies, prefix_views(c.reply_prefixes@), emotion, c.importance_ai, am, replies.len());
    assert(replies.take(replies.len() as int) =~= replies);
    assert(replies.len() == c.replies@.len());
    if replies.len() > 0 && !is_blank(replies[0]) {
        lemma_first_reply(
            replies,
            prefix_views(c.reply_prefixes@),
            emotion,
            c.importance_ai,
            am,
            replies.len(),
        );
    }
    let w = context_writes(c, char_id, user_meta, ai_meta);
    let first: int = if says(c.user_input) {
        1
    } else {
        0
    };
    assert forall|i: int| first <= i < first + r.len() implies (#[trigger] w[i]).importance
        <= c.importance_ai && w[i].importance <= 300_000 && w[i].tags.contains("assistant"@) by {
        assert(w[i] == r[i - first]);
    }
    if says(c.user_input) {
        let t = c.user_input->0@;
        let u = user_write(t, crate::text::opt_text(c.user_prefix), c.user_emotion@, c.importance_user, um);
        assert(w[0] == u);
        assert(u.tags[1] == "user"@);
        let s = u.content;
        assert(s.skip(s.len() - trim(t).len()) =~= trim(t));
    }
    if replies.len() > 0 && !is_blank(replies[0]) {
        assert(w[first] == r[0]);
    }
}

// ---------------------------------------------------------------------------
// A new memory
// ---------------------------------------------------------------------------

/// A new memory has the content, the type and the time that were asked for, an importance
/// between nothing and one, the tags it was given, and everything that its metadata said.
pub proof fn new_memory_is_what_was_asked_for(
    n: NewView,
    session: Option<Seq<char>>,
    random: Seq<char>,
    now: i64,
    key: Seq<char>,
)
    ensures
        ({
            let m = drafted(n, session, random, now);
            &&& m.content == n.content
            &&& m.memory_type == n.memory_type.name()
            &&& 0 <= m.importance <= 1_000_000
            &&& 0 <= n.importance <= 1_000_000 ==> m.importance == n.importance
            &&& n.importance < 0 ==> m.importance == 0
            &&& n.importance > 1_000_000 ==> m.importance == 1_000_000
            &&& n.timestamp_override matches Some(t) ==> m.timestamp == t
            &&& n.timestamp_override is None ==> m.timestamp == now
            &&& n.tags.len() > 0 ==> m.tags == n.tags
            &&& m.related_ids == n.related_ids && m.heat_score == n.heat
            &&& !m.consolidated && !m.protected && m.visit_count == 0
            &&& n.metadata matches Some(meta) ==> (meta.contains_key(key) ==> m.metadata.contains_key(key)
                && m.metadata[key] == meta[key])
            &&& session matches Some(s) ==> (n.metadata is None ==> text_at(m.metadata, "session_id"@)
                == Some(s))
        }),
{
    reveal_strlit("session_id");
    reveal_strlit("redact_status");
    reveal_strlit("pii_spans");
    assert("session_id"@.len() == 10 && "redact_status"@.len() == 13 && "pii_spans"@.len() == 9);
}

/// A memory without tags is tagged by its type, as lasting where it speaks of its speaker in eight
/// characters at least and asks nothing, and as passing where it has less than twenty or speaks
/// of a day close by.
pub proof fn tags_come_of_what_is_said(content: Seq<char>, t: MemoryType)
    ensures
        inferred_tags(content, t).contains("long_term"@) <==> has_sub(trim(content), "我"@) && trim(
            content,
        ).len() >= 8 && !ends(trim(content), "?"@),
        inferred_tags(content, t).contains("temporary"@) <==> trim(content).len() < 20 || has_sub(
            lowercase(trim(content)),
            "今天"@,
        ) || has_sub(lowercase(trim(content)), "明天"@) || has_sub(lowercase(trim(content)), "昨天"@),
        inferred_tags(content, t).contains("preference"@) <==> t is Preference,
        inferred_tags(content, t).contains("identity"@) <==> t is Identity,
        inferred_tags(content, t).contains("knowledge"@) <==> t is Knowledge,
        inferred_tags(content, t).contains("important_event"@) <==> t is ImportantEvent,
{
    reveal_strlit("long_term");
    reveal_strlit("temporary");
    reveal_strlit("preference");
    reveal_strlit("identity");
    reveal_strlit("knowledge");
    reveal_strlit("important_event");
    assert("long_term"@.len() == 9 && "temporary"@.len() == 9 && "preference"@.len() == 10 && "identity"@.len()
        == 8 && "knowledge"@.len() == 9 && "important_event"@.len() == 15);
    assert("long_term"@[0] == 'l' && "temporary"@[0] == 't' && "knowledge"@[0] == 'k');
    let w = trim(content);
    let a = crate::writing::type_tag(t);
    let b = if crate::writing::sounds_lasting(w) {
        a.push("long_term"@)
    } else {
        a
    };
    let c = if crate::writing::sounds_passing(w) {
        b.push("temporary"@)
    } else {
        b
    };
    sorting_orders(c);
    assert forall|x: Seq<char>| #[trigger] b.contains(x) == (a.contains(x) || (crate::writing::sounds_lasting(
        w,
    ) && x == "long_term"@)) by {
        lemma_pushed(a, "long_term"@, x);
    }
    assert forall|x: Seq<char>| #[trigger] c.contains(x) == (b.contains(x) || (crate::writing::sounds_passing(
        w,
    ) && x == "temporary"@)) by {
        lemma_pushed(b, "temporary"@, x);
    }
    assert forall|x: Seq<char>| #[trigger] a.contains(x) == ((t is Preference && x == "preference"@) || (
    t is Identity && x == "identity"@) || (t is ImportantEvent && x == "important_event"@) || (
    t is Knowledge && x == "knowledge"@)) by {
        if a.len() > 0 {
            assert(a[0] == a[0]);
            assert(a.contains(a[0]));
        }
    }
}

proof fn lemma_pushed(s: Seq<Seq<char>>, y: Seq<char>, x: Seq<char>)
    ensures
        s.push(y).contains(x) == (s.contains(x) || x == y),
{
    if s.contains(x) {
        assert(s.push(y)[s.index_of(x)] == x);
    }
    if x == y {
        assert(s.push(y)[s.len() as int] == x);
    }
    if s.push(y).contains(x) && x != y {
        assert(s[s.push(y).index_of(x)] == x);
    }
}

/// What is said of likes is a preference; else what is said of rules a rule of the house; else
/// what is said of home and work belongs to the surroundings; and all else is an event.
pub proof fn facts_are_sorted_by_what_they_speak_of(content: Seq<char>)
    ensures
        has_sub(lowercase(content), "喜欢"@) || has_sub(lowercase(content), "讨厌"@) ==> fact_category(
            content,
        ) is UserPreference,
        fact_category(content) is HouseRule ==> !has_sub(lowercase(content), "喜欢"@) && has_any(
            lowercase(content),
            seq!["规则"@, "约定"@, "不要"@, "应该"@],
        ),
        fact_category(content) is Environment ==> !has_sub(lowercase(content), "喜欢"@) && !has_sub(
            lowercase(content),
            "规则"@,
        ) && has_any(lowercase(content), seq!["住在"@, "工作"@, "职业"@, "学校"@]),
        fact_category(content) is SharedEvent ==> !has_sub(lowercase(content), "喜欢"@) && !has_sub(
            lowercase(content),
            "规则"@,
        ) && !has_sub(lowercase(content), "工作"@),
{
    let l = lowercase(content);
    let p = seq!["喜欢"@, "讨厌"@, "偏好"@, "爱"@];
    let h = seq!["规则"@, "约定"@, "不要"@, "应该"@];
    let e = seq!["住在"@, "工作"@, "职业"@, "学校"@];
    assert(p[0] == "喜欢"@ && p[1] == "讨厌"@ && h[0] == "规则"@ && e[1] == "工作"@);
}

// ---------------------------------------------------------------------------
// Documents and diaries
// ---------------------------------------------------------------------------

/// A document is found as one, and is good for exactly so many days as it was given; without such
/// a number it is good for ever.
pub proof fn document_is_good_for_its_days(
    u: Seq<char>,
    title: Seq<char>,
    content: Seq<char>,
    tags: Seq<Seq<char>>,
    source: Seq<char>,
    ttl_days: Option<i64>,
    heat: i64,
    now: i64,
    later: i64,
)
    requires
        ttl_days matches Some(d) ==> d > 0 ==> i64::MIN <= now + d * 86_400_000 <= i64::MAX && i64::MIN <= (now
            + d * 86_400_000) * 1000 <= i64::MAX,
    ensures
        ({
            let m = document_item(u, title, content, tags, source, ttl_days, heat, now);
            &&& is_document()(m)
            &&& m.content == content && m.description == Some(title) && m.importance == 800_000
            &&& m.memory_type == "knowledge"@
            &&& text_at(m.metadata, "source"@) == Some(source)
            &&& ttl_days matches Some(d) ==> d > 0 ==> (is_expired_at(m, later) <==> later >= now + d * 86_400_000)
            &&& ttl_days is None || ttl_days->0 <= 0 ==> !is_expired_at(m, later)
        }),
{
    reveal_strlit("title");
    reveal_strlit("source");
    reveal_strlit("kind");
    reveal_strlit("expires_at");
    reveal_strlit("ttl_days");
    assert("title"@.len() == 5 && "source"@.len() == 6 && "kind"@.len() == 4 && "expires_at"@.len() == 10
        && "ttl_days"@.len() == 8);
    let all = tags.push("knowledge"@).push("document"@);
    sorting_orders(all);
    assert(all[tags.len() as int] == "knowledge"@);
    assert(all.contains("knowledge"@));
}

/// A diary entry is found under its own number and no other, and lasts.
pub proof fn diary_entry_is_found_under_its_number(
    u: Seq<char>,
    diary_id: Seq<char>,
    date: Seq<char>,
    content: Seq<char>,
    mood_tag: Seq<char>,
    heat: i64,
    now: i64,
    other: Seq<char>,
)
    ensures
        ({
            let m = diary_item(u, diary_id, date, content, mood_tag, heat, now);
            &&& is_diary(other)(m) <==> other == diary_id
            &&& m.memory_type == "long_term"@ && m.content == content && m.importance == 800_000
            &&& m.tags.contains(date) && m.tags.contains(mood_tag)
        }),
{
    reveal_strlit("kind");
    reveal_strlit("diary_id");
    reveal_strlit("date");
    reveal_strlit("mood_tag");
    assert("kind"@.len() == 4 && "diary_id"@.len() == 8 && "date"@.len() == 4 && "mood_tag"@.len() == 8);
    assert("kind"@[0] == 'k' && "date"@[0] == 'd' && "diary_id"@[0] == 'd' && "mood_tag"@[0] == 'm');
    let all = seq!["diary"@, date, mood_tag];
    sorting_orders(all);
    assert(all[0] == "diary"@ && all[1] == date && all[2] == mood_tag);
    assert(all.contains("diary"@) && all.contains(date) && all.contains(mood_tag));
}

/// A keyword has half the importance of its session, toward nothing.
pub proof fn keywords_have_half_the_importance(x: i64)
    ensures
        x >= 0 ==> 2 * half(x) <= x <= 2 * half(x) + 1,
        x < 0 ==> 2 * half(x) - 1 <= x <= 2 * half(x),
{
}

/// A memory is indexed under the first of its tags that names a type, and as general where none
/// does.
pub proof fn index_type_is_the_first_tag_that_names_one(tags: Seq<Seq<char>>, i: int)
    requires
        0 <= i <= tags.len(),
        forall|k: int| 0 <= k < i ==> !type_tags().contains(#[trigger] tags[k]),
        i < tags.len() ==> type_tags().contains(tags[i]),
    ensures
        index_type(tags) == (if i < tags.len() {
            tags[i]
        } else {
            "general"@
        }),
    decreases tags.len(),
{
    if i > 0 {
        assert(!type_tags().contains(tags[0]));
        let t = tags.skip(1);
        assert forall|k: int| 0 <= k < i - 1 implies !type_tags().contains(#[trigger] t[k]) by {
            assert(t[k] == tags[k + 1]);
        }
        index_type_is_the_first_tag_that_names_one(t, i - 1);
    }
}

// ---------------------------------------------------------------------------
// Personal data
// ---------------------------------------------------------------------------

proof fn lemma_found(text: Seq<char>, n: nat, k: int, m: (usize, usize))
    requires
        n <= 8,
        0 <= k < n,
        regex_spans(pii_patterns()[k].1, text).contains(m),
    ensures
        found(text, n).contains(span_of(pii_patterns()[k].0, text, m)),
    decreases n,
{
    let x = span_of(pii_patterns()[k].0, text, m);
    let rest = found(text, (n - 1) as nat);
    let all = found(text, n);
    if k < n - 1 {
        lemma_found(text, (n - 1) as nat, k, m);
        assert(all[rest.index_of(x)] == x);
    } else {
        let r = regex_spans(pii_patterns()[k].1, text);
        let i = r.index_of(m);
        let p = pii_patterns()[n - 1];
        assert(r.map_values(|m: (usize, usize)| span_of(p.0, text, m))[i] == x);
        assert(all[rest.len() + i] == x);
    }
}

proof fn lemma_found_from(text: Seq<char>, n: nat, i: int) -> (r: (int, (usize, usize)))
    requires
        n <= 8,
        0 <= i < found(text, n).len(),
    ensures
        0 <= r.0 < n,
        regex_spans(pii_patterns()[r.0].1, text).contains(r.1),
        found(text, n)[i] == span_of(pii_patterns()[r.0].0, text, r.1),
    decreases n,
{
    let rest = found(text, (n - 1) as nat);
    if i < rest.len() {
        lemma_found_from(text, (n - 1) as nat, i)
    } else {
        let m = regex_spans(pii_patterns()[n - 1].1, text)[i - rest.len()];
        (n - 1, m)
    }
}

/// Every match of one of the patterns is found as personal data of its kind, where it stands, and
/// nothing else is; the finds come by where they begin.
pub proof fn every_match_is_found(text: Seq<char>, k: int, m: (usize, usize))
    requires
        0 <= k < 8,
        regex_spans(pii_patterns()[k].1, text).contains(m),
    ensures
        ({
            let r = pii_in(text);
            &&& exists|i: int|
                0 <= i < r.len() && (#[trigger] r[i]).start == m.0 && r[i].end == m.1 && r[i].pii_type
                    == pii_patterns()[k].0
            &&& forall|i: int, j: int|
                0 <= i < j < r.len() ==> (#[trigger] r[i]).start <= (#[trigger] r[j]).start
        }),
{
    lemma_found(text, 8, k, m);
    let f = found(text, 8);
    let x = span_of(pii_patterns()[k].0, text, m);
    let worth = |s: SpanView| -(s.start as int);
    let keys = start_keys(f);
    assert forall|i: int| 0 <= i < f.len() implies #[trigger] keys[i] == worth(f[i]) by {}
    ranking_gives_the_best(f, keys, f.len() as int, worth);
    let r = pii_in(text);
    assert(f[f.index_of(x)] == x);
    assert(r.contains(x));
    assert(r[r.index_of(x)].start == m.0);
    assert forall|i: int, j: int| 0 <= i < j < r.len() implies (#[trigger] r[i]).start <= (
    #[trigger] r[j]).start by {
        assert(worth(r[i]) >= worth(r[j]));
    }
}

/// What is found as personal data is a match of the pattern of its kind.
pub proof fn only_matches_are_found(text: Seq<char>, i: int)
    requires
        0 <= i < pii_in(text).len(),
    ensures
        exists|k: int|
            0 <= k < 8 && regex_spans((#[trigger] pii_patterns()[k]).1, text).contains(
                (pii_in(text)[i].start, pii_in(text)[i].end),
            ) && pii_in(text)[i].pii_type == pii_patterns()[k].0,
{
    let f = found(text, 8);
    let worth = |s: SpanView| -(s.start as int);
    let keys = start_keys(f);
    assert forall|i: int| 0 <= i < f.len() implies #[trigger] keys[i] == worth(f[i]) by {}
    ranking_gives_the_best(f, keys, f.len() as int, worth);
    let at = f.index_of(pii_in(text)[i]);
    let (k, m) = lemma_found_from(text, 8, at);
    assert(pii_patterns()[k].0 == pii_in(text)[i].pii_type);
}

/// Personal data that was found can be looked up by its identifier afterwards.
pub proof fn found_data_can_be_looked_up(
    before: Seq<(Seq<char>, String)>,
    after: Seq<(Seq<char>, String)>,
    s: Seq<SpanView>,
    text: Seq<char>,
    i: int,
)
    requires
        remembers(before, after, s, text),
        0 <= i < s.len(),
    ensures
        held_under(after, s[i].tracker_id) is Some,
{
    lemma_first_text(s, text, i);
    assert(held_under(after, s[i].tracker_id) == (match held_under(before, s[i].tracker_id) {
        Some(t) => Some(t),
        None => first_text(s, text, s[i].tracker_id),
    }));
}

proof fn lemma_first_text(s: Seq<SpanView>, text: Seq<char>, i: int)
    requires
        0 <= i < s.len(),
    ensures
        first_text(s, text, s[i].tracker_id) is Some,
    decreases s.len(),
{
    if i < s.len() - 1 {
        lemma_first_text(s.drop_last(), text, i);
    }
}

/// Of one find the text before it and the text behind it stay as they are, and a placeholder
/// stands in its place.
pub proof fn find_is_replaced_by_its_placeholder(b: Seq<u8>, x: SpanView)
    requires
        x.start <= x.end <= b.len(),
    ensures
        masked(b, seq![x]) + b.subrange(last_end(seq![x]), b.len() as int) == b.take(x.start as int)
            + encode_utf8(placeholder(x.pii_type)) + b.skip(x.end as int),
{
    reveal_with_fuel(masked, 2);
    assert(seq![x].drop_last() =~= Seq::<SpanView>::empty());
    assert(b.subrange(0, x.start as int) =~= b.take(x.start as int));
    assert(b.subrange(x.end as int, b.len() as int) =~= b.skip(x.end as int));
    assert(Seq::<u8>::empty() + b.take(x.start as int) =~= b.take(x.start as int));
}

/// How many bytes the finds take.
pub open spec fn bytes_found(s: Seq<SpanView>) -> int
    decreases s.len(),
{
    if s.len() == 0 {
        0
    } else {
        bytes_found(s.drop_last()) + (s.last().end - s.last().start)
    }
}

/// How many bytes their placeholders take.
pub open spec fn bytes_put(s: Seq<SpanView>) -> int
    decreases s.len(),
{
    if s.len() == 0 {
        0
    } else {
        bytes_put(s.drop_last()) + encode_utf8(placeholder(s.last().pii_type)).len()
    }
}

/// However many finds lie apart, exactly their bytes go, and exactly their placeholders come.
pub proof fn only_the_finds_go(b: Seq<u8>, s: Seq<SpanView>)
    requires
        forall|i: int| 0 <= i < s.len() ==> (#[trigger] s[i]).start <= s[i].end <= b.len(),
        forall|i: int| 0 <= i < s.len() - 1 ==> (#[trigger] s[i]).end <= s[i + 1].start,
    ensures
        masked(b, s).len() == last_end(s) - bytes_found(s) + bytes_put(s),
    decreases s.len(),
{
    if s.len() > 0 {
        let d = s.drop_last();
        assert forall|i: int| 0 <= i < d.len() implies #[trigger] d[i] == s[i] by {}
        only_the_finds_go(b, d);
        if d.len() > 0 {
            assert(s[d.len() - 1].end <= s[d.len() as int].start);
        }
        assert(s[s.len() - 1].start <= s[s.len() - 1].end <= b.len());
    }
}

/// A placeholder stands in brackets and names the kind in capitals.
pub proof fn placeholder_names_the_kind(kind: Seq<char>)
    ensures
        placeholder(kind).len() == kind.len() + 2,
        placeholder(kind)[0] == '[',
        placeholder(kind).last() == ']',
        forall|i: int| 0 <= i < kind.len() ==> placeholder(kind)[i + 1] == capital(#[trigger] kind[i]),
{
    reveal_strlit("[");
    reveal_strlit("]");
    assert("["@.len() == 1 && "]"@.len() == 1);
}

/// A text for the log is the text itself as long as it is short enough; else its beginning and a
/// mark, which says whether something was taken out.
pub proof fn log_shows_the_beginning(text: Seq<char>, max_len: int)
    requires
        0 <= max_len,
    ensures
        text.len() <= max_len ==> log_text(text, RedactStatus::Clean, max_len) == text && log_text(
            text,
            RedactStatus::Redacted,
            max_len,
        ) == text,
        text.len() > max_len ==> log_text(text, RedactStatus::Clean, max_len) == text.take(max_len) + "…"@
            && log_text(text, RedactStatus::Redacted, max_len) == text.take(max_len) + "…(redacted)"@,
{
}

// ---------------------------------------------------------------------------
// Definitions
// ---------------------------------------------------------------------------

/// A definition is read back as it was written: its type, whether it is protected, and its
/// content; what it does not say is what is usual.
pub proof fn definition_is_read_back(raw: Seq<Seq<char>>, kind: Seq<char>, content: Seq<char>)
    requires
        raw.len() == 6,
        trim(raw[0]) == "---"@,
        trim(raw[1]) == "type:"@ + kind,
        trim(raw[2]) == "protected:true"@,
        trim(raw[3]) == "---"@,
        trim(raw[4]) == content,
        trim(raw[5]) == "---"@,
        trim(kind) == kind,
        content.len() > 0,
        content[0] != '#',
        content != "---"@,
    ensures
        read_lines(raw).specs == seq![
            SeedView {
                content,
                description: Seq::empty(),
                memory_type: kind,
                importance: 500_000,
                protected: true,
                tags: Seq::empty(),
                source: "system_seed"@,
            },
        ],
{
    reveal_strlit("---");
    reveal_strlit("type:");
    reveal_strlit("description:");
    reveal_strlit("importance:");
    reveal_strlit("protected:");
    reveal_strlit("protected:true");
    reveal_strlit("true");
    reveal_strlit("false");
    reveal_strlit("tags:");
    assert("---"@[0] == '-' && "---"@.len() == 3);
    assert("true"@[0] == 't' && "true"@[3] == 'e');
    crate::text::lemma_trimmed("true"@);
    assert("type:"@[0] == 't' && "type:"@[1] == 'y' && "type:"@.len() == 5);
    assert("description:"@[0] == 'd' && "importance:"@[0] == 'i' && "protected:"@[0] == 'p');
    assert("description:"@.len() == 12 && "importance:"@.len() == 11 && "protected:"@.len() == 10);
    assert("protected:true"@.len() == 14 && "true"@.len() == 4 && "false"@.len() == 5);
    let l1 = "type:"@ + kind;
    let l2 = "protected:true"@;
    assert(l1[0] == 't');
    assert(l1.take(5) =~= "type:"@);
    assert(l1.skip(5) =~= kind);
    assert(!begins(l1, "description:"@)) by {
        if begins(l1, "description:"@) {
            assert(l1.take(12)[0] == 'd');
        }
    }
    assert(begins(l1, "type:"@));
    assert(l2.take(10) =~= "protected:"@);
    assert(l2.skip(10) =~= "true"@);
    assert(!begins(l2, "description:"@)) by {
        if begins(l2, "description:"@) {
            assert(l2.take(12)[0] == 'd');
        }
    }
    assert(!begins(l2, "type:"@)) by {
        if begins(l2, "type:"@) {
            assert(l2.take(5)[0] == 't');
        }
    }
    assert(!begins(l2, "importance:"@)) by {
        if begins(l2, "importance:"@) {
            assert(l2.take(11)[0] == 'i');
        }
    }
    assert(l2[0] == 'p');
    assert(l1 != "---"@);
    assert(l2 != "---"@);
    let r0 = read_lines(raw.take(0));
    let r1 = read_lines(raw.take(1));
    let r2 = read_lines(raw.take(2));
    let r3 = read_lines(raw.take(3));
    let r4 = read_lines(raw.take(4));
    let r5 = read_lines(raw.take(5));
    assert(raw.take(6) =~= raw);
    assert(raw.take(1).drop_last() =~= raw.take(0) && raw.take(1).last() == raw[0]);
    assert(raw.take(2).drop_last() =~= raw.take(1) && raw.take(2).last() == raw[1]);
    assert(raw.take(3).drop_last() =~= raw.take(2) && raw.take(3).last() == raw[2]);
    assert(raw.take(4).drop_last() =~= raw.take(3) && raw.take(4).last() == raw[3]);
    assert(raw.take(5).drop_last() =~= raw.take(4) && raw.take(5).last() == raw[4]);
    assert(raw.drop_last() =~= raw.take(5) && raw.last() == raw[5]);
    assert(r1.phase == Phase::FrontMatter);
    assert(r2.phase == Phase::FrontMatter && r2.builder.memory_type == Some(kind));
    assert(r3.phase == Phase::FrontMatter && r3.builder.protected == Some(true));
    assert(r4.phase == Phase::Content);
    assert(r5.builder.content == content);
    assert(read_lines(raw).specs =~= seq![
        SeedView {
            content,
            description: Seq::empty(),
            memory_type: kind,
            importance: 500_000,
            protected: true,
            tags: Seq::empty(),
            source: "system_seed"@,
        },
    ]);
}

/// Definitions become memories a minute apart, the last one now.
pub proof fn definitions_are_a_minute_apart(now: i64, i: int, total: int)
    requires
        0 <= i < total,
        total <= 1_000_000_000,
        0 <= now,
    ensures
        i + 1 < total ==> seed_time(now, i + 1, total) == seed_time(now, i, total) + 60_000,
        seed_time(now, total - 1, total) == now,
        seed_time(now, i, total) <= now,
{
    assert((total - 1 - i) * 60_000 <= 60_000_000_000_000);
}

/// The memories of a definition hold its content in parts of sixty characters at most, one after
/// the other, with its type, importance, tags and protection.
pub proof fn definition_becomes_memories(s: SeedView, char_id: Seq<char>, time: i64, k: int)
    requires
        0 <= k < items_of_spec(s, char_id, time).len(),
    ensures
        ({
            let m = items_of_spec(s, char_id, time)[k];
            &&& 0 < m.content.len() <= 60
            &&& m.memory_type == s.memory_type && m.importance == s.importance && m.tags == s.tags
            &&& m.protected == s.protected && m.timestamp == time && !m.consolidated
        }),
        crate::seed::glued(items_of_spec(s, char_id, time).map_values(|m: ItemView| m.content)) == s.content,
{
    crate::seed::chunks_are_the_content(s.content, 60);
    let c = crate::seed::chunks_of(s.content, 60);
    assert(items_of_spec(s, char_id, time).map_values(|m: ItemView| m.content) =~= c);
    assert(items_of_spec(s, char_id, time)[k].content == c[k]);
}

proof fn lemma_no_mark(s: Seq<char>)
    requires
        all_digits(s),
    ensures
        exponent_mark(s) == s.len(),
        split_where(s, is_char('.')) == seq![s],
    decreases s.len(),
{
    if s.len() > 0 {
        assert(is_digit(s[0]));
        let t = s.skip(1);
        assert forall|i: int| 0 <= i < t.len() implies is_digit(#[trigger] t[i]) by {
            assert(t[i] == s[i + 1]);
        }
        lemma_no_mark(t);
        let d = s.drop_last();
        assert forall|i: int| 0 <= i < d.len() implies is_digit(#[trigger] d[i]) by {
            assert(d[i] == s[i]);
        }
        lemma_no_mark(d);
        assert(is_digit(s[s.len() - 1]));
        assert(s.last() != '.');
        assert(d.push(s.last()) =~= s);
        assert(split_where(s, is_char('.')) =~= seq![s]);
    } else {
        assert(s =~= Seq::<char>::empty());
        assert(split_where(s, is_char('.')) =~= seq![s]);
    }
}

proof fn lemma_ten_million(x: nat)
    ensures
        x * pow10(7) == x * 10_000_000,
{
    reveal_with_fuel(pow10, 8);
    assert(pow10(7) == 10_000_000);
}

/// Digits are read as the whole number that they write, in millionths; a minus before them turns
/// it round.
pub proof fn whole_numbers_are_read(s: Seq<char>)
    requires
        all_digits(s),
        s.len() > 0,
        number(s) <= 1_000_000_000_000,
    ensures
        decimal_micros(s) == Some((number(s) * 1_000_000) as int),
        decimal_micros(seq!['-'] + s) == Some(-(number(s) * 1_000_000)),
        decimal_micros(seq!['+'] + s) == Some((number(s) * 1_000_000) as int),
{
    lemma_no_mark(s);
    lemma_ten_million(number(s));
    assert(is_digit(s[0]));
    assert(s.take(s.len() as int) =~= s);
    assert(!endless(s)) by {
        let u = s.map_values(|c: char| capital(c));
        reveal_strlit("INF");
        reveal_strlit("INFINITY");
        assert("INF"@[0] == 'I' && "INFINITY"@[0] == 'I');
        assert(u[0] == capital(s[0]));
        assert(capital(s[0]) == s[0]);
    }
    assert(mantissa(s) == Some((s, 0int)));
    assert(shifted(s, 7) == number(s) * 10_000_000);
    assert((number(s) * 10_000_000 + 5) / 10 == number(s) * 1_000_000);
    assert(unsigned_micros(s) == Some((number(s) * 1_000_000) as int));
    assert((seq!['-'] + s).skip(1) =~= s);
    assert((seq!['+'] + s).skip(1) =~= s);
}

// ---------------------------------------------------------------------------
// The index, words and dates
// ---------------------------------------------------------------------------

/// An index is built anew when it holds less than eight tenths or more than twelve tenths of what
/// it is to hold, and left alone otherwise.
pub proof fn index_may_be_a_fifth_off(wanted: int, there: int)
    requires
        0 <= there,
        0 <= wanted,
    ensures
        wanted == 0 ==> !drifted(wanted, there),
        wanted > 0 ==> (drifted(wanted, there) <==> 5 * there < 4 * wanted || 5 * there > 6 * wanted),
        wanted > 0 && there == wanted ==> !drifted(wanted, there),
        wanted > 0 && there == 0 ==> drifted(wanted, there),
{
}

/// The conditions of a search in the index are the first of the types and both bounds, where they
/// are given.
pub proof fn index_is_asked_for_every_condition(types: Seq<String>, before: Option<i64>, after: Option<i64>)
    ensures
        ({
            let c = filter_clauses(types, before, after);
            &&& types.len() > 0 ==> c.contains(ClauseView::MemoryTypeIs(types[0]@))
            &&& before matches Some(t) ==> c.contains(ClauseView::Before(t))
            &&& after matches Some(t) ==> c.contains(ClauseView::After(t))
            &&& c.len() == (if types.len() > 0 {
                1int
            } else {
                0
            }) + (if before is Some {
                1int
            } else {
                0
            }) + (if after is Some {
                1int
            } else {
                0
            })
        }),
{
    let c = filter_clauses(types, before, after);
    let n: int = if types.len() > 0 {
        1
    } else {
        0
    };
    let k: int = if before is Some {
        1
    } else {
        0
    };
    if types.len() > 0 {
        assert(c[0] == ClauseView::MemoryTypeIs(types[0]@));
    }
    if let Some(t) = before {
        assert(c[n] == ClauseView::Before(t));
    }
    if let Some(t) = after {
        assert(c[n + k] == ClauseView::After(t));
    }
}

/// In how many memories a word stands is how many of them have it among their words.
pub proof fn word_counts_memories_that_have_it(s: Seq<ItemView>, w: Seq<char>, n: nat)
    requires
        n <= s.len(),
    ensures
        document_frequency(s, w, n) == s.take(n as int).filter(
            |m: ItemView| frequency(entry_tokens(m), w) > 0,
        ).len(),
        document_frequency(s, w, n) <= n,
    decreases n,
{
    reveal(Seq::filter);
    if n > 0 {
        word_counts_memories_that_have_it(s, w, (n - 1) as nat);
        assert(s.take(n as int).drop_last() =~= s.take(n - 1));
        assert(s.take(n as int).last() == s[n - 1]);
    }
}

/// How often a word stands in a list is how many of the list are that word.
pub proof fn frequency_counts_the_word(list: Seq<Seq<char>>, w: Seq<char>)
    ensures
        frequency(list, w) == list.filter(|x: Seq<char>| x == w).len(),
    decreases list.len(),
{
    reveal(Seq::filter);
    if list.len() > 0 {
        frequency_counts_the_word(list.drop_last(), w);
    }
}

/// What speaks of a day that depends on when it is said gets a date behind it, once; everything
/// else stays as it is, and nothing is ever taken away.
pub proof fn only_relative_days_get_a_date(content: Seq<char>, date: Seq<char>)
    ensures
        anchored(content, date).len() >= content.len(),
        anchored(content, date).take(content.len() as int) == content,
        has_sub(lowercase(content), "昨天"@) && !has_sub(content, "以记忆产生时为准"@) ==> anchored(
            content,
            date,
        ).len() > content.len() && has_sub(anchored(content, date), date),
        has_sub(content, "以记忆产生时为准"@) ==> anchored(content, date) == content,
{
    let r = anchored(content, date);
    assert(r.take(content.len() as int) =~= content);
    assert(crate::time_anchor::relative_words()[1] == "昨天"@);
    reveal_strlit("）");
    assert("）"@.len() == 1);
    if needs_anchor(content) {
        let at = (content + " （以记忆产生时为准："@).len() as int;
        assert(r.subrange(at, at + date.len()) =~= date);
        assert(crate::text::occurs_at(r, date, at));
    }
}

/// Whole seconds drop what is less than a second, toward the epoch.
pub proof fn seconds_drop_the_rest(millis: i64)
    ensures
        millis >= 0 ==> whole_seconds(millis) * 1000 <= millis < whole_seconds(millis) * 1000 + 1000,
        millis < 0 ==> whole_seconds(millis) * 1000 - 1000 < millis <= whole_seconds(millis) * 1000,
{
}

} // verus!
