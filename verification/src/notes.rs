//! Memories of a fixed form: turns, sessions with their keywords, documents, diary
//! entries, and the seeds of a character.

use crate::manager::{all_deleted, soft_deleted, ManagerView, MemoryManager};
use crate::ordered::{sort_dedup, sorted_distinct};
use crate::seed::{is_seed_like, items_of_specs, seed_memories, seed_views, SeedSpec};
use crate::select::filter_items;
use crate::store::{add_entry, edited, holds_id, is_seed, latest, put_item, take_latest, with_entry};
use crate::strategy::{last_with_id, position_by_id};
use crate::text::{copy_strings, list_has, one_of, opt_text, same, starts_with, strs, texts};
use crate::types::{fresh_item, is_storable_time, item_id, item_views, random_uuid, seconds_value, seconds_view,
    text_at, Granularity, ItemView, MemoryItem, MemoryType, MetaValue, MetaView, Metadata};
use vstd::array::*;
use vstd::prelude::*;
use vstd::string::*;

verus! {

/// The manager after a memory was kept at `now`.
pub open spec fn kept_entry(m: ManagerView, item: ItemView, now: i64) -> ManagerView {
    ManagerView { entries: with_entry(m.entries, item, now, m.turns), dirty: true, ..m }
}

// ---------------------------------------------------------------------------
// Turns and sessions
// ---------------------------------------------------------------------------

/// What was said and answered.
pub open spec fn turn_item(
    u: Seq<char>,
    user_input: Seq<char>,
    agent_response: Seq<char>,
    importance: i64,
    now: i64,
) -> ItemView {
    ItemView {
        metadata: Map::<Seq<char>, MetaView>::empty().insert(
            "user_input"@,
            MetaView::Text(user_input),
        ).insert("agent_response"@, MetaView::Text(agent_response)),
        ..fresh_item(
            item_id(u),
            "User: "@ + user_input + "\nAI: "@ + agent_response,
            Granularity::Turn,
            importance,
            now,
        )
    }
}

/// The summary of a session.
pub open spec fn session_item(
    u: Seq<char>,
    summary: Seq<char>,
    keywords: Seq<Seq<char>>,
    importance: i64,
    now: i64,
) -> ItemView {
    ItemView {
        tags: seq!["session"@],
        metadata: Map::<Seq<char>, MetaView>::empty().insert("keywords"@, MetaView::List(keywords)),
        ..fresh_item(item_id(u), summary, Granularity::Session, importance, now)
    }
}

/// Half an importance, toward zero.
pub open spec fn half(x: i64) -> i64 {
    if x >= 0 {
        (x as int / 2) as i64
    } else {
        (-((-x) / 2)) as i64
    }
}

fn half_of(x: i64) -> (r: i64)
    ensures
        r == half(x),
{
    let w: i128 = x as i128;
    let h: i128 = if w >= 0 {
        w / 2
    } else {
        -((-w) / 2)
    };
    h as i64
}

/// A keyword of a session.
pub open spec fn keyword_item(
    u: Seq<char>,
    keyword: Seq<char>,
    session_id: Seq<char>,
    importance: i64,
    now: i64,
) -> ItemView {
    ItemView {
        tags: seq!["keyword"@],
        related_ids: seq![session_id],
        ..fresh_item(item_id(u), keyword, Granularity::Keyword, half(importance), now)
    }
}

/// The memories after the first `n` keywords were kept; empty ones are not. The random
/// texts of their identifiers are `us`.
pub open spec fn with_keywords(
    s: Seq<ItemView>,
    keywords: Seq<Seq<char>>,
    us: Seq<Seq<char>>,
    session_id: Seq<char>,
    importance: i64,
    now: i64,
    turns: usize,
    n: nat,
) -> Seq<ItemView>
    decreases n,
{
    if n == 0 {
        s
    } else {
        let rest = with_keywords(
            s,
            keywords,
            us,
            session_id,
            importance,
            now,
            turns,
            (n - 1) as nat,
        );
        if keywords[n - 1].len() == 0 {
            rest
        } else {
            with_entry(
                rest,
                keyword_item(us[n - 1], keywords[n - 1], session_id, importance, now),
                now,
                turns,
            )
        }
    }
}

/// The manager and the memory after a session was kept; the random texts of the
/// identifiers are `u` and `us`.
pub open spec fn keeps_session(
    before: ManagerView,
    after: ManagerView,
    item: ItemView,
    summary: Seq<char>,
    keywords: Seq<Seq<char>>,
    importance: i64,
    now: i64,
    u: Seq<char>,
    us: Seq<Seq<char>>,
) -> bool {
    let session = session_item(u, summary, keywords, importance, now);
    &&& u.len() == 36
    &&& us.len() == keywords.len()
    &&& item == (ItemView { related_ids: seq![session.id], ..session })
    &&& after == (ManagerView {
        entries: with_keywords(
            with_entry(before.entries, session, now, before.turns),
            keywords,
            us,
            session.id,
            importance,
            now,
            before.turns,
            keywords.len(),
        ),
        dirty: true,
        ..before
    })
}

proof fn lemma_with_keywords_prefix(
    s: Seq<ItemView>,
    keywords: Seq<Seq<char>>,
    a: Seq<Seq<char>>,
    b: Seq<Seq<char>>,
    session_id: Seq<char>,
    importance: i64,
    now: i64,
    turns: usize,
    n: nat,
)
    requires
        n <= a.len(),
        n <= b.len(),
        forall|i: int| 0 <= i < n ==> #[trigger] a[i] == b[i],
    ensures
        with_keywords(s, keywords, a, session_id, importance, now, turns, n) == with_keywords(
            s,
            keywords,
            b,
            session_id,
            importance,
            now,
            turns,
            n,
        ),
    decreases n,
{
    if n > 0 {
        lemma_with_keywords_prefix(
            s,
            keywords,
            a,
            b,
            session_id,
            importance,
            now,
            turns,
            (n - 1) as nat,
        );
        assert(a[n - 1] == b[n - 1]);
    }
}

// ---------------------------------------------------------------------------
// Documents and diary entries
// ---------------------------------------------------------------------------

/// The milliseconds of a day.
pub const DAY_MILLIS: i64 = 86_400_000;

/// The metadata of a document, which may be good for a number of days only.
pub open spec fn document_metadata(
    title: Seq<char>,
    source: Seq<char>,
    ttl_days: Option<i64>,
    now: i64,
) -> Map<Seq<char>, MetaView> {
    let base = Map::<Seq<char>, MetaView>::empty().insert("title"@, MetaView::Text(title)).insert(
        "source"@,
        MetaView::Text(source),
    ).insert("kind"@, MetaView::Text("knowledge_document"@));
    match ttl_days {
        Some(days) => if days > 0 {
            base.insert("expires_at"@, seconds_view((now + days * DAY_MILLIS) as i64)).insert(
                "ttl_days"@,
                MetaView::Int(days),
            )
        } else {
            base.insert("ttl_days"@, MetaView::Int((-1) as i64))
        },
        None => base,
    }
}

/// A document that was given to the character.
pub open spec fn document_item(
    u: Seq<char>,
    title: Seq<char>,
    content: Seq<char>,
    tags: Seq<Seq<char>>,
    source: Seq<char>,
    ttl_days: Option<i64>,
    heat: i64,
    now: i64,
) -> ItemView {
    ItemView {
        memory_type: MemoryType::Knowledge.name(),
        tags: sorted_distinct(tags.push("knowledge"@).push("document"@)),
        metadata: document_metadata(title, source, ttl_days, now),
        description: Some(title),
        heat_score: heat,
        ..fresh_item(item_id(u), content, Granularity::Summary, 800_000, now)
    }
}

/// Whether the memory is a document that was given to the character.
pub open spec fn is_document() -> spec_fn(ItemView) -> bool {
    |m: ItemView|
        m.tags.contains("knowledge"@) && text_at(m.metadata, "kind"@) == Some("knowledge_document"@)
}

/// A diary entry, a memory that lasts.
pub open spec fn diary_item(
    u: Seq<char>,
    diary_id: Seq<char>,
    date: Seq<char>,
    content: Seq<char>,
    mood_tag: Seq<char>,
    heat: i64,
    now: i64,
) -> ItemView {
    ItemView {
        memory_type: MemoryType::LongTerm.name(),
        tags: sorted_distinct(seq!["diary"@, date, mood_tag]),
        metadata: Map::<Seq<char>, MetaView>::empty().insert("kind"@, MetaView::Text("diary"@)).insert(
            "diary_id"@,
            MetaView::Text(diary_id),
        ).insert("date"@, MetaView::Text(date)).insert("mood_tag"@, MetaView::Text(mood_tag)),
        description: Some("日记 "@ + date + " ("@ + mood_tag + ")"@),
        heat_score: heat,
        ..fresh_item(item_id(u), content, Granularity::Summary, 800_000, now)
    }
}

/// Whether the memory stands for that diary entry.
pub open spec fn is_diary(diary_id: Seq<char>) -> spec_fn(ItemView) -> bool {
    |m: ItemView|
        m.tags.contains("diary"@) && text_at(m.metadata, "diary_id"@) == Some(diary_id)
}

/// The identifiers of the memories.
pub open spec fn ids_of(s: Seq<ItemView>) -> Seq<Seq<char>> {
    s.map_values(|m: ItemView| m.id)
}

fn collect_ids(items: &Vec<MemoryItem>) -> (out: Vec<String>)
    ensures
        texts(out@) == ids_of(item_views(items@)),
{
    let mut out: Vec<String> = Vec::new();
    let mut i: usize = 0;
    while i < items.len()
        invariant
            i <= items@.len(),
            out@.len() == i,
            forall|k: int| 0 <= k < i ==> (#[trigger] out@[k])@ == items@[k]@.id,
        decreases items@.len() - i,
    {
        out.push(items[i].id.clone());
        i += 1;
    }
    assert(texts(out@) =~= ids_of(item_views(items@)));
    out
}

fn text_is(metadata: &Metadata, key: &str, value: &str) -> (r: bool)
    ensures
        r == (text_at(metadata@, key@) == Some(value@)),
{
    match metadata.text(key) {
        Some(s) => same(s.as_str(), value),
        None => false,
    }
}

fn document(m: &MemoryItem) -> (r: bool)
    ensures
        r == is_document()(m@),
{
    assert(m@.tags == texts(m.tags@));
    list_has(&m.tags, "knowledge") && text_is(&m.metadata, "kind", "knowledge_document")
}

fn diary(m: &MemoryItem, diary_id: &str) -> (r: bool)
    ensures
        r == is_diary(diary_id@)(m@),
{
    assert(m@.tags == texts(m.tags@));
    list_has(&m.tags, "diary") && text_is(&m.metadata, "diary_id", diary_id)
}

// ---------------------------------------------------------------------------
// A new content
// ---------------------------------------------------------------------------

/// The tags that name a type under which a memory is indexed.
pub open spec fn type_tags() -> Seq<Seq<char>> {
    seq![
        "long_term"@, "user"@, "preference"@, "important_event"@, "feedback"@, "knowledge"@,
        "session_summary"@, "insight"@, "short_term"@, "keyword"@, "summary"@,
    ]
}

/// The first tag that names a type, or `general`.
pub open spec fn index_type(tags: Seq<Seq<char>>) -> Seq<char>
    decreases tags.len(),
{
    if tags.len() == 0 {
        "general"@
    } else if type_tags().contains(tags[0]) {
        tags[0]
    } else {
        index_type(tags.skip(1))
    }
}

fn find_index_type(tags: &Vec<String>) -> (r: String)
    ensures
        r@ == index_type(texts(tags@)),
{
    let names = [
        "long_term", "user", "preference", "important_event", "feedback", "knowledge",
        "session_summary", "insight", "short_term", "keyword", "summary",
    ];
    let list = array_as_slice(&names);
    assert(strs(list@) =~= type_tags());
    let ghost all = texts(tags@);
    let mut i: usize = 0;
    assert(all.skip(0) =~= all);
    while i < tags.len()
        invariant
            i <= tags@.len(),
            all == texts(tags@),
            strs(list@) == type_tags(),
            index_type(all.skip(i as int)) == index_type(all),
        decreases tags@.len() - i,
    {
        assert(all.skip(i as int)[0] == tags@[i as int]@);
        assert(all.skip(i as int).skip(1) =~= all.skip(i + 1));
        if one_of(tags[i].as_str(), list) {
            return tags[i].clone();
        }
        i += 1;
    }
    "general".to_owned()
}

/// What the index is to hold of a memory beside its content.
pub struct IndexEntry {
    pub importance: i64,
    pub memory_type: String,
    pub timestamp: i64,
}

/// How well a memory is, in the words of those who judge it.
pub struct Health {
    /// In millionths.
    pub score: i64,
    pub grade: String,
    /// In millionths.
    pub evidence: i64,
}

/// A memory with what was said of its health.
pub open spec fn with_health(m: ItemView, h: Health) -> ItemView {
    ItemView {
        metadata: m.metadata.insert("health"@, MetaView::Micros(h.score)).insert(
            "health_grade"@,
            MetaView::Text(h.grade@),
        ).insert("health_evidence"@, MetaView::Micros(h.evidence)),
        ..m
    }
}

/// What speaks for a memory and against it.
#[derive(Debug)]
pub struct EvidenceSnapshot {
    pub reinforcement: i64,
    pub disputation: i64,
    pub rein_last_signal_at: i64,
    pub disp_last_signal_at: i64,
    pub user_fact_reinforce_count: u32,
}

/// The memory with that evidence.
pub open spec fn with_evidence(m: ItemView, e: EvidenceSnapshot) -> ItemView {
    ItemView {
        reinforcement: e.reinforcement,
        disputation: e.disputation,
        rein_last_signal_at: e.rein_last_signal_at,
        disp_last_signal_at: e.disp_last_signal_at,
        user_fact_reinforce_count: e.user_fact_reinforce_count,
        ..m
    }
}

/// The position of the first memory with that identifier, or the end.
pub open spec fn first_with_id(s: Seq<ItemView>, id: Seq<char>) -> int
    decreases s.len(),
{
    if s.len() == 0 || s[0].id == id {
        0
    } else {
        1 + first_with_id(s.skip(1), id)
    }
}

/// Whether there is a seed among the memories.
pub open spec fn any_seed(s: Seq<ItemView>) -> bool {
    exists|i: int| 0 <= i < s.len() && is_seed(#[trigger] s[i])
}

/// The memories after the seeds of those definitions were added behind them, each with an
/// identifier of its own.
pub open spec fn is_seeded(
    before: Seq<ItemView>,
    after: Seq<ItemView>,
    plan: Seq<ItemView>,
) -> bool {
    &&& after.len() == before.len() + plan.len()
    &&& after.take(before.len() as int) == before
    &&& forall|k: int|
        0 <= k < plan.len() ==> is_seed_like(#[trigger] after[before.len() + k], plan[k])
}

impl MemoryManager {
    fn keep(&mut self, item: &MemoryItem, now: i64)
        ensures
            final(self)@ == kept_entry(old(self)@, item@, now),
    {
        add_entry(&mut self.entries, item.clone(), now, self.turn_capacity);
        self.dirty = true;
    }

    /// Keeps what was said and answered.
    pub fn add_turn(&mut self, user_input: &str, agent_response: &str, importance: i64, now: i64) -> (r:
        MemoryItem)
        ensures
            exists|u: Seq<char>|
                u.len() == 36 && r@ == #[trigger] turn_item(
                    u,
                    user_input@,
                    agent_response@,
                    importance,
                    now,
                ),
            final(self)@ == kept_entry(old(self)@, r@, now),
    {
        let u = random_uuid();
        let mut content: String = "User: ".to_owned();
        content.append(user_input);
        content.append("\nAI: ");
        content.append(agent_response);
        let mut item = MemoryItem::with_id(u.as_str(), content, Granularity::Turn, importance, now);
        item.metadata.insert("user_input", MetaValue::Text(user_input.to_owned()));
        item.metadata.insert("agent_response", MetaValue::Text(agent_response.to_owned()));
        self.keep(&item, now);
        assert(item@ == turn_item(u@, user_input@, agent_response@, importance, now));
        item
    }

    /// Keeps the summary of a session, and each of its keywords as a memory of half its
    /// importance that refers to it.
    pub fn add_session(&mut self, summary: &str, keywords: &Vec<String>, importance: i64, now: i64) -> (r:
        MemoryItem)
        ensures
            exists|u: Seq<char>, us: Seq<Seq<char>>| #[trigger]
                keeps_session(
                    old(self)@,
                    final(self)@,
                    r@,
                    summary@,
                    texts(keywords@),
                    importance,
                    now,
                    u,
                    us,
                ),
    {
        let ghost was = self@;
        let ghost all = texts(keywords@);
        let u = random_uuid();
        let mut item = MemoryItem::with_id(
            u.as_str(),
            summary.to_owned(),
            Granularity::Session,
            importance,
            now,
        );
        item.tags.push("session".to_owned());
        item.metadata.insert("keywords", MetaValue::List(copy_strings(keywords)));
        assert(item@.tags =~= seq!["session"@]);
        let ghost sv = item@;
        assert(sv == session_item(u@, summary@, all, importance, now));
        self.keep(&item, now);
        let ghost first = self@;
        let ghost mut us: Seq<Seq<char>> = Seq::empty();
        let small: i64 = half_of(importance);
        let mut i: usize = 0;
        while i < keywords.len()
            invariant
                i <= keywords@.len(),
                all == texts(keywords@),
                small == half(importance),
                item@ == sv,
                us.len() == i,
                first.turns == was.turns,
                self@ == (ManagerView {
                    entries: with_keywords(
                        first.entries,
                        all,
                        us,
                        sv.id,
                        importance,
                        now,
                        was.turns,
                        i as nat,
                    ),
                    ..first
                }),
                first.dirty,
            decreases keywords@.len() - i,
        {
            assert(all[i as int] == keywords@[i as int]@);
            let ghost prev = us;
            if keywords[i].as_str().unicode_len() > 0 {
                let k = random_uuid();
                let mut word = MemoryItem::with_id(
                    k.as_str(),
                    keywords[i].clone(),
                    Granularity::Keyword,
                    small,
                    now,
                );
                word.tags.push("keyword".to_owned());
                word.related_ids.push(item.id.clone());
                assert(word@.tags =~= seq!["keyword"@]);
                assert(word@.related_ids =~= seq![sv.id]);
                proof {
                    us = prev.push(k@);
                }
                self.keep(&word, now);
            } else {
                proof {
                    us = prev.push(Seq::empty());
                }
            }
            proof {
                lemma_with_keywords_prefix(
                    first.entries,
                    all,
                    prev,
                    us,
                    sv.id,
                    importance,
                    now,
                    was.turns,
                    i as nat,
                );
            }
            i += 1;
        }
        let id = item.id.clone();
        let mut related: Vec<String> = Vec::new();
        related.push(id);
        item.related_ids = related;
        assert(item@.related_ids =~= seq![sv.id]);
        assert(keeps_session(was, self@, item@, summary@, all, importance, now, u@, us));
        item
    }

    /// Keeps a document. It is good for the given number of days, or for good where that is
    /// not more than none.
    pub fn add_knowledge_document(
        &mut self,
        title: &str,
        content: &str,
        tags: &Vec<String>,
        source: &str,
        ttl_days: Option<i64>,
        heat: i64,
        now: i64,
    ) -> (r: MemoryItem)
        requires
            ttl_days is Some && ttl_days->0 > 0 ==> i64::MIN <= now + ttl_days->0 * DAY_MILLIS
                <= i64::MAX && is_storable_time((now + ttl_days->0 * DAY_MILLIS) as i64),
        ensures
            exists|u: Seq<char>|
                u.len() == 36 && r@ == #[trigger] document_item(
                    u,
                    title@,
                    content@,
                    texts(tags@),
                    source@,
                    ttl_days,
                    heat,
                    now,
                ),
            final(self)@ == kept_entry(old(self)@, r@, now),
    {
        let u = random_uuid();
        let mut item = MemoryItem::with_id(
            u.as_str(),
            content.to_owned(),
            Granularity::Summary,
            800_000,
            now,
        );
        item.memory_type = MemoryType::Knowledge.as_str().to_owned();
        let mut t = copy_strings(tags);
        t.push("knowledge".to_owned());
        t.push("document".to_owned());
        assert(texts(t@) =~= texts(tags@).push("knowledge"@).push("document"@));
        item.tags = sort_dedup(&t);
        let mut meta = Metadata::new();
        meta.insert("title", MetaValue::Text(title.to_owned()));
        meta.insert("source", MetaValue::Text(source.to_owned()));
        meta.insert("kind", MetaValue::Text("knowledge_document".to_owned()));
        if let Some(days) = ttl_days {
            if days > 0 {
                let until: i128 = now as i128 + days as i128 * DAY_MILLIS as i128;
                meta.insert("expires_at", seconds_value(until as i64));
                meta.insert("ttl_days", MetaValue::Int(days));
            } else {
                meta.insert("ttl_days", MetaValue::Int(-1));
            }
        }
        item.metadata = meta;
        item.description = Some(title.to_owned());
        item.heat_score = heat;
        self.keep(&item, now);
        assert(item@ == document_item(
            u@,
            title@,
            content@,
            texts(tags@),
            source@,
            ttl_days,
            heat,
            now,
        ));
        item
    }

    /// The documents that were given to the character, latest first.
    pub fn list_knowledge_documents(&self) -> (out: Vec<MemoryItem>)
        ensures
            item_views(out@) == latest(
                self@.entries.filter(is_document()),
                self@.entries.filter(is_document()).len() as int,
            ),
    {
        let test = |m: &MemoryItem| -> (r: bool)
            ensures
                r == is_document()(m@),
            { document(m) };
        let items = filter_items(self.entries.as_slice(), test, Ghost(is_document()));
        let n: usize = items.len();
        take_latest(items.as_slice(), n)
    }

    /// Deletes a memory that carries the tag of knowledge; says whether there is one.
    pub fn delete_knowledge_document(&mut self, id: &str, now: i64) -> (r: bool)
        ensures
            r == exists|i: int|
                0 <= i < old(self)@.entries.len() && (#[trigger] old(self)@.entries[i]).id == id@
                    && old(self)@.entries[i].tags.contains("knowledge"@),
            final(self)@ == (if r {
                soft_deleted(old(self)@, id@, "manual_delete"@, now)
            } else {
                old(self)@
            }),
    {
        let mut i: usize = 0;
        while i < self.entries.len()
            invariant
                i <= self.entries@.len(),
                self@ == old(self)@,
                forall|k: int|
                    0 <= k < i ==> !((#[trigger] self@.entries[k]).id == id@
                        && self@.entries[k].tags.contains("knowledge"@)),
            decreases self.entries@.len() - i,
        {
            assert(self@.entries[i as int] == self.entries@[i as int]@);
            if same(self.entries[i].id.as_str(), id) && list_has(
                &self.entries[i].tags,
                "knowledge",
            ) {
                let _ = self.delete_memory(id, now);
                return true;
            }
            i += 1;
        }
        false
    }

    /// Deletes the documents that were given to the character.
    pub fn clear_knowledge_documents(&mut self, now: i64)
        ensures
            ({
                let ids = ids_of(old(self)@.entries.filter(is_document()));
                final(self)@ == all_deleted(old(self)@, ids, now, ids.len())
            }),
    {
        let test = |m: &MemoryItem| -> (r: bool)
            ensures
                r == is_document()(m@),
            { document(m) };
        let items = filter_items(self.entries.as_slice(), test, Ghost(is_document()));
        let ids = collect_ids(&items);
        assert(texts(ids@).len() == ids@.len());
        self.delete_all(&ids, now);
    }

    /// Keeps a diary entry.
    pub fn add_diary_entry(
        &mut self,
        diary_id: &str,
        date: &str,
        content: &str,
        mood_tag: &str,
        heat: i64,
        now: i64,
    ) -> (r: MemoryItem)
        ensures
            exists|u: Seq<char>|
                u.len() == 36 && r@ == #[trigger] diary_item(
                    u,
                    diary_id@,
                    date@,
                    content@,
                    mood_tag@,
                    heat,
                    now,
                ),
            final(self)@ == kept_entry(old(self)@, r@, now),
    {
        let u = random_uuid();
        let mut item = MemoryItem::with_id(
            u.as_str(),
            content.to_owned(),
            Granularity::Summary,
            800_000,
            now,
        );
        let mut t: Vec<String> = Vec::new();
        t.push("diary".to_owned());
        t.push(date.to_owned());
        t.push(mood_tag.to_owned());
        assert(texts(t@) =~= seq!["diary"@, date@, mood_tag@]);
        item.memory_type = MemoryType::LongTerm.as_str().to_owned();
        item.tags = sort_dedup(&t);
        item.metadata.insert("kind", MetaValue::Text("diary".to_owned()));
        item.metadata.insert("diary_id", MetaValue::Text(diary_id.to_owned()));
        item.metadata.insert("date", MetaValue::Text(date.to_owned()));
        item.metadata.insert("mood_tag", MetaValue::Text(mood_tag.to_owned()));
        let mut about: String = "日记 ".to_owned();
        about.append(date);
        about.append(" (");
        about.append(mood_tag);
        about.append(")");
        item.description = Some(about);
        item.heat_score = heat;
        self.keep(&item, now);
        assert(item@ == diary_item(u@, diary_id@, date@, content@, mood_tag@, heat, now));
        item
    }

    /// Deletes the memories of a diary entry; says whether there are any.
    pub fn delete_diary_memory(&mut self, diary_id: &str, now: i64) -> (r: bool)
        ensures
            ({
                let ids = ids_of(old(self)@.entries.filter(is_diary(diary_id@)));
                r == (ids.len() > 0) && final(self)@ == all_deleted(old(self)@, ids, now, ids.len())
            }),
    {
        let test = |m: &MemoryItem| -> (r: bool)
            ensures
                r == is_diary(diary_id@)(m@),
            { diary(m, diary_id) };
        let items = filter_items(self.entries.as_slice(), test, Ghost(is_diary(diary_id@)));
        let ids = collect_ids(&items);
        assert(texts(ids@).len() == ids@.len());
        if ids.len() == 0 {
            return false;
        }
        self.delete_all(&ids, now);
        true
    }

    /// Gives the memory a new content, for which a new embedding is to be made; says what
    /// the index is to hold of it.
    pub fn replace_content_and_reindex(&mut self, id: &str, new_content: &str) -> (r: Option<IndexEntry>)
        ensures
            final(self)@ == (ManagerView {
                entries: edited(
                    old(self)@.entries,
                    id@,
                    |m: ItemView| ItemView { content: new_content@, embedding: None, ..m },
                ),
                dirty: old(self)@.dirty || r is Some,
                ..old(self)@
            }),
            match r {
                Some(e) => holds_id(old(self)@.entries, id@) && ({
                    let m = old(self)@.entries[last_with_id(old(self)@.entries, id@)->0];
                    e.importance == m.importance && e.memory_type@ == index_type(m.tags)
                        && e.timestamp == m.timestamp
                }),
                None => !holds_id(old(self)@.entries, id@),
            },
    {
        match position_by_id(self.entries.as_slice(), id) {
            Some(i) => {
                let mut m = self.entries[i].clone();
                assert(self@.entries[i as int] == m@);
                let e = IndexEntry {
                    importance: m.importance,
                    memory_type: find_index_type(&m.tags),
                    timestamp: m.timestamp,
                };
                m.content = new_content.to_owned();
                m.embedding = None;
                put_item(&mut self.entries, i, m);
                self.dirty = true;
                Some(e)
            },
            None => None,
        }
    }

    /// Notes what speaks for the memory and against it.
    pub fn apply_evidence_to_memory(&mut self, memory_id: &str, e: &EvidenceSnapshot) -> (r: bool)
        ensures
            r == holds_id(old(self)@.entries, memory_id@),
            final(self)@ == (ManagerView {
                entries: edited(
                    old(self)@.entries,
                    memory_id@,
                    |m: ItemView| with_evidence(m, *e),
                ),
                dirty: old(self)@.dirty || r,
                ..old(self)@
            }),
    {
        match position_by_id(self.entries.as_slice(), memory_id) {
            Some(i) => {
                let mut m = self.entries[i].clone();
                assert(self@.entries[i as int] == m@);
                m.reinforcement = e.reinforcement;
                m.disputation = e.disputation;
                m.rein_last_signal_at = e.rein_last_signal_at;
                m.disp_last_signal_at = e.disp_last_signal_at;
                m.user_fact_reinforce_count = e.user_fact_reinforce_count;
                put_item(&mut self.entries, i, m);
                self.dirty = true;
                true
            },
            None => false,
        }
    }

    /// Notes the health of each memory, and lists it.
    pub fn evaluate_lifecycle_health(&mut self, health: &Vec<Health>) -> (out: Vec<(String, i64, String)>)
        requires
            health@.len() == old(self)@.entries.len(),
        ensures
            final(self)@ == (ManagerView {
                entries: Seq::new(
                    old(self)@.entries.len(),
                    |i: int| with_health(old(self)@.entries[i], health@[i]),
                ),
                dirty: true,
                ..old(self)@
            }),
            out@.len() == health@.len(),
            forall|i: int|
                0 <= i < out@.len() ==> (#[trigger] out@[i]).0@ == old(self)@.entries[i].id
                    && out@[i].1 == health@[i].score && out@[i].2@ == health@[i].grade@,
    {
        let ghost was = self@;
        let mut out: Vec<(String, i64, String)> = Vec::new();
        let mut i: usize = 0;
        while i < self.entries.len()
            invariant
                i <= self.entries@.len(),
                self.entries@.len() == was.entries.len(),
                health@.len() == was.entries.len(),
                self@ == (ManagerView { entries: self@.entries, ..was }),
                forall|k: int|
                    0 <= k < was.entries.len() ==> (#[trigger] self.entries@[k])@ == (if k < i {
                        with_health(was.entries[k], health@[k])
                    } else {
                        was.entries[k]
                    }),
                out@.len() == i,
                forall|k: int|
                    0 <= k < i ==> (#[trigger] out@[k]).0@ == was.entries[k].id && out@[k].1
                        == health@[k].score && out@[k].2@ == health@[k].grade@,
            decreases self.entries@.len() - i,
        {
            let h = &health[i];
            let mut m = self.entries[i].clone();
            m.metadata.insert("health", MetaValue::Micros(h.score));
            m.metadata.insert("health_grade", MetaValue::Text(h.grade.clone()));
            m.metadata.insert("health_evidence", MetaValue::Micros(h.evidence));
            out.push((m.id.clone(), h.score, h.grade.clone()));
            self.entries.set(i, m);
            i += 1;
        }
        self.dirty = true;
        assert(self@.entries =~= Seq::new(
            was.entries.len(),
            |i: int| with_health(was.entries[i], health@[i]),
        ));
        out
    }

    /// The health of the first memory with that identifier, of those that were judged; none
    /// where there is no such memory.
    pub fn memory_health(&self, id: &str, scores: &Vec<i64>) -> (r: i64)
        requires
            scores@.len() == self@.entries.len(),
        ensures
            r == (if first_with_id(self@.entries, id@) < self@.entries.len() {
                scores@[first_with_id(self@.entries, id@)]
            } else {
                0
            }),
    {
        let ghost all = self@.entries;
        let mut i: usize = 0;
        assert(all.skip(0) =~= all);
        while i < self.entries.len()
            invariant
                i <= self.entries@.len(),
                all == self@.entries,
                scores@.len() == all.len(),
                first_with_id(all, id@) == i + first_with_id(all.skip(i as int), id@),
            decreases self.entries@.len() - i,
        {
            assert(all.skip(i as int)[0] == self.entries@[i as int]@);
            assert(all.skip(i as int).skip(1) =~= all.skip(i + 1));
            if same(self.entries[i].id.as_str(), id) {
                return scores[i];
            }
            i += 1;
        }
        0
    }

    // -----------------------------------------------------------------------
    // Seeds
    // -----------------------------------------------------------------------

    /// Adds the seeds of the definitions, where there is no seed yet; says whether it did.
    pub fn seed_if_empty(&mut self, specs: &Vec<SeedSpec>, now: i64) -> (r: bool)
        requires
            0 <= now,
            specs@.len() <= 1_000_000_000,
            forall|k: int| 0 <= k < specs@.len() ==> (#[trigger] specs@[k]).content@.len() <= i64::MAX,
        ensures
            r == !any_seed(old(self)@.entries),
            final(self)@ == (ManagerView { entries: final(self)@.entries, ..old(self)@ }),
            if r {
                is_seeded(
                    old(self)@.entries,
                    final(self)@.entries,
                    items_of_specs(seed_views(specs@), old(self)@.char_id, now, specs@.len()),
                )
            } else {
                final(self)@.entries == old(self)@.entries
            },
    {
        let ghost was = self@;
        let mut i: usize = 0;
        while i < self.entries.len()
            invariant
                i <= self.entries@.len(),
                self@ == was,
                forall|k: int| 0 <= k < i ==> !is_seed(#[trigger] was.entries[k]),
            decreases self.entries@.len() - i,
        {
            assert(was.entries[i as int] == self.entries@[i as int]@);
            if starts_with(self.entries[i].id.as_str(), "seed_") {
                return false;
            }
            i += 1;
        }
        let mut seeds = seed_memories(specs, self.char_id.as_str(), now);
        let ghost plan = items_of_specs(seed_views(specs@), was.char_id, now, specs@.len());
        let ghost raw = seeds@;
        let ghost old_items = self.entries@;
        self.entries.append(&mut seeds);
        proof {
            assert(self.entries@ == old_items + raw);
            assert(self@.entries.take(was.entries.len() as int) =~= was.entries);
            assert forall|k: int| 0 <= k < plan.len() implies is_seed_like(
                #[trigger] self@.entries[was.entries.len() + k],
                plan[k],
            ) by {
                assert(self.entries@[was.entries.len() + k] == raw[k]);
            }
        }
        true
    }

    /// Drops all memories, and adds the seeds of the definitions.
    pub fn clear_all_memories(&mut self, specs: &Vec<SeedSpec>, now: i64)
        requires
            0 <= now,
            specs@.len() <= 1_000_000_000,
            forall|k: int| 0 <= k < specs@.len() ==> (#[trigger] specs@[k]).content@.len() <= i64::MAX,
        ensures
            final(self)@ == (ManagerView {
                entries: final(self)@.entries,
                dirty: true,
                ..old(self)@
            }),
            is_seeded(
                Seq::empty(),
                final(self)@.entries,
                items_of_specs(seed_views(specs@), old(self)@.char_id, now, specs@.len()),
            ),
    {
        self.entries = Vec::new();
        assert(self@.entries =~= Seq::<ItemView>::empty());
        let _ = self.seed_if_empty(specs, now);
        self.dirty = true;
    }
}

/// What an identifier and the hint for its age are.
pub open spec fn hint_pair(p: (String, Option<String>)) -> (Seq<char>, Option<Seq<char>>) {
    (p.0@, opt_text(p.1))
}

/// The identifiers of the memories, each with the hint for its age.
pub fn staleness_hints(items: &Vec<MemoryItem>, hints: Vec<Option<String>>) -> (out: Vec<
    (String, Option<String>),
>)
    requires
        hints@.len() == items@.len(),
    ensures
        out@.len() == items@.len(),
        forall|i: int|
            0 <= i < out@.len() ==> hint_pair(#[trigger] out@[i]) == (
                items@[i]@.id,
                opt_text(hints@[i]),
            ),
{
    let mut out: Vec<(String, Option<String>)> = Vec::new();
    let mut i: usize = 0;
    while i < items.len()
        invariant
            i <= items@.len(),
            hints@.len() == items@.len(),
            out@.len() == i,
            forall|k: int|
                0 <= k < i ==> hint_pair(#[trigger] out@[k]) == (items@[k]@.id, opt_text(hints@[k])),
        decreases items@.len() - i,
    {
        out.push((items[i].id.clone(), crate::text::copy_option(&hints[i])));
        i += 1;
    }
    out
}

} // verus!
