//! How a new memory is written: its tags, its metadata, the text that is embedded for it,
//! and what of it the characters share.

use crate::memory_router::{route_sync, routed, MemoryDestination, RouteContext};
use crate::ordered::{sort_dedup, sorted_distinct};
use crate::redact::{copy_spans, only_placeholders, spans, PiiSpan, RedactStatus, SpanView};
use crate::text::{chars_of, contains, contains_any, copy_option, copy_strings, count_chars, decimal,
    decimal_of, ends, ends_with_chars, has_any, has_sub, is_blank, join, join_strings, lower, lowercase,
    opt_text, same, strs, texts, trim, trimmed};
use crate::time_anchor::seconds_of;
use crate::types::{fresh_item, item_id, text_at, ItemView, MemoryItem, MemoryType, MetaValue, MetaView,
    Metadata, SemanticType, ONE};
use vstd::array::*;
use vstd::prelude::*;
use vstd::string::*;

verus! {

// ---------------------------------------------------------------------------
// Which memories are worth a closer look
// ---------------------------------------------------------------------------

/// Whether a memory of that type is worth being described by a model.
pub open spec fn worth_enriching(t: MemoryType) -> bool {
    t == MemoryType::ImportantEvent || t == MemoryType::LongTerm || t == MemoryType::Knowledge || t
        == MemoryType::User || t == MemoryType::Preference || t == MemoryType::Identity || t
        == MemoryType::SessionSummary
}

/// Whether a memory of that type is worth being described by a model.
pub fn should_enrich(memory_type: MemoryType) -> (r: bool)
    ensures
        r == worth_enriching(memory_type),
{
    match memory_type {
        MemoryType::ImportantEvent | MemoryType::LongTerm | MemoryType::Knowledge | MemoryType::User
        | MemoryType::Preference | MemoryType::Identity | MemoryType::SessionSummary => true,
        _ => false,
    }
}

// ---------------------------------------------------------------------------
// Tags
// ---------------------------------------------------------------------------

/// The tag that a type brings.
pub open spec fn type_tag(t: MemoryType) -> Seq<Seq<char>> {
    match t {
        MemoryType::Preference => seq!["preference"@],
        MemoryType::Identity => seq!["identity"@],
        MemoryType::ImportantEvent => seq!["important_event"@],
        MemoryType::Knowledge => seq!["knowledge"@],
        _ => Seq::<Seq<char>>::empty(),
    }
}

/// Whether the text speaks of its speaker at some length, and is no question.
pub open spec fn sounds_lasting(t: Seq<char>) -> bool {
    has_sub(t, "我"@) && t.len() >= 8 && !ends(t, "?"@)
}

/// Whether the text is short, or speaks of a day close by.
pub open spec fn sounds_passing(t: Seq<char>) -> bool {
    has_sub(lowercase(t), "今天"@) || has_sub(lowercase(t), "明天"@) || has_sub(lowercase(t), "昨天"@)
        || t.len() < 20
}

/// The tags of a memory that was given none: in order, each once.
pub open spec fn inferred_tags(content: Seq<char>, memory_type: MemoryType) -> Seq<Seq<char>> {
    let t = trim(content);
    let a = type_tag(memory_type);
    let b = if sounds_lasting(t) {
        a.push("long_term"@)
    } else {
        a
    };
    let c = if sounds_passing(t) {
        b.push("temporary"@)
    } else {
        b
    };
    sorted_distinct(c)
}

fn push_tag(tags: &mut Vec<String>, tag: &str)
    ensures
        texts(final(tags)@) == texts(old(tags)@).push(tag@),
{
    let ghost was = texts(tags@);
    tags.push(tag.to_owned());
    assert(texts(tags@) =~= was.push(tag@));
}

/// The tags of a memory that was given none.
pub fn infer_tags_for_content(content: &str, memory_type: &MemoryType) -> (out: Vec<String>)
    ensures
        texts(out@) == inferred_tags(content@, *memory_type),
{
    let mut tags: Vec<String> = Vec::new();
    assert(texts(tags@) =~= Seq::<Seq<char>>::empty());
    match memory_type {
        MemoryType::Preference => push_tag(&mut tags, "preference"),
        MemoryType::Identity => push_tag(&mut tags, "identity"),
        MemoryType::ImportantEvent => push_tag(&mut tags, "important_event"),
        MemoryType::Knowledge => push_tag(&mut tags, "knowledge"),
        _ => {},
    }
    assert(texts(tags@) =~= type_tag(*memory_type));
    let t = trimmed(content);
    let cs = chars_of(t.as_str());
    let question = chars_of("?");
    let len: usize = cs.len();
    if contains(t.as_str(), "我") && len >= 8 && !ends_with_chars(cs.as_slice(), question.as_slice()) {
        push_tag(&mut tags, "long_term");
    }
    let l = lower(t.as_str());
    if contains(l.as_str(), "今天") || contains(l.as_str(), "明天") || contains(l.as_str(), "昨天") || len
        < 20 {
        push_tag(&mut tags, "temporary");
    }
    sort_dedup(&tags)
}

// ---------------------------------------------------------------------------
// The text that is embedded
// ---------------------------------------------------------------------------

/// Who says it to whom, where the metadata tell.
pub open spec fn speaking(meta: Map<Seq<char>, MetaView>) -> Option<Seq<char>> {
    let speaker = match text_at(meta, "speaker"@) {
        Some(s) => s,
        None => Seq::empty(),
    };
    let listener = match text_at(meta, "listener"@) {
        Some(s) => s,
        None => Seq::empty(),
    };
    if speaker.len() == 0 {
        None
    } else if listener.len() > 0 && listener != speaker {
        Some(speaker + "对"@ + listener + "说"@)
    } else {
        Some(speaker + "说"@)
    }
}

/// When it was said, and by whom, in brackets.
pub open spec fn context_prefix(meta: Map<Seq<char>, MetaView>, day: Option<Seq<char>>) -> Seq<char> {
    match (day, speaking(meta)) {
        (Some(d), Some(s)) => "["@ + d + " "@ + s + "]"@,
        (Some(d), None) => "["@ + d + "]"@,
        (None, Some(s)) => "["@ + s + "]"@,
        (None, None) => Seq::empty(),
    }
}

fn speaking_text(meta: &Metadata) -> (r: Option<String>)
    ensures
        opt_text(r) == speaking(meta@),
{
    let speaker = match meta.text("speaker") {
        Some(s) => s,
        None => String::new(),
    };
    let listener = match meta.text("listener") {
        Some(s) => s,
        None => String::new(),
    };
    if count_chars(speaker.as_str()) == 0 {
        return None;
    }
    let mut out: String = speaker.clone();
    if count_chars(listener.as_str()) > 0 && !same(listener.as_str(), speaker.as_str()) {
        out.append("对");
        out.append(listener.as_str());
    }
    out.append("说");
    Some(out)
}

/// When it was said, and by whom, in brackets.
pub fn prefix_on_day(meta: &Metadata, day: Option<String>) -> (r: String)
    ensures
        r@ == context_prefix(meta@, opt_text(day)),
{
    match (day, speaking_text(meta)) {
        (Some(d), Some(s)) => {
            let mut out: String = "[".to_owned();
            out.append(d.as_str());
            out.append(" ");
            out.append(s.as_str());
            out.append("]");
            out
        },
        (Some(d), None) => {
            let mut out: String = "[".to_owned();
            out.append(d.as_str());
            out.append("]");
            out
        },
        (None, Some(s)) => {
            let mut out: String = "[".to_owned();
            out.append(s.as_str());
            out.append("]");
            out
        },
        (None, None) => String::new(),
    }
}

/// `chrono::DateTime::from_timestamp`, in `chrono::Local`: the day of the instant as
/// `YYYY-MM-DD`, in the time zone of the machine; `None` for an instant that chrono cannot
/// hold. Nothing is promised of it.
#[verifier::external_body]
fn day_of(seconds: i64) -> (r: Option<String>)
{
    match chrono::DateTime::<chrono::Utc>::from_timestamp(seconds, 0) {
        Some(t) => Some(t.with_timezone(&chrono::Local).format("%Y-%m-%d").to_string()),
        None => None,
    }
}

/// `r` is the prefix of the memory on some day.
pub open spec fn is_prefix_of(m: ItemView, r: Seq<char>) -> bool {
    exists|day: Option<Seq<char>>| r == #[trigger] context_prefix(m.metadata, day)
}

/// When the memory was made, and who says it to whom, in brackets; empty where neither is
/// known.
pub fn build_context_prefix(item: &MemoryItem) -> (r: String)
    ensures
        is_prefix_of(item@, r@),
{
    let day = day_of(seconds_of(item.timestamp));
    let r = prefix_on_day(&item.metadata, day);
    assert(r@ == context_prefix(item@.metadata, opt_text(day)));
    r
}

/// Prefix, content and description, those that are not empty, joined by colons.
pub open spec fn embed_text(m: ItemView, prefix: Seq<char>) -> Seq<char> {
    let about = match m.description {
        Some(d) => trim(d),
        None => Seq::empty(),
    };
    let a = if prefix.len() > 0 {
        seq![prefix, trim(m.content)]
    } else {
        seq![trim(m.content)]
    };
    join(
        if about.len() > 0 {
            a.push(about)
        } else {
            a
        },
        "："@,
    )
}

/// Prefix, content and description, those that are not empty, joined by colons.
pub fn embed_with_prefix(item: &MemoryItem, prefix: &str) -> (r: String)
    ensures
        r@ == embed_text(item@, prefix@),
{
    let mut parts: Vec<String> = Vec::new();
    assert(texts(parts@) =~= Seq::<Seq<char>>::empty());
    if count_chars(prefix) > 0 {
        push_tag(&mut parts, prefix);
    }
    let body = trimmed(item.content.as_str());
    push_tag(&mut parts, body.as_str());
    let about = match &item.description {
        Some(d) => trimmed(d.as_str()),
        None => String::new(),
    };
    assert(texts(parts@) =~= if prefix@.len() > 0 {
        seq![prefix@, trim(item@.content)]
    } else {
        seq![trim(item@.content)]
    });
    if count_chars(about.as_str()) > 0 {
        push_tag(&mut parts, about.as_str());
    }
    join_strings(&parts, "：")
}

/// The text that is embedded for a memory.
pub fn embed_input_for(item: &MemoryItem) -> (r: String)
    ensures
        exists|prefix: Seq<char>|
            is_prefix_of(item@, prefix) && r@ == #[trigger] embed_text(item@, prefix),
{
    let prefix = build_context_prefix(item);
    let r = embed_with_prefix(item, prefix.as_str());
    assert(is_prefix_of(item@, prefix@) && r@ == embed_text(item@, prefix@));
    r
}

/// The text that is embedded for a new memory: its summary or its content behind the
/// prefix.
pub open spec fn embed_source(prefix: Seq<char>, body: Seq<char>) -> Seq<char> {
    if prefix.len() == 0 {
        body
    } else {
        prefix + "："@ + body
    }
}

/// The text that is embedded for a new memory.
pub fn embedding_source(prefix: &str, body: &str) -> (r: String)
    ensures
        r@ == embed_source(prefix@, body@),
{
    if count_chars(prefix) == 0 {
        return body.to_owned();
    }
    let mut out: String = prefix.to_owned();
    out.append("：");
    out.append(body);
    out
}

// ---------------------------------------------------------------------------
// The memory that is written
// ---------------------------------------------------------------------------

/// An importance between none and one.
pub open spec fn clamped(importance: i64) -> i64 {
    if importance < 0 {
        0
    } else if importance > ONE {
        ONE
    } else {
        importance
    }
}

/// An importance between none and one.
pub fn clamp_importance(importance: i64) -> (r: i64)
    ensures
        r == clamped(importance),
{
    if importance < 0 {
        0
    } else if importance > ONE {
        ONE
    } else {
        importance
    }
}

/// The metadata with `value` under `key`, where nothing stands there.
pub open spec fn or_insert(
    meta: Map<Seq<char>, MetaView>,
    key: Seq<char>,
    value: MetaView,
) -> Map<Seq<char>, MetaView> {
    if meta.contains_key(key) {
        meta
    } else {
        meta.insert(key, value)
    }
}

/// The metadata of a new memory: what it was given, the session, and what was taken out of
/// the content.
pub open spec fn noted(
    meta: Map<Seq<char>, MetaView>,
    session: Option<Seq<char>>,
    status: RedactStatus,
    found: Seq<SpanView>,
) -> Map<Seq<char>, MetaView> {
    let a = match session {
        Some(s) => or_insert(meta, "session_id"@, MetaView::Text(s)),
        None => meta,
    };
    if status == RedactStatus::Clean {
        a
    } else {
        let b = or_insert(a, "redact_status"@, MetaView::Text(status.name()));
        if found.len() > 0 {
            or_insert(b, "pii_spans"@, MetaView::Spans(found))
        } else {
            b
        }
    }
}

/// Notes the session, and what was taken out of the content.
pub fn note(
    meta: &mut Metadata,
    session: &Option<String>,
    status: RedactStatus,
    found: &Vec<PiiSpan>,
)
    ensures
        final(meta)@ == noted(old(meta)@, opt_text(*session), status, spans(found@)),
{
    if let Some(s) = session {
        meta.insert_if_absent("session_id", MetaValue::Text(s.clone()));
    }
    if status != RedactStatus::Clean {
        meta.insert_if_absent("redact_status", MetaValue::Text(status.as_str().to_owned()));
        assert(spans(found@).len() == found@.len());
        if found.len() > 0 {
            meta.insert_if_absent("pii_spans", MetaValue::Spans(copy_spans(found)));
        }
    }
}

/// What a new memory is made of; its content is without personal data.
pub struct NewMemory {
    pub content: String,
    pub memory_type: MemoryType,
    pub importance: i64,
    pub tags: Vec<String>,
    pub metadata: Option<Metadata>,
    pub related_ids: Vec<String>,
    pub status: RedactStatus,
    pub found: Vec<PiiSpan>,
    pub timestamp_override: Option<i64>,
    pub heat: i64,
}

/// What a new memory is made of, over views.
pub struct NewView {
    pub content: Seq<char>,
    pub memory_type: MemoryType,
    pub importance: i64,
    pub tags: Seq<Seq<char>>,
    pub metadata: Option<Map<Seq<char>, MetaView>>,
    pub related_ids: Seq<Seq<char>>,
    pub status: RedactStatus,
    pub found: Seq<SpanView>,
    pub timestamp_override: Option<i64>,
    pub heat: i64,
}

/// Metadata that may be missing, over views.
pub open spec fn opt_meta(o: Option<Metadata>) -> Option<Map<Seq<char>, MetaView>> {
    match o {
        Some(m) => Some(m@),
        None => None,
    }
}

impl View for NewMemory {
    type V = NewView;

    open spec fn view(&self) -> NewView {
        NewView {
            content: self.content@,
            memory_type: self.memory_type,
            importance: self.importance,
            tags: texts(self.tags@),
            metadata: opt_meta(self.metadata),
            related_ids: texts(self.related_ids@),
            status: self.status,
            found: spans(self.found@),
            timestamp_override: self.timestamp_override,
            heat: self.heat,
        }
    }
}

/// The memory that is written, with an identifier made of `random`, at `now`.
pub open spec fn drafted(n: NewView, session: Option<Seq<char>>, random: Seq<char>, now: i64) -> ItemView {
    ItemView {
        timestamp: match n.timestamp_override {
            Some(t) => t,
            None => now,
        },
        memory_type: n.memory_type.name(),
        tags: if n.tags.len() == 0 {
            inferred_tags(n.content, n.memory_type)
        } else {
            n.tags
        },
        metadata: noted(
            match n.metadata {
                Some(m) => m,
                None => Map::empty(),
            },
            session,
            n.status,
            n.found,
        ),
        related_ids: n.related_ids,
        heat_score: n.heat,
        ..fresh_item(
            item_id(random),
            n.content,
            n.memory_type.kept_at(),
            clamped(n.importance),
            now,
        )
    }
}

/// The memory that stands for one of which nothing but placeholders is left. It is handed
/// back, and not kept.
pub open spec fn skipped_draft(n: NewView, random: Seq<char>, now: i64) -> ItemView {
    ItemView {
        memory_type: n.memory_type.name(),
        metadata: Map::<Seq<char>, MetaView>::empty().insert("pii_skipped"@, MetaView::Bool(true)),
        ..fresh_item(
            item_id(random),
            n.content,
            n.memory_type.kept_at(),
            clamped(n.importance),
            now,
        )
    }
}

/// Whether nothing but placeholders is left of the content.
pub open spec fn nothing_left(content: Seq<char>) -> bool {
    !is_blank(content) && only_placeholders(content)
}

/// The memory that is written.
pub fn draft(n: NewMemory, session: &Option<String>, random: &str, now: i64) -> (r: MemoryItem)
    ensures
        r@ == drafted(n@, opt_text(*session), random@, now),
{
    assert(texts(n.tags@).len() == n.tags@.len());
    let tags = if n.tags.len() == 0 {
        infer_tags_for_content(n.content.as_str(), &n.memory_type)
    } else {
        n.tags
    };
    let mut item = MemoryItem::with_id(
        random,
        n.content,
        n.memory_type.default_granularity(),
        clamp_importance(n.importance),
        now,
    );
    if let Some(t) = n.timestamp_override {
        item.timestamp = t;
    }
    item.memory_type = n.memory_type.as_str().to_owned();
    item.tags = tags;
    item.heat_score = n.heat;
    item.related_ids = n.related_ids;
    let mut meta = match n.metadata {
        Some(m) => m,
        None => Metadata::new(),
    };
    note(&mut meta, session, n.status, &n.found);
    item.metadata = meta;
    item
}

/// The memory that stands for one of which nothing is left.
pub fn draft_skipped(n: NewMemory, random: &str, now: i64) -> (r: MemoryItem)
    ensures
        r@ == skipped_draft(n@, random@, now),
{
    let mut item = MemoryItem::with_id(
        random,
        n.content,
        n.memory_type.default_granularity(),
        clamp_importance(n.importance),
        now,
    );
    item.memory_type = n.memory_type.as_str().to_owned();
    item.metadata.insert("pii_skipped", MetaValue::Bool(true));
    item
}

// ---------------------------------------------------------------------------
// What a model says of a memory
// ---------------------------------------------------------------------------

/// What a model says of a memory.
pub struct EnrichedMeta {
    pub description: Option<String>,
    pub keywords: Vec<String>,
    /// In millionths.
    pub importance: Option<i64>,
    pub semantic_type: SemanticType,
    pub mood_tags: Vec<String>,
    pub summary: Option<String>,
}

/// What a model says of a memory, over views.
pub struct EnrichedView {
    pub description: Option<Seq<char>>,
    pub keywords: Seq<Seq<char>>,
    pub importance: Option<i64>,
    pub semantic_type: SemanticType,
    pub mood_tags: Seq<Seq<char>>,
    pub summary: Option<Seq<char>>,
}

impl View for EnrichedMeta {
    type V = EnrichedView;

    open spec fn view(&self) -> EnrichedView {
        EnrichedView {
            description: opt_text(self.description),
            keywords: texts(self.keywords@),
            importance: self.importance,
            semantic_type: self.semantic_type,
            mood_tags: texts(self.mood_tags@),
            summary: opt_text(self.summary),
        }
    }
}

/// Whether the model said anything.
pub open spec fn says_something(e: EnrichedView) -> bool {
    e.description is Some || e.semantic_type != SemanticType::General || e.keywords.len() > 0
        || e.mood_tags.len() > 0 || e.summary is Some
}

/// The metadata with what the model said.
pub open spec fn enriched_metadata(meta: Map<Seq<char>, MetaView>, e: EnrichedView) -> Map<
    Seq<char>,
    MetaView,
> {
    let a = meta.insert("semantic_type"@, MetaView::Text(e.semantic_type.name()));
    let b = if e.keywords.len() > 0 {
        a.insert("keywords"@, MetaView::List(e.keywords))
    } else {
        a
    };
    let c = if e.mood_tags.len() > 0 {
        b.insert("mood_tags"@, MetaView::List(e.mood_tags))
    } else {
        b
    };
    match e.summary {
        Some(s) => c.insert("summary"@, MetaView::Text(s)),
        None => c,
    }
}

/// The memory with what the model said.
pub open spec fn enriched(m: ItemView, e: EnrichedView) -> ItemView {
    if says_something(e) {
        ItemView {
            description: match e.description {
                Some(d) => Some(d),
                None => m.description,
            },
            metadata: enriched_metadata(m.metadata, e),
            ..m
        }
    } else {
        m
    }
}

/// Whether the model said anything.
pub fn says_anything(e: &EnrichedMeta) -> (r: bool)
    ensures
        r == says_something(e@),
{
    assert(texts(e.keywords@).len() == e.keywords@.len());
    assert(texts(e.mood_tags@).len() == e.mood_tags@.len());
    let general = match e.semantic_type {
        SemanticType::General => true,
        _ => false,
    };
    e.description.is_some() || !general || e.keywords.len() > 0 || e.mood_tags.len() > 0
        || e.summary.is_some()
}

/// Adds what the model said to the memory.
pub fn enrich(mut m: MemoryItem, e: &EnrichedMeta) -> (r: MemoryItem)
    ensures
        r@ == enriched(m@, e@),
{
    assert(texts(e.keywords@).len() == e.keywords@.len());
    assert(texts(e.mood_tags@).len() == e.mood_tags@.len());
    if !says_anything(e) {
        return m;
    }
    if e.description.is_some() {
        m.description = copy_option(&e.description);
    }
    m.metadata.insert("semantic_type", MetaValue::Text(e.semantic_type.as_str().to_owned()));
    if e.keywords.len() > 0 {
        m.metadata.insert("keywords", MetaValue::List(copy_strings(&e.keywords)));
    }
    if e.mood_tags.len() > 0 {
        m.metadata.insert("mood_tags", MetaValue::List(copy_strings(&e.mood_tags)));
    }
    if let Some(s) = &e.summary {
        m.metadata.insert("summary", MetaValue::Text(s.clone()));
    }
    m
}

/// What a model says touches none of the entries that a memory was given under other keys.
pub proof fn enriching_keeps_metadata(m: ItemView, e: EnrichedView, key: Seq<char>)
    requires
        m.metadata.contains_key(key),
        key != "semantic_type"@,
        key != "keywords"@,
        key != "mood_tags"@,
        key != "summary"@,
    ensures
        enriched(m, e).metadata.contains_key(key),
        enriched(m, e).metadata[key] == m.metadata[key],
        enriched(m, e).tags == m.tags,
        enriched(m, e).content == m.content,
{
}

// ---------------------------------------------------------------------------
// What the characters share
// ---------------------------------------------------------------------------

/// What kind of fact of the world it is.
#[derive(Debug, Clone, Copy, PartialEq, Eq, Structural)]
pub enum WorldFactCategory {
    UserPreference,
    HouseRule,
    Environment,
    SharedEvent,
}

/// What kind of fact a text states.
pub open spec fn fact_category(content: Seq<char>) -> WorldFactCategory {
    let l = lowercase(content);
    if has_any(l, seq!["喜欢"@, "讨厌"@, "偏好"@, "爱"@]) {
        WorldFactCategory::UserPreference
    } else if has_any(l, seq!["规则"@, "约定"@, "不要"@, "应该"@]) {
        WorldFactCategory::HouseRule
    } else if has_any(l, seq!["住在"@, "工作"@, "职业"@, "学校"@]) {
        WorldFactCategory::Environment
    } else {
        WorldFactCategory::SharedEvent
    }
}

/// What kind of fact a text states.
pub fn infer_world_fact_category(content: &str) -> (r: WorldFactCategory)
    ensures
        r == fact_category(content@),
{
    let l = lower(content);
    let likes = ["喜欢", "讨厌", "偏好", "爱"];
    let rules = ["规则", "约定", "不要", "应该"];
    let places = ["住在", "工作", "职业", "学校"];
    let a = array_as_slice(&likes);
    let b = array_as_slice(&rules);
    let c = array_as_slice(&places);
    assert(strs(a@) =~= seq!["喜欢"@, "讨厌"@, "偏好"@, "爱"@]);
    assert(strs(b@) =~= seq!["规则"@, "约定"@, "不要"@, "应该"@]);
    assert(strs(c@) =~= seq!["住在"@, "工作"@, "职业"@, "学校"@]);
    if contains_any(l.as_str(), a) {
        WorldFactCategory::UserPreference
    } else if contains_any(l.as_str(), b) {
        WorldFactCategory::HouseRule
    } else if contains_any(l.as_str(), c) {
        WorldFactCategory::Environment
    } else {
        WorldFactCategory::SharedEvent
    }
}

/// A fact of the world.
#[derive(Debug)]
pub struct WorldFact {
    pub id: String,
    pub fact_text: String,
    pub category: WorldFactCategory,
    pub importance: i64,
    pub contributors: Vec<String>,
    pub source_event_ids: Vec<String>,
    pub created_at: i64,
    pub last_reinforced_at: i64,
    pub reinforcement_count: u32,
}

/// What a fact of the world is.
pub struct FactView {
    pub id: Seq<char>,
    pub fact_text: Seq<char>,
    pub category: WorldFactCategory,
    pub importance: i64,
    pub contributors: Seq<Seq<char>>,
    pub source_event_ids: Seq<Seq<char>>,
    pub created_at: i64,
    pub last_reinforced_at: i64,
    pub reinforcement_count: u32,
}

impl View for WorldFact {
    type V = FactView;

    open spec fn view(&self) -> FactView {
        FactView {
            id: self.id@,
            fact_text: self.fact_text@,
            category: self.category,
            importance: self.importance,
            contributors: texts(self.contributors@),
            source_event_ids: texts(self.source_event_ids@),
            created_at: self.created_at,
            last_reinforced_at: self.last_reinforced_at,
            reinforcement_count: self.reinforcement_count,
        }
    }
}

/// The channel of a memory: `direct` where its metadata name none.
pub open spec fn channel_of(meta: Map<Seq<char>, MetaView>) -> Seq<char> {
    match text_at(meta, "channel"@) {
        Some(c) => c,
        None => "direct"@,
    }
}

/// The category of the fact that a memory adds to the shared world; `None` where the rules
/// send it elsewhere.
pub open spec fn shared_category(
    content: Seq<char>,
    importance: i64,
    meta: Map<Seq<char>, MetaView>,
) -> Option<WorldFactCategory> {
    if routed(content, importance, channel_of(meta)) == MemoryDestination::SharedWorld {
        Some(fact_category(content))
    } else {
        None
    }
}

fn text_or(meta: &Metadata, key: &str, default: &str) -> (r: String)
    ensures
        r@ == (match text_at(meta@, key@) {
            Some(s) => s,
            None => default@,
        }),
{
    match meta.text(key) {
        Some(s) => s,
        None => default.to_owned(),
    }
}

/// The category of the fact that a memory adds to the shared world.
pub fn shared_world_category(content: &str, importance: i64, metadata: &Metadata, char_id: &str) -> (r:
    Option<WorldFactCategory>)
    ensures
        r == shared_category(content@, importance, metadata@),
{
    let channel = text_or(metadata, "channel", "direct");
    let speaker = text_or(metadata, "speaker", "user");
    let listener = text_or(metadata, "listener", char_id);
    let perspective = text_or(metadata, "perspective", "speaker");
    let ctx = RouteContext {
        content,
        importance,
        channel: channel.as_str(),
        speaker: speaker.as_str(),
        listener: listener.as_str(),
        perspective: perspective.as_str(),
        char_id,
    };
    match route_sync(&ctx) {
        MemoryDestination::SharedWorld => Some(infer_world_fact_category(content)),
        _ => None,
    }
}

/// What is to be done with a memory for the shared world.
#[derive(Debug)]
pub enum WorldAction {
    Skip,
    /// The known fact of that identifier counts once more.
    Reinforce(String),
    Append(WorldFact),
}

/// A fact from a memory, with an identifier made of the second and a number.
pub open spec fn new_fact(
    content: Seq<char>,
    category: WorldFactCategory,
    importance: i64,
    char_id: Seq<char>,
    memory_id: Seq<char>,
    number: u32,
    second: u64,
) -> FactView {
    FactView {
        id: "wf-"@ + decimal(second as nat) + "-"@ + decimal(number as nat),
        fact_text: content,
        category,
        importance,
        contributors: seq![char_id],
        source_event_ids: seq![memory_id],
        created_at: second as i64,
        last_reinforced_at: second as i64,
        reinforcement_count: 0,
    }
}

/// What is to be done with a memory for the shared world, where `existing` is the known
/// fact that it resembles. Times are whole seconds.
pub fn world_action(
    content: &str,
    importance: i64,
    metadata: &Metadata,
    char_id: &str,
    memory_id: &str,
    existing: Option<String>,
    number: u32,
    second: u64,
) -> (r: WorldAction)
    requires
        second <= i64::MAX,
    ensures
        match shared_category(content@, importance, metadata@) {
            None => r is Skip,
            Some(c) => match existing {
                Some(e) => r is Reinforce && r->Reinforce_0@ == e@,
                None => r is Append && r->Append_0@ == new_fact(
                    content@,
                    c,
                    importance,
                    char_id@,
                    memory_id@,
                    number,
                    second,
                ),
            },
        },
{
    match shared_world_category(content, importance, metadata, char_id) {
        None => WorldAction::Skip,
        Some(category) => {
            match existing {
                Some(e) => WorldAction::Reinforce(e),
                None => {
                    let mut id: String = "wf-".to_owned();
                    id.append(decimal_of(second).as_str());
                    id.append("-");
                    id.append(decimal_of(number as u64).as_str());
                    let mut contributors: Vec<String> = Vec::new();
                    contributors.push(char_id.to_owned());
                    let mut source_event_ids: Vec<String> = Vec::new();
                    source_event_ids.push(memory_id.to_owned());
                    let fact = WorldFact {
                        id,
                        fact_text: content.to_owned(),
                        category,
                        importance,
                        contributors,
                        source_event_ids,
                        created_at: second as i64,
                        last_reinforced_at: second as i64,
                        reinforcement_count: 0,
                    };
                    assert(fact@.contributors =~= seq![char_id@]);
                    assert(fact@.source_event_ids =~= seq![memory_id@]);
                    WorldAction::Append(fact)
                },
            }
        },
    }
}

/// `rand::random`: a number left to chance.
#[verifier::external_body]
fn random_number() -> (r: u32)
{
    rand::random::<u32>()
}

/// What is to be done with a memory for the shared world; a new fact gets a number by
/// chance.
pub fn route_to_shared_world(
    content: &str,
    importance: i64,
    metadata: &Metadata,
    char_id: &str,
    memory_id: &str,
    existing: Option<String>,
    second: u64,
) -> (r: WorldAction)
    requires
        second <= i64::MAX,
    ensures
        match shared_category(content@, importance, metadata@) {
            None => r is Skip,
            Some(c) => match existing {
                Some(e) => r is Reinforce && r->Reinforce_0@ == e@,
                None => r is Append && exists|number: u32|
                    r->Append_0@ == #[trigger] new_fact(
                        content@,
                        c,
                        importance,
                        char_id@,
                        memory_id@,
                        number,
                        second,
                    ),
            },
        },
{
    world_action(
        content,
        importance,
        metadata,
        char_id,
        memory_id,
        existing,
        random_number(),
        second,
    )
}

// ---------------------------------------------------------------------------
// The memories of a conversation
// ---------------------------------------------------------------------------

/// A memory that a conversation leaves.
#[derive(Debug)]
pub struct ContextWrite {
    pub content: String,
    pub memory_type: MemoryType,
    pub importance: i64,
    pub tags: Vec<String>,
    pub metadata: Metadata,
}

/// What a conversation leaves, over views.
pub struct WriteView {
    pub content: Seq<char>,
    pub memory_type: MemoryType,
    pub importance: i64,
    pub tags: Seq<Seq<char>>,
    pub metadata: Map<Seq<char>, MetaView>,
}

impl View for ContextWrite {
    type V = WriteView;

    open spec fn view(&self) -> WriteView {
        WriteView {
            content: self.content@,
            memory_type: self.memory_type,
            importance: self.importance,
            tags: texts(self.tags@),
            metadata: self.metadata@,
        }
    }
}

/// What the writes of a list are.
pub open spec fn write_views(v: Seq<ContextWrite>) -> Seq<WriteView> {
    v.map_values(|w: ContextWrite| w@)
}

/// The metadata of something that `speaker` says to `listener` directly.
pub open spec fn direct_metadata(speaker: Seq<char>, listener: Seq<char>) -> Map<Seq<char>, MetaView> {
    Map::<Seq<char>, MetaView>::empty().insert("channel"@, MetaView::Text("direct"@)).insert(
        "speaker"@,
        MetaView::Text(speaker),
    ).insert("listener"@, MetaView::Text(listener)).insert(
        "perspective"@,
        MetaView::Text("speaker"@),
    ).insert("knowledge_source"@, MetaView::Text("direct"@))
}

/// The metadata of something that `speaker` says to `listener` directly.
pub fn direct_meta(speaker: &str, listener: &str) -> (r: Metadata)
    ensures
        r@ == direct_metadata(speaker@, listener@),
{
    let mut m = Metadata::new();
    m.insert("channel", MetaValue::Text("direct".to_owned()));
    m.insert("speaker", MetaValue::Text(speaker.to_owned()));
    m.insert("listener", MetaValue::Text(listener.to_owned()));
    m.insert("perspective", MetaValue::Text("speaker".to_owned()));
    m.insert("knowledge_source", MetaValue::Text("direct".to_owned()));
    m
}

/// The text behind its prefix: where one is given and the metadata name a speaker and a
/// listener.
pub open spec fn spoken(
    text: Seq<char>,
    prefix: Option<Seq<char>>,
    meta: Map<Seq<char>, MetaView>,
) -> Seq<char> {
    match prefix {
        Some(p) => if text_at(meta, "speaker"@) is Some && text_at(meta, "listener"@) is Some {
            p + " "@ + trim(text)
        } else {
            trim(text)
        },
        None => trim(text),
    }
}

/// The text behind its prefix.
pub fn speak(text: &str, prefix: &Option<String>, meta: &Metadata) -> (r: String)
    ensures
        r@ == spoken(text@, opt_text(*prefix), meta@),
{
    let t = trimmed(text);
    match prefix {
        Some(p) => {
            if meta.text("speaker").is_some() && meta.text("listener").is_some() {
                let mut out: String = p.clone();
                out.append(" ");
                out.append(t.as_str());
                out
            } else {
                t
            }
        },
        None => t,
    }
}

/// What the user said.
pub open spec fn user_write(
    text: Seq<char>,
    prefix: Option<Seq<char>>,
    emotion: Seq<char>,
    importance: i64,
    meta: Map<Seq<char>, MetaView>,
) -> WriteView {
    WriteView {
        content: spoken(text, prefix, meta),
        memory_type: MemoryType::ShortTerm,
        importance,
        tags: seq![
            "short_term"@, "user"@, "dialogue_turn"@,
            if is_blank(emotion) {
                "neutral"@
            } else {
                emotion
            },
        ],
        metadata: meta,
    }
}

/// What the character answered: the first answer counts at most a quarter, a later one
/// at most three tenths.
pub open spec fn reply_write(
    text: Seq<char>,
    prefix: Option<Seq<char>>,
    emotion: Seq<char>,
    importance: i64,
    i: int,
    meta: Map<Seq<char>, MetaView>,
) -> WriteView {
    let most: i64 = if i == 0 {
        250_000
    } else {
        300_000
    };
    WriteView {
        content: spoken(text, prefix, meta),
        memory_type: MemoryType::ShortTerm,
        importance: if importance < most {
            importance
        } else {
            most
        },
        tags: seq!["short_term"@, "assistant"@, "dialogue_turn"@, emotion],
        metadata: meta,
    }
}

/// What the first `n` answers leave; blank ones leave nothing.
pub open spec fn reply_writes(
    replies: Seq<Seq<char>>,
    prefixes: Seq<Option<Seq<char>>>,
    emotion: Seq<char>,
    importance: i64,
    meta: Map<Seq<char>, MetaView>,
    n: nat,
) -> Seq<WriteView>
    decreases n,
{
    if n == 0 {
        Seq::<WriteView>::empty()
    } else {
        let rest = reply_writes(replies, prefixes, emotion, importance, meta, (n - 1) as nat);
        if is_blank(replies[n - 1]) {
            rest
        } else {
            rest.push(
                reply_write(replies[n - 1], prefixes[n - 1], emotion, importance, n - 1, meta),
            )
        }
    }
}

/// What a model thought worth keeping for long.
pub open spec fn lasting_write(text: Seq<char>, char_id: Seq<char>) -> WriteView {
    WriteView {
        content: trim(text),
        memory_type: MemoryType::LongTerm,
        importance: 900_000,
        tags: seq!["llm_generated"@],
        metadata: Map::<Seq<char>, MetaView>::empty().insert(
            "channel"@,
            MetaView::Text("direct"@),
        ).insert("speaker"@, MetaView::Text("user"@)).insert(
            "listener"@,
            MetaView::Text(char_id),
        ).insert("knowledge_source"@, MetaView::Text("llm_extracted"@)),
    }
}

/// A conversation that is to be kept. A prefix is `None` where the text has one already.
pub struct Conversation {
    pub user_input: Option<String>,
    pub user_prefix: Option<String>,
    pub replies: Vec<String>,
    /// One for each reply.
    pub reply_prefixes: Vec<Option<String>>,
    pub long_term_memory: Option<String>,
    pub user_emotion: String,
    pub ai_emotion: Option<String>,
    pub importance_user: i64,
    pub importance_ai: i64,
}

/// The prefixes of a list, over views.
pub open spec fn prefix_views(v: Seq<Option<String>>) -> Seq<Option<Seq<char>>> {
    v.map_values(|o: Option<String>| opt_text(o))
}

/// What a conversation leaves: what the user said, what the character answered, and what
/// a model thought worth keeping, in that order.
pub open spec fn context_writes(
    c: Conversation,
    char_id: Seq<char>,
    user_meta: Option<Map<Seq<char>, MetaView>>,
    ai_meta: Option<Map<Seq<char>, MetaView>>,
) -> Seq<WriteView> {
    let um = match user_meta {
        Some(m) => m,
        None => direct_metadata("user"@, char_id),
    };
    let am = match ai_meta {
        Some(m) => m,
        None => direct_metadata(char_id, "user"@),
    };
    let emotion = match c.ai_emotion {
        Some(e) => e@,
        None => "neutral"@,
    };
    let a = match c.user_input {
        Some(t) => if is_blank(t@) {
            Seq::<WriteView>::empty()
        } else {
            seq![user_write(t@, opt_text(c.user_prefix), c.user_emotion@, c.importance_user, um)]
        },
        None => Seq::<WriteView>::empty(),
    };
    let b = a + reply_writes(
        texts(c.replies@),
        prefix_views(c.reply_prefixes@),
        emotion,
        c.importance_ai,
        am,
        c.replies@.len(),
    );
    match c.long_term_memory {
        Some(t) => if is_blank(t@) {
            b
        } else {
            b.push(lasting_write(t@, char_id))
        },
        None => b,
    }
}

fn push_write(out: &mut Vec<ContextWrite>, w: ContextWrite)
    ensures
        write_views(final(out)@) == write_views(old(out)@).push(w@),
{
    let ghost was = write_views(out@);
    out.push(w);
    assert(write_views(out@) =~= was.push(w@));
}

fn four(a: &str, b: &str, c: &str, d: &str) -> (out: Vec<String>)
    ensures
        texts(out@) == seq![a@, b@, c@, d@],
{
    let mut out: Vec<String> = Vec::new();
    out.push(a.to_owned());
    out.push(b.to_owned());
    out.push(c.to_owned());
    out.push(d.to_owned());
    assert(texts(out@) =~= seq![a@, b@, c@, d@]);
    out
}

fn push_replies(
    out: &mut Vec<ContextWrite>,
    c: &Conversation,
    emotion: &str,
    meta: &Metadata,
)
    requires
        c.reply_prefixes@.len() == c.replies@.len(),
    ensures
        write_views(final(out)@) == write_views(old(out)@) + reply_writes(
            texts(c.replies@),
            prefix_views(c.reply_prefixes@),
            emotion@,
            c.importance_ai,
            meta@,
            c.replies@.len(),
        ),
{
    let ghost start = write_views(out@);
    let ghost replies = texts(c.replies@);
    let ghost prefixes = prefix_views(c.reply_prefixes@);
    let mut i: usize = 0;
    assert(write_views(out@) =~= start + reply_writes(
        replies,
        prefixes,
        emotion@,
        c.importance_ai,
        meta@,
        0,
    ));
    while i < c.replies.len()
        invariant
            i <= c.replies@.len(),
            c.reply_prefixes@.len() == c.replies@.len(),
            replies == texts(c.replies@),
            prefixes == prefix_views(c.reply_prefixes@),
            write_views(out@) == start + reply_writes(
                replies,
                prefixes,
                emotion@,
                c.importance_ai,
                meta@,
                i as nat,
            ),
        decreases c.replies@.len() - i,
    {
        let text = c.replies[i].as_str();
        assert(replies[i as int] == text@);
        assert(prefixes[i as int] == opt_text(c.reply_prefixes@[i as int]));
        if !crate::text::blank(text) {
            let most: i64 = if i == 0 {
                250_000
            } else {
                300_000
            };
            let ghost prev = write_views(out@);
            let content = speak(text, &c.reply_prefixes[i], meta);
            let w = ContextWrite {
                content,
                memory_type: MemoryType::ShortTerm,
                importance: if c.importance_ai < most {
                    c.importance_ai
                } else {
                    most
                },
                tags: four("short_term", "assistant", "dialogue_turn", emotion),
                metadata: meta.clone(),
            };
            let ghost wv = w@;
            push_write(out, w);
            assert(write_views(out@) =~= start + reply_writes(
                replies,
                prefixes,
                emotion@,
                c.importance_ai,
                meta@,
                (i + 1) as nat,
            ));
        }
        i += 1;
    }
}

/// What a conversation leaves.
pub fn plan_context(
    c: &Conversation,
    char_id: &str,
    user_meta: Option<Metadata>,
    ai_meta: Option<Metadata>,
) -> (out: Vec<ContextWrite>)
    requires
        c.reply_prefixes@.len() == c.replies@.len(),
    ensures
        write_views(out@) == context_writes(*c, char_id@, opt_meta(user_meta), opt_meta(ai_meta)),
{
    let um = match user_meta {
        Some(m) => m,
        None => direct_meta("user", char_id),
    };
    let am = match ai_meta {
        Some(m) => m,
        None => direct_meta(char_id, "user"),
    };
    let emotion = match &c.ai_emotion {
        Some(e) => e.as_str(),
        None => "neutral",
    };
    let mut out: Vec<ContextWrite> = Vec::new();
    assert(write_views(out@) =~= Seq::<WriteView>::empty());
    if let Some(t) = &c.user_input {
        if !crate::text::blank(t.as_str()) {
            let felt = if crate::text::blank(c.user_emotion.as_str()) {
                "neutral"
            } else {
                c.user_emotion.as_str()
            };
            let content = speak(t.as_str(), &c.user_prefix, &um);
            let w = ContextWrite {
                content,
                memory_type: MemoryType::ShortTerm,
                importance: c.importance_user,
                tags: four("short_term", "user", "dialogue_turn", felt),
                metadata: um.clone(),
            };
            push_write(&mut out, w);
            assert(write_views(out@) =~= seq![
                user_write(
                    t@,
                    opt_text(c.user_prefix),
                    c.user_emotion@,
                    c.importance_user,
                    um@,
                ),
            ]);
        }
    }
    push_replies(&mut out, c, emotion, &am);
    if let Some(t) = &c.long_term_memory {
        if !crate::text::blank(t.as_str()) {
            let mut meta = Metadata::new();
            meta.insert("channel", MetaValue::Text("direct".to_owned()));
            meta.insert("speaker", MetaValue::Text("user".to_owned()));
            meta.insert("listener", MetaValue::Text(char_id.to_owned()));
            meta.insert("knowledge_source", MetaValue::Text("llm_extracted".to_owned()));
            let mut tags: Vec<String> = Vec::new();
            tags.push("llm_generated".to_owned());
            assert(texts(tags@) =~= seq!["llm_generated"@]);
            let w = ContextWrite {
                content: trimmed(t.as_str()),
                memory_type: MemoryType::LongTerm,
                importance: 900_000,
                tags,
                metadata: meta,
            };
            push_write(&mut out, w);
        }
    }
    out
}

} // verus!
