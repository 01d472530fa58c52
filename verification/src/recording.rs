//! How memories come in: what is said and done, sessions, documents, diary entries, and
//! the memories that a character starts with.

use crate::conflict::{queue_conflict, queued, ConflictOutcome, ConflictView, OutcomeView, PendingConflict};
use crate::manager::{ManagerView, MemoryManager};
use crate::redact::{apart, found, is_pure_placeholder_content, lemma_remembers_more, lemma_remembers_one,
    marked, masked_text, pii_in, remembers, remembers_all, try_redact_content, RedactStatus, TrackerStore};
use crate::store::{add_entry, edited, fade_seeds, faded_seeds, holds_id, put_item, take_by_id, with_entry,
    without_id};
use crate::strategy::{last_with_id, position_by_id};
use crate::text::{copy_option, opt_text, texts};
use crate::types::{item_id, random_uuid, ItemView, MemoryItem, MemoryType, MetaView, Metadata};
use crate::writing::{build_context_prefix, draft, draft_skipped, drafted, embed_source, embedding_source,
    enrich, enriched, is_prefix_of, nothing_left, opt_meta, skipped_draft, worth_enriching, should_enrich,
    write_views, context_writes, plan_context, Conversation, ContextWrite, EnrichedMeta, EnrichedView,
    NewMemory, NewView, says_something, says_anything};
use vstd::array::*;
use vstd::prelude::*;
use vstd::string::*;

verus! {

// ---------------------------------------------------------------------------
// What is said and done
// ---------------------------------------------------------------------------

/// The content without personal data.
pub open spec fn safe_text(raw: Seq<char>) -> Seq<char> {
    if pii_in(raw).len() == 0 {
        raw
    } else {
        masked_text(raw, pii_in(raw))
    }
}

/// Whether personal data was taken out of the content.
pub open spec fn safe_status(raw: Seq<char>) -> RedactStatus {
    if pii_in(raw).len() == 0 {
        RedactStatus::Clean
    } else {
        RedactStatus::Redacted
    }
}

/// What is to be written of a content from which personal data are to be taken out.
pub struct Request {
    pub memory_type: MemoryType,
    pub importance: i64,
    pub tags: Vec<String>,
    pub metadata: Option<Metadata>,
    pub related_ids: Vec<String>,
    pub timestamp_override: Option<i64>,
    /// The heat of a new memory.
    pub heat: i64,
}

/// What is to be written of the raw content.
pub open spec fn requested(raw: Seq<char>, r: Request) -> NewView {
    NewView {
        content: safe_text(raw),
        memory_type: r.memory_type,
        importance: r.importance,
        tags: texts(r.tags@),
        metadata: opt_meta(r.metadata),
        related_ids: texts(r.related_ids@),
        status: safe_status(raw),
        found: marked(pii_in(raw)),
        timestamp_override: r.timestamp_override,
        heat: r.heat,
    }
}

/// A memory that is about to be written.
pub enum Prepared {
    /// Finds of personal data overlap in the text: it cannot be taken out.
    Overlapping,
    /// Nothing but placeholders is left: the memory is handed back, and not kept.
    Skipped(MemoryItem),
    /// The memory, and the text that is to be embedded for it.
    Draft(MemoryItem, String),
}

/// The body of the text that is embedded: the summary, where there is one, without
/// personal data.
pub open spec fn embed_body(raw: Seq<char>, embedding_text: Option<Seq<char>>) -> Seq<char> {
    match embedding_text {
        Some(t) => safe_text(t),
        None => safe_text(raw),
    }
}

/// A text that may be missing, over views.
pub open spec fn str_view(o: Option<&str>) -> Option<Seq<char>> {
    match o {
        Some(s) => Some(s@),
        None => None,
    }
}

/// Whether personal data can be taken out of both texts.
pub open spec fn can_redact(raw: Seq<char>, embedding_text: Option<Seq<char>>) -> bool {
    apart(pii_in(raw)) && match embedding_text {
        Some(t) => apart(pii_in(t)) || nothing_left(safe_text(raw)),
        None => true,
    }
}

/// The texts that are looked through for personal data, in order: the content, and then the
/// text that is embedded, where it comes to that.
pub open spec fn looked_through(raw: Seq<char>, embedding_text: Option<Seq<char>>) -> Seq<Seq<char>> {
    match embedding_text {
        Some(t) => if apart(pii_in(raw)) && !nothing_left(safe_text(raw)) {
            seq![raw, t]
        } else {
            seq![raw]
        },
        None => seq![raw],
    }
}

/// A memory that was prepared from the raw content at `now`, with an identifier made of
/// `u`.
pub open spec fn prepares(
    p: Prepared,
    raw: Seq<char>,
    r: Request,
    embedding_text: Option<Seq<char>>,
    session: Option<Seq<char>>,
    u: Seq<char>,
    now: i64,
) -> bool {
    if nothing_left(safe_text(raw)) {
        p is Skipped && p->Skipped_0@ == skipped_draft(requested(raw, r), u, now)
    } else {
        p is Draft && p->Draft_0@ == drafted(requested(raw, r), session, u, now) && exists|
            prefix: Seq<char>,
        |
            is_prefix_of(p->Draft_0@, prefix) && p->Draft_1@ == #[trigger] embed_source(
                prefix,
                embed_body(raw, embedding_text),
            )
    }
}

/// The manager after a memory was kept, and a conflict of it was dealt with.
pub open spec fn committed(
    m: ManagerView,
    item: ItemView,
    o: OutcomeView,
    merged: Seq<char>,
    conflict_id: Seq<char>,
    now: i64,
) -> ManagerView {
    let rest = match o {
        OutcomeView::ReplaceOld(old_id) => without_id(m.entries, old_id),
        OutcomeView::MergeSupersede(old_id, _) => without_id(m.entries, old_id),
        _ => m.entries,
    };
    ManagerView {
        entries: faded_seeds(with_entry(rest, final_item(item, o, merged), now, m.turns)),
        conflicts: match o {
            OutcomeView::QueueLlm(old_id, old_content, similarity) => queued(
                m.conflicts,
                ConflictView {
                    id: conflict_id,
                    new_memory_id: item.id,
                    new_content: item.content,
                    old_memory_id: old_id,
                    old_content,
                    similarity,
                    created_at: now,
                    retry_count: 0,
                },
            ),
            _ => m.conflicts,
        },
        dirty: true,
        ..m
    }
}

/// The memory with the merged content, where it takes the place of another.
pub open spec fn final_item(item: ItemView, o: OutcomeView, merged: Seq<char>) -> ItemView {
    match o {
        OutcomeView::MergeSupersede(_, _) => ItemView { content: merged, ..item },
        _ => item,
    }
}

/// The manager and the memory after a content was written without a conflict.
pub open spec fn writes(
    before: ManagerView,
    after: ManagerView,
    item: ItemView,
    n: NewView,
    u: Seq<char>,
    now: i64,
) -> bool {
    if nothing_left(n.content) {
        after == before && item == skipped_draft(n, u, now)
    } else {
        item == drafted(n, before.session_id, u, now) && after == committed(
            before,
            item,
            OutcomeView::KeepBoth,
            Seq::empty(),
            Seq::empty(),
            now,
        )
    }
}

/// The importance that a model gave, or the given one.
pub open spec fn model_importance(e: EnrichedView, hint: i64) -> i64 {
    match e.importance {
        Some(i) => i,
        None => hint,
    }
}

/// The summary that a model gave of a memory that is worth it.
pub open spec fn summary_of(memory_type: MemoryType, e: Option<EnrichedMeta>) -> Option<Seq<char>> {
    match e {
        Some(x) => if worth_enriching(memory_type) {
            opt_text(x.summary)
        } else {
            None
        },
        None => None,
    }
}

/// The memory with the description that a model gave, and with the metadata of the stored
/// one after it was enriched.
pub open spec fn described(item: ItemView, stored: ItemView, e: EnrichedView) -> ItemView {
    if says_something(e) {
        ItemView {
            description: match e.description {
                Some(d) => Some(d),
                None => item.description,
            },
            metadata: enriched(stored, e).metadata,
            ..item
        }
    } else {
        item
    }
}

/// The manager and the memory after a content was written that a model described.
pub open spec fn writes_enriched(
    before: ManagerView,
    after: ManagerView,
    item: ItemView,
    n: NewView,
    e: EnrichedView,
    u: Seq<char>,
    now: i64,
) -> bool {
    if nothing_left(n.content) {
        after == before && item == skipped_draft(n, u, now)
    } else {
        let d = drafted(n, before.session_id, u, now);
        let mid = committed(before, d, OutcomeView::KeepBoth, Seq::empty(), Seq::empty(), now);
        item == enriched(d, e) && after == (ManagerView {
            entries: edited(mid.entries, d.id, |m: ItemView| enriched(m, e)),
            ..mid
        })
    }
}

/// A memory that was written is found under its identifier, with what was written.
pub proof fn kept_memory_is_found(
    m: ManagerView,
    item: ItemView,
    o: OutcomeView,
    merged: Seq<char>,
    conflict_id: Seq<char>,
    now: i64,
)
    ensures
        ({
            let after = committed(m, item, o, merged, conflict_id, now).entries;
            let kept = after[after.len() - 1];
            let put = final_item(item, o, merged);
            &&& last_with_id(after, item.id) == Some(after.len() - 1)
            &&& kept.content == put.content
            &&& kept.metadata == put.metadata
            &&& kept.tags == put.tags
            &&& kept.memory_type == put.memory_type
            &&& kept.related_ids == put.related_ids
            &&& kept.timestamp == now
        }),
{
    let rest = match o {
        OutcomeView::ReplaceOld(old_id) => without_id(m.entries, old_id),
        OutcomeView::MergeSupersede(old_id, _) => without_id(m.entries, old_id),
        _ => m.entries,
    };
    let after = committed(m, item, o, merged, conflict_id, now);
    let put = final_item(item, o, merged);
    let raw = with_entry(rest, put, now, m.turns);
    assert(after.entries == faded_seeds(raw));
    assert(raw.last() == (ItemView { timestamp: now, ..put }));
    assert(after.entries.last().id == item.id);
}

fn request_memory(content: String, found: Vec<crate::redact::PiiSpan>, status: RedactStatus, r: Request) -> (n:
    NewMemory)
    ensures
        n@ == (NewView {
            content: content@,
            memory_type: r.memory_type,
            importance: r.importance,
            tags: texts(r.tags@),
            metadata: opt_meta(r.metadata),
            related_ids: texts(r.related_ids@),
            status,
            found: crate::redact::spans(found@),
            timestamp_override: r.timestamp_override,
            heat: r.heat,
        }),
{
    NewMemory {
        content,
        memory_type: r.memory_type,
        importance: r.importance,
        tags: r.tags,
        metadata: r.metadata,
        related_ids: r.related_ids,
        status,
        found,
        timestamp_override: r.timestamp_override,
        heat: r.heat,
    }
}

impl MemoryManager {
    /// Makes a memory of a content: takes personal data out, and says what text is to be
    /// embedded for it, which is that of the summary where there is one.
    pub fn prepare_memory(
        &self,
        trackers: &mut TrackerStore,
        content: &str,
        request: Request,
        embedding_text: Option<&str>,
        now: i64,
    ) -> (r: Prepared)
        ensures
            r is Overlapping == !can_redact(content@, str_view(embedding_text)),
            !(r is Overlapping) ==> exists|u: Seq<char>|
                u.len() == 36 && #[trigger] item_id(u).len() >= 0 && prepares(
                    r,
                    content@,
                    request,
                    str_view(embedding_text),
                    self@.session_id,
                    u,
                    now,
                ),
            remembers_all(
                old(trackers).entries@,
                final(trackers).entries@,
                looked_through(content@, str_view(embedding_text)),
            ),
    {
        let ghost before = trackers.entries@;
        let first = try_redact_content(trackers, content);
        let ghost mid = trackers.entries@;
        proof {
            lemma_remembers_one(before, mid, content@);
        }
        match first {
            None => Prepared::Overlapping,
            Some((safe, spans, status)) => {
                assert(safe@ == safe_text(content@));
                assert(status == safe_status(content@));
                let u = random_uuid();
                assert(item_id(u@).len() >= 0);
                if is_pure_placeholder_content(safe.as_str()) {
                    let n = request_memory(safe, spans, status, request);
                    let item = draft_skipped(n, u.as_str(), now);
                    return Prepared::Skipped(item);
                }
                let body = match embedding_text {
                    None => safe.clone(),
                    Some(t) => {
                        let second = try_redact_content(trackers, t);
                        proof {
                            let after = trackers.entries@;
                            lemma_remembers_one(mid, after, t@);
                            lemma_remembers_more(before, mid, after, seq![content@], seq![t@]);
                            assert(seq![content@] + seq![t@] =~= seq![content@, t@]);
                        }
                        match second {
                            None => {
                                return Prepared::Overlapping;
                            },
                            Some((text, _, _)) => text,
                        }
                    },
                };
                assert(body@ == embed_body(content@, str_view(embedding_text)));
                let n = request_memory(safe, spans, status, request);
                let item = draft(n, &self.session_id, u.as_str(), now);
                let prefix = build_context_prefix(&item);
                let text = embedding_source(prefix.as_str(), body.as_str());
                assert(is_prefix_of(item@, prefix@) && text@ == embed_source(
                    prefix@,
                    embed_body(content@, str_view(embedding_text)),
                ));
                Prepared::Draft(item, text)
            },
        }
    }

    /// Keeps a memory that was prepared, and deals with its conflict: the old memory goes,
    /// or the conflict waits for the arbiter under `conflict_id`. Where the old memory is
    /// merged into the new one, `merged` is the content. Gives the memory as it was handed
    /// to the store.
    pub fn commit_memory(
        &mut self,
        item: MemoryItem,
        outcome: ConflictOutcome,
        merged: &str,
        conflict_id: &str,
        now: i64,
    ) -> (r: MemoryItem)
        ensures
            r@ == final_item(item@, outcome@, merged@),
            final(self)@ == committed(old(self)@, item@, outcome@, merged@, conflict_id@, now),
    {
        let mut item = item;
        match outcome {
            ConflictOutcome::KeepBoth => {},
            ConflictOutcome::QueueLlm { old_id, old_content, similarity } => {
                let c = PendingConflict {
                    id: conflict_id.to_owned(),
                    new_memory_id: item.id.clone(),
                    new_content: item.content.clone(),
                    old_memory_id: old_id,
                    old_content,
                    similarity,
                    created_at: now,
                    retry_count: 0,
                };
                let _ = queue_conflict(&mut self.pending_conflicts, c);
            },
            ConflictOutcome::ReplaceOld { old_id } => {
                let _ = take_by_id(&mut self.entries, old_id.as_str());
            },
            ConflictOutcome::MergeSupersede { old_id, old_content: _ } => {
                item.content = merged.to_owned();
                let _ = take_by_id(&mut self.entries, old_id.as_str());
            },
        }
        add_entry(&mut self.entries, item.clone(), now, self.turn_capacity);
        fade_seeds(&mut self.entries);
        self.dirty = true;
        item
    }

    /// Writes a content for which no conflict is looked for; `None` where personal data
    /// cannot be taken out of it.
    pub fn add_memory_inner(
        &mut self,
        trackers: &mut TrackerStore,
        content: &str,
        request: Request,
        now: i64,
    ) -> (r: Option<MemoryItem>)
        ensures
            r is None == !apart(pii_in(content@)),
            r is None ==> final(self)@ == old(self)@,
            r is Some ==> exists|u: Seq<char>|
                u.len() == 36 && #[trigger] item_id(u).len() >= 0 && writes(
                    old(self)@,
                    final(self)@,
                    r->0@,
                    requested(content@, request),
                    u,
                    now,
                ),
            remembers(old(trackers).entries@, final(trackers).entries@, found(content@, 8), content@),
    {
        let ghost before = trackers.entries@;
        let p = self.prepare_memory(trackers, content, request, None, now);
        proof {
            lemma_remembers_one(before, trackers.entries@, content@);
        }
        match p {
            Prepared::Overlapping => None,
            Prepared::Skipped(item) => Some(item),
            Prepared::Draft(item, _) => {
                let ghost iv = item@;
                let r = self.commit_memory(item, ConflictOutcome::KeepBoth, "", "", now);
                proof {
                    assert(""@ =~= Seq::<char>::empty()) by {
                        reveal_strlit("");
                    }
                    let u = choose|u: Seq<char>|
                        u.len() == 36 && #[trigger] item_id(u).len() >= 0 && prepares(
                            p,
                            content@,
                            request,
                            None,
                            old(self)@.session_id,
                            u,
                            now,
                        );
                    assert(writes(
                        old(self)@,
                        self@,
                        r@,
                        requested(content@, request),
                        u,
                        now,
                    ));
                }
                Some(r)
            },
        }
    }

    /// Writes a content without metadata.
    pub fn add_memory(
        &mut self,
        trackers: &mut TrackerStore,
        content: &str,
        memory_type: MemoryType,
        importance: i64,
        tags: Vec<String>,
        heat: i64,
        now: i64,
    ) -> (r: Option<MemoryItem>)
        ensures
            r is None == !apart(pii_in(content@)),
            r is None ==> final(self)@ == old(self)@,
            r is Some ==> exists|u: Seq<char>|
                u.len() == 36 && #[trigger] item_id(u).len() >= 0 && writes(
                    old(self)@,
                    final(self)@,
                    r->0@,
                    plain_new(content@, memory_type, importance, texts(tags@), None, heat),
                    u,
                    now,
                ),
            remembers(old(trackers).entries@, final(trackers).entries@, found(content@, 8), content@),
    {
        let request = Request {
            memory_type,
            importance,
            tags,
            metadata: None,
            related_ids: Vec::new(),
            timestamp_override: None,
            heat,
        };
        assert(requested(content@, request) == plain_new(
            content@,
            memory_type,
            importance,
            texts(tags@),
            None,
            heat,
        )) by {
            assert(texts(request.related_ids@) =~= Seq::<Seq<char>>::empty());
        }
        self.add_memory_inner(trackers, content, request, now)
    }

    /// Writes a content with metadata: who says it, to whom, who watches.
    pub fn add_memory_with_metadata(
        &mut self,
        trackers: &mut TrackerStore,
        content: &str,
        memory_type: MemoryType,
        importance: i64,
        tags: Vec<String>,
        metadata: Metadata,
        heat: i64,
        now: i64,
    ) -> (r: Option<MemoryItem>)
        ensures
            r is None == !apart(pii_in(content@)),
            r is None ==> final(self)@ == old(self)@,
            r is Some ==> exists|u: Seq<char>|
                u.len() == 36 && #[trigger] item_id(u).len() >= 0 && writes(
                    old(self)@,
                    final(self)@,
                    r->0@,
                    plain_new(
                        content@,
                        memory_type,
                        importance,
                        texts(tags@),
                        Some(metadata@),
                        heat,
                    ),
                    u,
                    now,
                ),
            remembers(old(trackers).entries@, final(trackers).entries@, found(content@, 8), content@),
    {
        let request = Request {
            memory_type,
            importance,
            tags,
            metadata: Some(metadata),
            related_ids: Vec::new(),
            timestamp_override: None,
            heat,
        };
        assert(requested(content@, request) == plain_new(
            content@,
            memory_type,
            importance,
            texts(tags@),
            Some(metadata@),
            heat,
        )) by {
            assert(texts(request.related_ids@) =~= Seq::<Seq<char>>::empty());
        }
        self.add_memory_inner(trackers, content, request, now)
    }

    /// Writes a memory that was merged of others: no conflict is looked for, and it is
    /// kept whatever is left of its content.
    pub fn add_merged_memory(
        &mut self,
        trackers: &mut TrackerStore,
        content: &str,
        request: Request,
        now: i64,
    ) -> (r: Option<MemoryItem>)
        ensures
            r is None == !apart(pii_in(content@)),
            r is None ==> final(self)@ == old(self)@,
            r is Some ==> exists|u: Seq<char>|
                u.len() == 36 && #[trigger] item_id(u).len() >= 0 && r->0@ == drafted(
                    requested(content@, request),
                    old(self)@.session_id,
                    u,
                    now,
                ) && final(self)@ == (ManagerView {
                    entries: with_entry(old(self)@.entries, r->0@, now, old(self)@.turns),
                    dirty: true,
                    ..old(self)@
                }),
            remembers(old(trackers).entries@, final(trackers).entries@, found(content@, 8), content@),
    {
        match try_redact_content(trackers, content) {
            None => None,
            Some((safe, spans, status)) => {
                assert(safe@ == safe_text(content@));
                assert(status == safe_status(content@));
                let u = random_uuid();
                assert(item_id(u@).len() >= 0);
                let n = request_memory(safe, spans, status, request);
                let item = draft(n, &self.session_id, u.as_str(), now);
                add_entry(&mut self.entries, item.clone(), now, self.turn_capacity);
                self.dirty = true;
                Some(item)
            },
        }
    }

    /// Adds what a model said to a memory that was kept, and gives the memory with it; a
    /// memory that was not kept stays as it is.
    pub fn enrich_stored(&mut self, item: MemoryItem, e: &EnrichedMeta) -> (r: MemoryItem)
        ensures
            final(self)@ == (ManagerView {
                entries: edited(old(self)@.entries, item@.id, |m: ItemView| enriched(m, e@)),
                dirty: old(self)@.dirty || (says_something(e@) && holds_id(
                    old(self)@.entries,
                    item@.id,
                )),
                ..old(self)@
            }),
            r@ == (match last_with_id(old(self)@.entries, item@.id) {
                Some(i) => described(item@, old(self)@.entries[i], e@),
                None => item@,
            }),
    {
        match position_by_id(self.entries.as_slice(), item.id.as_str()) {
            Some(i) => {
                assert(self@.entries[i as int] == self.entries@[i as int]@);
                let said = says_anything(e);
                let m = enrich(self.entries[i].clone(), e);
                let mut r = item;
                if said {
                    if e.description.is_some() {
                        r.description = copy_option(&e.description);
                    }
                    r.metadata = m.metadata.clone();
                    self.dirty = true;
                }
                put_item(&mut self.entries, i, m);
                r
            },
            None => item,
        }
    }

    /// Writes a content that a model described, for which no conflict is looked for. What
    /// the model said counts only for the types that are worth it: its importance goes
    /// before the given one, its summary is what is embedded, and the rest is added to the
    /// metadata. `None` where personal data cannot be taken out.
    pub fn add_memory_enriched_with_metadata(
        &mut self,
        trackers: &mut TrackerStore,
        content: &str,
        request: Request,
        e: Option<EnrichedMeta>,
        now: i64,
    ) -> (r: Option<MemoryItem>)
        ensures
            r is None == !can_redact(content@, summary_of(request.memory_type, e)),
            r is None ==> final(self)@ == old(self)@,
            r is Some ==> exists|u: Seq<char>|
                u.len() == 36 && #[trigger] item_id(u).len() >= 0 && (if e is Some && worth_enriching(
                    request.memory_type,
                ) {
                    writes_enriched(
                        old(self)@,
                        final(self)@,
                        r->0@,
                        NewView {
                            importance: model_importance(e->0@, request.importance),
                            ..requested(content@, request)
                        },
                        e->0@,
                        u,
                        now,
                    )
                } else {
                    writes(
                        old(self)@,
                        final(self)@,
                        r->0@,
                        requested(content@, request),
                        u,
                        now,
                    )
                }),
            remembers_all(
                old(trackers).entries@,
                final(trackers).entries@,
                looked_through(content@, summary_of(request.memory_type, e)),
            ),
    {
        let ghost before = trackers.entries@;
        if !should_enrich(request.memory_type) {
            let r = self.add_memory_inner(trackers, content, request, now);
            proof {
                lemma_remembers_one(before, trackers.entries@, content@);
            }
            return r;
        }
        match e {
            None => {
                let r = self.add_memory_inner(trackers, content, request, now);
                proof {
                    lemma_remembers_one(before, trackers.entries@, content@);
                }
                r
            },
            Some(x) => {
                let ghost was = self@;
                let mut request = request;
                let ghost plain = requested(content@, request);
                request.importance = match x.importance {
                    Some(i) => i,
                    None => request.importance,
                };
                let ghost n = requested(content@, request);
                let summary = match &x.summary {
                    Some(s) => Some(s.as_str()),
                    None => None,
                };
                let p = self.prepare_memory(trackers, content, request, summary, now);
                match p {
                    Prepared::Overlapping => None,
                    Prepared::Skipped(item) => Some(item),
                    Prepared::Draft(item, _) => {
                        let ghost d = item@;
                        let kept = self.commit_memory(
                            item,
                            ConflictOutcome::KeepBoth,
                            "",
                            "",
                            now,
                        );
                        let ghost mid = self@;
                        proof {
                            assert(""@ =~= Seq::<char>::empty()) by {
                                reveal_strlit("");
                            }
                            kept_memory_is_found(was, d, OutcomeView::KeepBoth, Seq::empty(), Seq::empty(), now);
                        }
                        let r = self.enrich_stored(kept, &x);
                        proof {
                            let u = choose|u: Seq<char>|
                                u.len() == 36 && #[trigger] item_id(u).len() >= 0 && prepares(
                                    p,
                                    content@,
                                    request,
                                    str_view(summary),
                                    was.session_id,
                                    u,
                                    now,
                                );
                            assert(writes_enriched(was, self@, r@, n, x@, u, now));
                        }
                        Some(r)
                    },
                }
            },
        }
    }

    /// Writes a content that a model described, without metadata.
    pub fn add_memory_enriched(
        &mut self,
        trackers: &mut TrackerStore,
        content: &str,
        memory_type: MemoryType,
        importance_hint: i64,
        tags: Vec<String>,
        e: Option<EnrichedMeta>,
        heat: i64,
        now: i64,
    ) -> (r: Option<MemoryItem>)
        ensures
            r is None == !can_redact(content@, summary_of(memory_type, e)),
            r is None ==> final(self)@ == old(self)@,
            r is Some ==> exists|u: Seq<char>|
                u.len() == 36 && #[trigger] item_id(u).len() >= 0 && (if e is Some && worth_enriching(
                    memory_type,
                ) {
                    writes_enriched(
                        old(self)@,
                        final(self)@,
                        r->0@,
                        plain_new(
                            content@,
                            memory_type,
                            model_importance(e->0@, importance_hint),
                            texts(tags@),
                            None,
                            heat,
                        ),
                        e->0@,
                        u,
                        now,
                    )
                } else {
                    writes(
                        old(self)@,
                        final(self)@,
                        r->0@,
                        plain_new(
                            content@,
                            memory_type,
                            importance_hint,
                            texts(tags@),
                            None,
                            heat,
                        ),
                        u,
                        now,
                    )
                }),
            remembers_all(
                old(trackers).entries@,
                final(trackers).entries@,
                looked_through(content@, summary_of(memory_type, e)),
            ),
    {
        let request = Request {
            memory_type,
            importance: importance_hint,
            tags,
            metadata: None,
            related_ids: Vec::new(),
            timestamp_override: None,
            heat,
        };
        assert(texts(request.related_ids@) =~= Seq::<Seq<char>>::empty());
        self.add_memory_enriched_with_metadata(trackers, content, request, e, now)
    }

    /// What is written of a conversation: what the user said, what was answered, and what
    /// a model thought worth keeping. Each is to be written as a memory of its own, in
    /// that order.
    pub fn save_context_with_metadata(
        &self,
        c: &Conversation,
        user_metadata: Option<Metadata>,
        ai_metadata: Option<Metadata>,
    ) -> (out: Vec<ContextWrite>)
        requires
            c.reply_prefixes@.len() == c.replies@.len(),
        ensures
            write_views(out@) == context_writes(
                *c,
                self@.char_id,
                opt_meta(user_metadata),
                opt_meta(ai_metadata),
            ),
    {
        plan_context(c, self.char_id.as_str(), user_metadata, ai_metadata)
    }

    /// What is written of a conversation between the user and the character.
    pub fn save_context(&self, c: &Conversation) -> (out: Vec<ContextWrite>)
        requires
            c.reply_prefixes@.len() == c.replies@.len(),
        ensures
            write_views(out@) == context_writes(*c, self@.char_id, None, None),
    {
        plan_context(c, self.char_id.as_str(), None, None)
    }

    /// Lets the seeds fade that are not protected.
    pub fn decay_seed_memories(&mut self)
        ensures
            final(self)@ == (ManagerView {
                entries: faded_seeds(old(self)@.entries),
                ..old(self)@
            }),
    {
        fade_seeds(&mut self.entries);
    }
}

/// What is written of a content that stands for itself.
pub open spec fn plain_new(
    raw: Seq<char>,
    memory_type: MemoryType,
    importance: i64,
    tags: Seq<Seq<char>>,
    metadata: Option<Map<Seq<char>, MetaView>>,
    heat: i64,
) -> NewView {
    NewView {
        content: safe_text(raw),
        memory_type,
        importance,
        tags,
        metadata,
        related_ids: Seq::empty(),
        status: safe_status(raw),
        found: marked(pii_in(raw)),
        timestamp_override: None,
        heat,
    }
}

} // verus!
