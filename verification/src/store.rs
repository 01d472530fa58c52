//! The memories of a character: finding, adding, changing and removing them.

use crate::rank::{rank_items, ranked};
use crate::select::count_items;
use crate::strategy::{last_with_id, position_by_id};
use crate::text::{begins, decimal, decimal_of, list_has, lower, same, starts_with, texts, trim, trimmed};
use crate::types::{flag_at, hook_views, item_views, text_at, Granularity, HookView, ItemView, MemoryItem,
    MetaValue, MetaView, Metadata, OpenHook, ONE};
use vstd::prelude::*;
use vstd::string::*;

verus! {

// ---------------------------------------------------------------------------
// What a memory is
// ---------------------------------------------------------------------------

/// Whether an observer recorded the memory.
pub open spec fn observed(meta: Map<Seq<char>, MetaView>) -> bool {
    text_at(meta, "perspective"@) == Some("observer"@)
}

/// Whether an observer recorded the memory.
pub fn is_observer_perspective(metadata: &Metadata) -> (r: bool)
    ensures
        r == observed(metadata@),
{
    match metadata.text("perspective") {
        Some(s) => same(s.as_str(), "observer"),
        None => false,
    }
}

/// Whether a summary stands for the memory.
pub open spec fn summed_up(m: ItemView) -> bool {
    m.consolidated && flag_at(m.metadata, "summarized"@)
}

/// Whether a summary stands for the memory.
pub fn is_summarized(m: &MemoryItem) -> (r: bool)
    ensures
        r == summed_up(m@),
{
    m.consolidated && m.metadata.flag("summarized")
}

/// Whether the graph shows the memory: it is not archived, or a summary stands for it, and
/// it is neither a seed nor a diary entry.
pub open spec fn graph_visible(m: ItemView) -> bool {
    &&& (!m.consolidated || summed_up(m))
    &&& text_at(m.metadata, "source"@) != Some("system_seed"@)
    &&& !m.tags.contains("diary"@)
    &&& text_at(m.metadata, "kind"@) != Some("diary"@)
}

fn text_is(metadata: &Metadata, key: &str, value: &str) -> (r: bool)
    ensures
        r == (text_at(metadata@, key@) == Some(value@)),
{
    match metadata.text(key) {
        Some(s) => same(s.as_str(), value),
        None => false,
    }
}

/// Whether the graph shows the memory.
pub fn is_graph_visible_memory(m: &MemoryItem) -> (r: bool)
    ensures
        r == graph_visible(m@),
{
    (!m.consolidated || is_summarized(m)) && !text_is(&m.metadata, "source", "system_seed")
        && !list_has(&m.tags, "diary") && !text_is(&m.metadata, "kind", "diary")
}

/// Whether the memory came from a definition.
pub open spec fn is_seed(m: ItemView) -> bool {
    begins(m.id, "seed_"@)
}

/// Whether a search looks at the memory: not where it is archived without a summary.
pub open spec fn searchable(m: ItemView) -> bool {
    !m.consolidated || summed_up(m)
}

/// The key by which two contents are the same.
pub open spec fn content_key(m: ItemView) -> Seq<char> {
    crate::text::lowercase(trim(m.content))
}

/// The memories without those whose content an earlier one has.
pub open spec fn distinct_contents(s: Seq<ItemView>) -> Seq<ItemView>
    decreases s.len(),
{
    if s.len() == 0 {
        Seq::<ItemView>::empty()
    } else {
        let rest = distinct_contents(s.drop_last());
        if exists|j: int|
            0 <= j < s.len() - 1 && content_key(#[trigger] s[j]) == content_key(s.last()) {
            rest
        } else {
            rest.push(s.last())
        }
    }
}

/// Drops the memories whose content, but for case and white space around it, an earlier
/// one has.
pub fn dedup_by_content(items: &[MemoryItem]) -> (out: Vec<MemoryItem>)
    ensures
        item_views(out@) == distinct_contents(item_views(items@)),
{
    let ghost all = item_views(items@);
    let mut keys: Vec<String> = Vec::new();
    let mut out: Vec<MemoryItem> = Vec::new();
    let mut i: usize = 0;
    assert(item_views(out@) =~= distinct_contents(all.take(0)));
    while i < items.len()
        invariant
            i <= items@.len(),
            all == item_views(items@),
            keys@.len() == i,
            forall|j: int| 0 <= j < i ==> (#[trigger] keys@[j])@ == content_key(all[j]),
            item_views(out@) == distinct_contents(all.take(i as int)),
        decreases items@.len() - i,
    {
        let t = trimmed(items[i].content.as_str());
        let key = lower(t.as_str());
        let ghost s = all.take(i + 1);
        proof {
            assert(s.drop_last() =~= all.take(i as int));
            assert(s.last() == items@[i as int]@);
            assert(key@ == content_key(all[i as int]));
        }
        let seen = list_has(&keys, key.as_str());
        proof {
            if seen {
                let j = choose|j: int| 0 <= j < texts(keys@).len() && texts(keys@)[j] == key@;
                assert(texts(keys@)[j] == keys@[j]@);
                assert(content_key(s[j]) == content_key(s.last()));
            } else {
                assert forall|j: int| 0 <= j < s.len() - 1 implies content_key(#[trigger] s[j])
                    != content_key(s.last()) by {
                    assert(texts(keys@)[j] == keys@[j]@);
                    assert(texts(keys@).contains(keys@[j]@));
                }
            }
        }
        if !seen {
            let ghost prev = item_views(out@);
            out.push(items[i].clone());
            assert(item_views(out@) =~= prev.push(items@[i as int]@));
        }
        keys.push(key);
        i += 1;
    }
    assert(all.take(i as int) =~= all);
    out
}

// ---------------------------------------------------------------------------
// Changing memories
// ---------------------------------------------------------------------------

/// The memories with the last one of that identifier changed.
pub open spec fn edited(
    s: Seq<ItemView>,
    id: Seq<char>,
    change: spec_fn(ItemView) -> ItemView,
) -> Seq<ItemView> {
    match last_with_id(s, id) {
        Some(i) => s.update(i, change(s[i])),
        None => s,
    }
}

/// Whether there is a memory with that identifier.
pub open spec fn holds_id(s: Seq<ItemView>, id: Seq<char>) -> bool {
    last_with_id(s, id) is Some
}

/// The memories without the last one of that identifier.
pub open spec fn without_id(s: Seq<ItemView>, id: Seq<char>) -> Seq<ItemView> {
    match last_with_id(s, id) {
        Some(i) => s.remove(i),
        None => s,
    }
}

/// Puts a memory in the place of another.
pub fn put_item(entries: &mut Vec<MemoryItem>, i: usize, item: MemoryItem)
    requires
        i < old(entries)@.len(),
    ensures
        item_views(final(entries)@) == item_views(old(entries)@).update(i as int, item@),
{
    let ghost was = item_views(entries@);
    entries.set(i, item);
    assert(item_views(entries@) =~= was.update(i as int, item@));
}

/// Takes the last memory with that identifier out.
pub fn take_by_id(entries: &mut Vec<MemoryItem>, id: &str) -> (r: Option<MemoryItem>)
    ensures
        item_views(final(entries)@) == without_id(item_views(old(entries)@), id@),
        match r {
            Some(m) => holds_id(item_views(old(entries)@), id@) && m@ == item_views(
                old(entries)@,
            )[last_with_id(item_views(old(entries)@), id@)->0],
            None => !holds_id(item_views(old(entries)@), id@),
        },
{
    let ghost was = item_views(entries@);
    match position_by_id(entries.as_slice(), id) {
        Some(i) => {
            let m = entries.remove(i);
            assert(item_views(entries@) =~= was.remove(i as int));
            assert(m@ == was[i as int]);
            Some(m)
        },
        None => None,
    }
}

/// A memory for which a summary stands.
pub open spec fn summarized(m: ItemView) -> ItemView {
    ItemView {
        consolidated: true,
        metadata: m.metadata.insert("summarized"@, MetaView::Bool(true)),
        ..m
    }
}

/// Notes that a summary stands for the memory.
pub fn mark_summarized_item(mut item: MemoryItem) -> (r: MemoryItem)
    ensures
        r@ == summarized(item@),
{
    item.consolidated = true;
    item.metadata.insert("summarized", MetaValue::Bool(true));
    item
}

/// The granularity of that name, or that of turns.
pub open spec fn granularity_or_turn(name: Seq<char>) -> Granularity {
    if name == Granularity::Session.name() {
        Granularity::Session
    } else if name == Granularity::Summary.name() {
        Granularity::Summary
    } else if name == Granularity::Keyword.name() {
        Granularity::Keyword
    } else {
        Granularity::Turn
    }
}

fn granularity_of(name: &str) -> (r: Granularity)
    ensures
        r == granularity_or_turn(name@),
{
    if same(name, Granularity::Session.as_str()) {
        Granularity::Session
    } else if same(name, Granularity::Summary.as_str()) {
        Granularity::Summary
    } else if same(name, Granularity::Keyword.as_str()) {
        Granularity::Keyword
    } else {
        Granularity::Turn
    }
}

/// How many memories of a granularity are kept in full.
pub open spec fn capacity(g: Granularity, turns: usize) -> usize {
    match g {
        Granularity::Turn => turns,
        Granularity::Session => 30,
        Granularity::Summary => 200,
        Granularity::Keyword => 500,
    }
}

/// How many memories of a granularity are kept in full.
pub fn capacity_of(g: Granularity, turns: usize) -> (r: usize)
    ensures
        r == capacity(g, turns),
{
    match g {
        Granularity::Turn => turns,
        Granularity::Session => 30,
        Granularity::Summary => 200,
        Granularity::Keyword => 500,
    }
}

/// The positions of the memories of that granularity.
pub open spec fn places_of(s: Seq<ItemView>, granularity: Seq<char>) -> Seq<int>
    decreases s.len(),
{
    if s.len() == 0 {
        Seq::<int>::empty()
    } else {
        let rest = places_of(s.drop_last(), granularity);
        if s.last().granularity == granularity {
            rest.push(s.len() - 1)
        } else {
            rest
        }
    }
}

/// The memories with the oldest of that granularity marked where there are `cap`.
pub open spec fn with_room(s: Seq<ItemView>, granularity: Seq<char>, cap: int) -> Seq<ItemView> {
    let p = places_of(s, granularity);
    if p.len() >= cap && p.len() > 0 {
        s.update(p[0], summarized(s[p[0]]))
    } else {
        s
    }
}

/// The memories after one was added at `now`.
pub open spec fn with_entry(s: Seq<ItemView>, item: ItemView, now: i64, turns: usize) -> Seq<ItemView> {
    let g = granularity_or_turn(item.granularity);
    with_room(s, g.name(), capacity(g, turns) as int).push(ItemView { timestamp: now, ..item })
}

/// Adds a memory. Where there are as many of its granularity as are kept in full, the
/// oldest is marked as summed up.
pub fn add_entry(entries: &mut Vec<MemoryItem>, mut item: MemoryItem, now: i64, turns: usize)
    ensures
        item_views(final(entries)@) == with_entry(item_views(old(entries)@), item@, now, turns),
{
    let ghost was = item_views(entries@);
    let g = granularity_of(item.granularity.as_str());
    let name: &'static str = g.as_str();
    let cap: usize = capacity_of(g, turns);
    let mut count: usize = 0;
    let mut first: usize = 0;
    let mut i: usize = 0;
    assert(was.take(0) =~= Seq::<ItemView>::empty());
    while i < entries.len()
        invariant
            i <= entries@.len(),
            was == item_views(entries@),
            name@ == g.name(),
            count <= i,
            count == places_of(was.take(i as int), name@).len(),
            count > 0 ==> first < i && first == places_of(was.take(i as int), name@)[0],
        decreases entries@.len() - i,
    {
        proof {
            assert(was.take(i + 1).drop_last() =~= was.take(i as int));
            assert(was.take(i + 1).last() == entries@[i as int]@);
        }
        if same(entries[i].granularity.as_str(), name) {
            if count == 0 {
                first = i;
            }
            count += 1;
        }
        i += 1;
    }
    assert(was.take(i as int) =~= was);
    if count >= cap && count > 0 {
        let marked = mark_summarized_item(entries[first].clone());
        put_item(entries, first, marked);
    }
    let ghost room = item_views(entries@);
    item.timestamp = now;
    let ghost added = item@;
    entries.push(item);
    assert(item_views(entries@) =~= room.push(added));
}

/// Adding a memory keeps every earlier one in its place, with its content, and changes at
/// most the mark of one; the new one stands last and is the one found under its identifier.
pub proof fn adding_keeps_contents(s: Seq<ItemView>, item: ItemView, now: i64, turns: usize, i: int)
    requires
        0 <= i < s.len(),
    ensures
        with_entry(s, item, now, turns).len() == s.len() + 1,
        with_entry(s, item, now, turns)[i].content == s[i].content,
        with_entry(s, item, now, turns)[i].id == s[i].id,
        with_entry(s, item, now, turns)[i] == s[i] || with_entry(s, item, now, turns)[i] == summarized(
            s[i],
        ),
        last_with_id(with_entry(s, item, now, turns), item.id) == Some(s.len() as int),
{
    let g = granularity_or_turn(item.granularity);
    lemma_places(s, g.name());
    let t = with_entry(s, item, now, turns);
    assert(t.last().id == item.id);
}

proof fn lemma_places(s: Seq<ItemView>, granularity: Seq<char>)
    ensures
        forall|k: int| 0 <= k < places_of(s, granularity).len() ==> 0 <= #[trigger] places_of(
            s,
            granularity,
        )[k] < s.len(),
    decreases s.len(),
{
    if s.len() > 0 {
        lemma_places(s.drop_last(), granularity);
        let p = places_of(s, granularity);
        let q = places_of(s.drop_last(), granularity);
        assert forall|k: int| 0 <= k < p.len() implies 0 <= #[trigger] p[k] < s.len() by {
            if k < q.len() {
                assert(p[k] == q[k]);
            }
        }
    }
}

/// What was added and then taken out leaves the other memories as the addition made them,
/// and comes out with the time of the addition.
pub proof fn added_then_taken(s: Seq<ItemView>, item: ItemView, now: i64, turns: usize)
    ensures
        without_id(with_entry(s, item, now, turns), item.id) == with_room(
            s,
            granularity_or_turn(item.granularity).name(),
            capacity(granularity_or_turn(item.granularity), turns) as int,
        ),
        with_entry(s, item, now, turns)[last_with_id(
            with_entry(s, item, now, turns),
            item.id,
        )->0] == (ItemView { timestamp: now, ..item }),
{
    let t = with_entry(s, item, now, turns);
    let g = granularity_or_turn(item.granularity);
    let room = with_room(s, g.name(), capacity(g, turns) as int);
    assert(t.last().id == item.id);
    assert(t.remove(t.len() - 1) =~= room);
}

// ---------------------------------------------------------------------------
// Reading memories
// ---------------------------------------------------------------------------

/// Has none of the marks of an archived memory.
pub open spec fn is_live() -> spec_fn(ItemView) -> bool {
    |m: ItemView| !m.consolidated
}

/// Is live and carries one of the tags.
pub open spec fn live_with_tag(tags: Seq<Seq<char>>) -> spec_fn(ItemView) -> bool {
    |m: ItemView|
        !m.consolidated && exists|k: int| 0 <= k < m.tags.len() && tags.contains(#[trigger] m.tags[k])
}

/// Is live and at least that important.
pub open spec fn live_from(least: i64) -> spec_fn(ItemView) -> bool {
    |m: ItemView| !m.consolidated && m.importance >= least
}

/// Is shown by the graph and lies in the time from `after` to before `before`.
pub open spec fn visible_within(after: i64, before: i64) -> spec_fn(ItemView) -> bool {
    |m: ItemView| graph_visible(m) && after <= m.timestamp < before
}

/// What the graph shows of a time is what it shows of all time, as far as it lies in that
/// time: points and contents belong together.
pub proof fn shown_points_have_contents(s: Seq<ItemView>, after: i64, before: i64)
    ensures
        s.filter(visible_within(after, before)) == s.filter(|m: ItemView| graph_visible(m)).filter(
            |m: ItemView| after <= m.timestamp < before,
        ),
    decreases s.len(),
{
    reveal(Seq::filter);
    let shown = |m: ItemView| graph_visible(m);
    let within = |m: ItemView| after <= m.timestamp < before;
    if s.len() > 0 {
        shown_points_have_contents(s.drop_last(), after, before);
        let rest = s.drop_last().filter(shown);
        if shown(s.last()) {
            assert(rest.push(s.last()).drop_last() =~= rest);
        }
    }
}

/// Has a hook that is open.
pub open spec fn has_open_hook() -> spec_fn(ItemView) -> bool {
    |m: ItemView|
        exists|k: int| 0 <= k < m.open_hooks.len() && (#[trigger] m.open_hooks[k]).closed_at is None
}

/// The times of the memories.
pub open spec fn item_times(s: Seq<ItemView>) -> Seq<i128> {
    s.map_values(|m: ItemView| m.timestamp as i128)
}

/// The importance of the memories.
pub open spec fn item_weights(s: Seq<ItemView>) -> Seq<i128> {
    s.map_values(|m: ItemView| m.importance as i128)
}

/// The `limit` latest memories, latest first.
pub open spec fn latest(s: Seq<ItemView>, limit: int) -> Seq<ItemView> {
    ranked(s, item_times(s), limit)
}

/// The `limit` most important memories, most important first.
pub open spec fn heaviest(s: Seq<ItemView>, limit: int) -> Seq<ItemView> {
    ranked(s, item_weights(s), limit)
}

/// The `limit` latest memories, latest first.
pub fn take_latest(items: &[MemoryItem], limit: usize) -> (out: Vec<MemoryItem>)
    ensures
        item_views(out@) == latest(item_views(items@), limit as int),
{
    let ghost all = item_views(items@);
    let mut keys: Vec<i128> = Vec::new();
    let mut i: usize = 0;
    while i < items.len()
        invariant
            i <= items@.len(),
            all == item_views(items@),
            keys@.len() == i,
            forall|j: int| 0 <= j < i ==> #[trigger] keys@[j] == item_times(all)[j],
        decreases items@.len() - i,
    {
        keys.push(items[i].timestamp as i128);
        assert(all[i as int] == items@[i as int]@);
        i += 1;
    }
    assert(keys@ =~= item_times(all));
    rank_items(items, &keys, limit)
}

/// The `limit` most important memories, most important first.
pub fn take_heaviest(items: &[MemoryItem], limit: usize) -> (out: Vec<MemoryItem>)
    ensures
        item_views(out@) == heaviest(item_views(items@), limit as int),
{
    let ghost all = item_views(items@);
    let mut keys: Vec<i128> = Vec::new();
    let mut i: usize = 0;
    while i < items.len()
        invariant
            i <= items@.len(),
            all == item_views(items@),
            keys@.len() == i,
            forall|j: int| 0 <= j < i ==> #[trigger] keys@[j] == item_weights(all)[j],
        decreases items@.len() - i,
    {
        keys.push(items[i].importance as i128);
        assert(all[i as int] == items@[i as int]@);
        i += 1;
    }
    assert(keys@ =~= item_weights(all));
    rank_items(items, &keys, limit)
}

/// Whether one of the tags stands in the list.
pub fn has_one_of(tags: &Vec<String>, list: &Vec<String>) -> (r: bool)
    ensures
        r == exists|k: int|
            0 <= k < texts(tags@).len() && texts(list@).contains(#[trigger] texts(tags@)[k]),
{
    let mut i: usize = 0;
    while i < tags.len()
        invariant
            i <= tags@.len(),
            forall|k: int| 0 <= k < i ==> !texts(list@).contains(#[trigger] texts(tags@)[k]),
        decreases tags@.len() - i,
    {
        assert(texts(tags@)[i as int] == tags@[i as int]@);
        if list_has(list, tags[i].as_str()) {
            return true;
        }
        i += 1;
    }
    false
}

/// Whether the memory is live and carries one of the tags.
pub fn is_live_tagged(m: &MemoryItem, tags: &Vec<String>) -> (r: bool)
    ensures
        r == live_with_tag(texts(tags@))(m@),
{
    assert(m@.tags == texts(m.tags@));
    !m.consolidated && has_one_of(&m.tags, tags)
}

/// Whether a hook of the memory is open.
pub fn any_hook_open(m: &MemoryItem) -> (r: bool)
    ensures
        r == has_open_hook()(m@),
{
    let mut i: usize = 0;
    while i < m.open_hooks.len()
        invariant
            i <= m.open_hooks@.len(),
            forall|k: int| 0 <= k < i ==> (#[trigger] m@.open_hooks[k]).closed_at is Some,
        decreases m.open_hooks@.len() - i,
    {
        assert(m@.open_hooks[i as int] == m.open_hooks@[i as int]@);
        if m.open_hooks[i].is_open() {
            return true;
        }
        i += 1;
    }
    false
}

/// The live memories of the identifiers, each once, in the order of the identifiers.
pub open spec fn by_ids(s: Seq<ItemView>, ids: Seq<Seq<char>>) -> Seq<ItemView>
    decreases ids.len(),
{
    if ids.len() == 0 {
        Seq::<ItemView>::empty()
    } else {
        let rest = by_ids(s, ids.drop_last());
        let id = ids.last();
        if ids.drop_last().contains(id) {
            rest
        } else {
            match last_with_id(s, id) {
                Some(i) => if s[i].consolidated {
                    rest
                } else {
                    rest.push(s[i])
                },
                None => rest,
            }
        }
    }
}

/// Copies of the live memories of the identifiers, each once.
pub fn select_by_ids(entries: &[MemoryItem], ids: &Vec<String>) -> (out: Vec<MemoryItem>)
    ensures
        item_views(out@) == by_ids(item_views(entries@), texts(ids@)),
{
    let ghost all = item_views(entries@);
    let ghost want = texts(ids@);
    let mut out: Vec<MemoryItem> = Vec::new();
    let mut seen: Vec<String> = Vec::new();
    let mut i: usize = 0;
    assert(item_views(out@) =~= by_ids(all, want.take(0)));
    assert(texts(seen@) =~= want.take(0));
    while i < ids.len()
        invariant
            i <= ids@.len(),
            all == item_views(entries@),
            want == texts(ids@),
            texts(seen@) == want.take(i as int),
            item_views(out@) == by_ids(all, want.take(i as int)),
        decreases ids@.len() - i,
    {
        proof {
            assert(want.take(i + 1).drop_last() =~= want.take(i as int));
            assert(want.take(i + 1).last() == ids@[i as int]@);
        }
        let id = ids[i].as_str();
        if !list_has(&seen, id) {
            if let Some(k) = position_by_id(entries, id) {
                assert(all[k as int] == entries@[k as int]@);
                if !entries[k].consolidated {
                    let ghost prev = item_views(out@);
                    out.push(entries[k].clone());
                    assert(item_views(out@) =~= prev.push(all[k as int]));
                }
            }
        }
        let ghost before = texts(seen@);
        seen.push(ids[i].clone());
        assert(texts(seen@) =~= before.push(ids@[i as int]@));
        assert(want.take(i + 1) =~= want.take(i as int).push(ids@[i as int]@));
        i += 1;
    }
    assert(want.take(i as int) =~= want);
    out
}

/// How many memories have that granularity.
pub open spec fn count_of(s: Seq<ItemView>, g: Granularity) -> nat {
    places_of(s, g.name()).len()
}

/// How many memories have that granularity.
pub fn count_granularity(entries: &[MemoryItem], g: Granularity) -> (n: usize)
    ensures
        n == count_of(item_views(entries@), g),
{
    let ghost all = item_views(entries@);
    let name: &'static str = g.as_str();
    let mut n: usize = 0;
    let mut i: usize = 0;
    assert(all.take(0) =~= Seq::<ItemView>::empty());
    while i < entries.len()
        invariant
            i <= entries@.len(),
            n <= i,
            all == item_views(entries@),
            name@ == g.name(),
            n == places_of(all.take(i as int), name@).len(),
        decreases entries@.len() - i,
    {
        proof {
            assert(all.take(i + 1).drop_last() =~= all.take(i as int));
            assert(all.take(i + 1).last() == entries@[i as int]@);
        }
        if same(entries[i].granularity.as_str(), name) {
            n += 1;
        }
        i += 1;
    }
    assert(all.take(i as int) =~= all);
    n
}

/// The numbers of the memories in words.
pub open spec fn counts_text(total: nat, turn: nat, session: nat, summary: nat, keyword: nat) -> Seq<char> {
    "记忆总数: "@ + decimal(total) + " | turn="@ + decimal(turn) + " | session="@ + decimal(session)
        + " | summary="@ + decimal(summary) + " | keyword="@ + decimal(keyword)
}

/// The numbers of the memories in words.
pub fn describe_counts(entries: &[MemoryItem]) -> (out: String)
    ensures
        ({
            let s = item_views(entries@);
            out@ == counts_text(
                s.len(),
                count_of(s, Granularity::Turn),
                count_of(s, Granularity::Session),
                count_of(s, Granularity::Summary),
                count_of(s, Granularity::Keyword),
            )
        }),
{
    let total: usize = entries.len();
    let turn: usize = count_granularity(entries, Granularity::Turn);
    let session: usize = count_granularity(entries, Granularity::Session);
    let summary: usize = count_granularity(entries, Granularity::Summary);
    let keyword: usize = count_granularity(entries, Granularity::Keyword);
    let mut out: String = "记忆总数: ".to_owned();
    out.append(decimal_of(total as u64).as_str());
    out.append(" | turn=");
    out.append(decimal_of(turn as u64).as_str());
    out.append(" | session=");
    out.append(decimal_of(session as u64).as_str());
    out.append(" | summary=");
    out.append(decimal_of(summary as u64).as_str());
    out.append(" | keyword=");
    out.append(decimal_of(keyword as u64).as_str());
    out
}

// ---------------------------------------------------------------------------
// Fading seeds
// ---------------------------------------------------------------------------

/// How many memories are not seeds.
pub open spec fn real_count(s: Seq<ItemView>) -> nat {
    s.filter(|m: ItemView| !is_seed(m)).len()
}

/// How many memories are not seeds.
pub fn count_real(entries: &[MemoryItem]) -> (n: usize)
    ensures
        n == real_count(item_views(entries@)),
{
    let test = |m: &MemoryItem| -> (r: bool)
        ensures
            r == !is_seed(m@),
        { !starts_with(m.id.as_str(), "seed_") };
    count_items(entries, test, Ghost(|m: ItemView| !is_seed(m)))
}

/// A seed's importance beside `grown` memories that are no seeds: a tenth less for each
/// five of them beyond ten, and not below three tenths; a smaller one stays as it is.
pub open spec fn faded(importance: int, grown: int) -> int {
    let left = importance - (grown - 10) / 5 * 100_000;
    if importance < 300_000 {
        importance
    } else if left < 300_000 {
        300_000
    } else {
        left
    }
}

/// The memory beside `grown` memories that are no seeds.
pub open spec fn faded_item(m: ItemView, grown: int) -> ItemView {
    if grown > 10 && is_seed(m) && !m.protected {
        ItemView { importance: faded(m.importance as int, grown) as i64, ..m }
    } else {
        m
    }
}

/// The memories after the seeds among them faded.
pub open spec fn faded_seeds(s: Seq<ItemView>) -> Seq<ItemView> {
    s.map_values(|m: ItemView| faded_item(m, real_count(s) as int))
}

/// Lets the seeds fade that are not protected.
pub fn fade_seeds(entries: &mut Vec<MemoryItem>)
    ensures
        item_views(final(entries)@) == faded_seeds(item_views(old(entries)@)),
{
    let ghost was = item_views(entries@);
    let grown: usize = count_real(entries.as_slice());
    if grown <= 10 {
        assert(item_views(entries@) =~= faded_seeds(was));
        return;
    }
    let steps: i128 = (grown as i128 - 10) / 5;
    let mut i: usize = 0;
    while i < entries.len()
        invariant
            i <= entries@.len(),
            entries@.len() == was.len(),
            grown == real_count(was),
            grown > 10,
            steps == (grown - 10) / 5,
            0 <= steps <= grown,
            forall|k: int|
                0 <= k < entries@.len() ==> (#[trigger] entries@[k])@ == (if k < i {
                    faded_item(was[k], grown as int)
                } else {
                    was[k]
                }),
        decreases entries@.len() - i,
    {
        if starts_with(entries[i].id.as_str(), "seed_") && !entries[i].protected {
            let mut m = entries[i].clone();
            let left: i128 = m.importance as i128 - steps * 100_000;
            m.importance = if m.importance < 300_000 {
                m.importance
            } else if left < 300_000 {
                300_000
            } else {
                left as i64
            };
            entries.set(i, m);
        }
        i += 1;
    }
    assert(item_views(entries@) =~= faded_seeds(was));
}

/// A seed never fades below three tenths nor gains importance, and fading touches neither other memories nor
/// protected ones.
pub proof fn fading_is_bounded(s: Seq<ItemView>, i: int)
    requires
        0 <= i < s.len(),
    ensures
        !is_seed(s[i]) || s[i].protected ==> faded_seeds(s)[i] == s[i],
        faded_seeds(s)[i].importance <= s[i].importance,
        s[i].importance >= 300_000 ==> 300_000 <= faded_seeds(s)[i].importance,
        faded_seeds(s)[i].content == s[i].content,
{
    let grown = real_count(s) as int;
    if grown > 10 {
        assert((grown - 10) / 5 >= 0);
    }
}

// ---------------------------------------------------------------------------
// Changes to one memory
// ---------------------------------------------------------------------------

/// An archived memory.
pub open spec fn archived(m: ItemView) -> ItemView {
    ItemView { consolidated: true, ..m }
}

/// A memory with more metadata; what `patch` holds goes before what stood there.
pub open spec fn patched(m: ItemView, patch: Map<Seq<char>, MetaView>) -> ItemView {
    ItemView { metadata: m.metadata.union_prefer_right(patch), ..m }
}

/// Whether a hook of that type is open.
pub open spec fn has_open_of_type(hooks: Seq<HookView>, kind: Seq<char>) -> bool {
    exists|k: int|
        0 <= k < hooks.len() && (#[trigger] hooks[k]).hook_type == kind && hooks[k].closed_at is None
}

/// A memory with one more hook, unless one of its type is open.
pub open spec fn with_hook(m: ItemView, hook: HookView) -> ItemView {
    if has_open_of_type(m.open_hooks, hook.hook_type) {
        m
    } else {
        ItemView { open_hooks: m.open_hooks.push(hook), ..m }
    }
}

/// Whether a hook of that type is open.
pub fn is_type_open(hooks: &Vec<OpenHook>, kind: &str) -> (r: bool)
    ensures
        r == has_open_of_type(hook_views(hooks@), kind@),
{
    let mut i: usize = 0;
    let ghost all = hook_views(hooks@);
    while i < hooks.len()
        invariant
            i <= hooks@.len(),
            all == hook_views(hooks@),
            forall|k: int|
                0 <= k < i ==> !((#[trigger] all[k]).hook_type == kind@ && all[k].closed_at is None),
        decreases hooks@.len() - i,
    {
        assert(all[i as int] == hooks@[i as int]@);
        if same(hooks[i].hook_type.as_str(), kind) && hooks[i].is_open() {
            return true;
        }
        i += 1;
    }
    false
}

/// A memory that a search found: one visit more, a little more important, with its heat.
pub open spec fn visited(m: ItemView, heat: i64, now: i64) -> ItemView {
    ItemView {
        visit_count: if m.visit_count != u32::MAX {
            (m.visit_count + 1) as u32
        } else {
            u32::MAX
        },
        last_visit_at: now,
        heat_score: heat,
        importance: if m.importance + 50_000 >= ONE {
            ONE
        } else {
            (m.importance + 50_000) as i64
        },
        ..m
    }
}

/// The memory with that visit.
pub fn visit(mut m: MemoryItem, heat: i64, now: i64) -> (r: MemoryItem)
    ensures
        r@ == visited(m@, heat, now),
{
    if m.visit_count != u32::MAX {
        m.visit_count = m.visit_count + 1;
    }
    m.last_visit_at = now;
    m.heat_score = heat;
    let room: i64 = ONE - 50_000;
    m.importance = if room > m.importance {
        m.importance + 50_000
    } else {
        ONE
    };
    m
}

/// A hook more for the memory, unless one of its type is open.
pub fn hook_item(mut m: MemoryItem, hook: OpenHook) -> (r: (MemoryItem, bool))
    ensures
        r.0@ == with_hook(m@, hook@),
        r.1 == !has_open_of_type(m@.open_hooks, hook@.hook_type),
{
    if is_type_open(&m.open_hooks, hook.hook_type.as_str()) {
        (m, false)
    } else {
        let ghost was = hook_views(m.open_hooks@);
        m.open_hooks.push(hook);
        assert(hook_views(m.open_hooks@) =~= was.push(hook@));
        (m, true)
    }
}

} // verus!
